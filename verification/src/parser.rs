//! The syntax tree of a definition file and the parser that builds it.

use vstd::prelude::*;

use crate::lexer::{Builtin, Ident, IdentValue, Token, TokenValue, token_values};
use crate::text::{decimal, push_decimal, push_str};

verus! {

/// The mathematical value of an `Expression`.
pub enum Expr {
    Literal(Seq<char>),
    Oneof(Seq<char>),
    Builtin(Builtin),
    Ident(Seq<char>),
    Alternative(Seq<Expr>),
    Joined(Seq<Expr>),
    Optional(Box<Expr>),
    Multiple(Box<Expr>),
    Nothing,
}

/// The mathematical value of a `Definition`.
pub struct Def {
    pub name: Seq<char>,
    pub value: Expr,
}

/// An expression as written in a definition.
#[derive(Debug, PartialEq, Eq)]
pub enum Expression<'a> {
    Literal(String),
    Oneof(String),
    Builtin(Builtin),
    Ident(&'a str),
    Alternative(Vec<Expression<'a>>),
    Joined(Vec<Expression<'a>>),
    Optional(Box<Expression<'a>>),
    Multiple(Box<Expression<'a>>),
    Nothing,
}

/// One `name := expression` line.
#[derive(Debug, PartialEq, Eq)]
pub struct Definition<'a> {
    pub name: &'a str,
    pub value: Expression<'a>,
}

impl<'a> View for Expression<'a> {
    type V = Expr;

    open spec fn view(&self) -> Expr {
        self.model()
    }
}

impl<'a> Expression<'a> {
    /// The value of the expression; also written `@`.
    pub open spec fn model(&self) -> Expr
        decreases self,
    {
        match self {
            Expression::Literal(s) => Expr::Literal(s@),
            Expression::Oneof(s) => Expr::Oneof(s@),
            Expression::Builtin(b) => Expr::Builtin(*b),
            Expression::Ident(n) => Expr::Ident(n@),
            Expression::Alternative(v) => Expr::Alternative(
                Seq::new(
                    v@.len(),
                    |i: int|
                        if 0 <= i < v@.len() {
                            v@[i].model()
                        } else {
                            Expr::Nothing
                        },
                ),
            ),
            Expression::Joined(v) => Expr::Joined(
                Seq::new(
                    v@.len(),
                    |i: int|
                        if 0 <= i < v@.len() {
                            v@[i].model()
                        } else {
                            Expr::Nothing
                        },
                ),
            ),
            Expression::Optional(b) => Expr::Optional(Box::new((**b).model())),
            Expression::Multiple(b) => Expr::Multiple(Box::new((**b).model())),
            Expression::Nothing => Expr::Nothing,
        }
    }
}

impl<'a> View for Definition<'a> {
    type V = Def;

    open spec fn view(&self) -> Def {
        Def { name: self.name@, value: self.value@ }
    }
}

/// The values of a sequence of expressions.
pub open spec fn expr_models<'a>(s: Seq<Expression<'a>>) -> Seq<Expr> {
    s.map_values(|x: Expression<'a>| x@)
}

/// The values of a sequence of definitions.
pub open spec fn def_models<'a>(s: Seq<Definition<'a>>) -> Seq<Def> {
    s.map_values(|d: Definition<'a>| d@)
}

/// The value of an alternative or a concatenation is made of the values of
/// its parts.
pub proof fn lemma_expr_models<'a>(v: Vec<Expression<'a>>)
    ensures
        Expression::Alternative(v)@ == Expr::Alternative(expr_models(v@)),
        Expression::Joined(v)@ == Expr::Joined(expr_models(v@)),
{
    let a = Expression::Alternative(v);
    let j = Expression::Joined(v);
    assert(a@->Alternative_0 =~= expr_models(v@));
    assert(j@->Joined_0 =~= expr_models(v@));
}


// ---------------------------------------------------------------------------
// The grammar
//
//   file       := NEWLINE* (definition (NEWLINE+ definition)* NEWLINE*)?
//   definition := NAME ':=' join
//   join       := alt ('+' alt)*
//   alt        := modified ('/' modified)*
//   modified   := 'OPTIONAL'? 'MULTIPLE'? atom
//   atom       := CLASS | NAME | 'NOTHING' | 'ONEOF'? LITERAL
//
// Each rule gives its value and the index after it, or the index of the
// token at which no rule applies.
// ---------------------------------------------------------------------------

pub open spec fn token_at(ts: Seq<TokenValue>, i: int) -> Option<TokenValue> {
    if 0 <= i < ts.len() {
        Some(ts[i])
    } else {
        None
    }
}

pub open spec fn parse_atom(ts: Seq<TokenValue>, i: int) -> Result<(Expr, int), int> {
    match token_at(ts, i) {
        Some(TokenValue::Ident(IdentValue::Builtin(b))) => Ok((Expr::Builtin(b), i + 1)),
        Some(TokenValue::Ident(IdentValue::Definition(n))) => Ok((Expr::Ident(n), i + 1)),
        Some(TokenValue::Nothing) => Ok((Expr::Nothing, i + 1)),
        Some(TokenValue::Literal(l)) => Ok((Expr::Literal(l), i + 1)),
        Some(TokenValue::Oneof) => match token_at(ts, i + 1) {
            Some(TokenValue::Literal(l)) => Ok((Expr::Oneof(l), i + 2)),
            _ => Err(i + 1),
        },
        _ => Err(i),
    }
}

pub open spec fn parse_modified(ts: Seq<TokenValue>, i: int) -> Result<(Expr, int), int> {
    let opt = token_at(ts, i) == Some(TokenValue::Optional);
    let j = if opt {
        i + 1
    } else {
        i
    };
    let mul = token_at(ts, j) == Some(TokenValue::Multiple);
    let k = if mul {
        j + 1
    } else {
        j
    };
    match parse_atom(ts, k) {
        Ok((e, next)) => {
            let e1 = if opt {
                Expr::Optional(Box::new(e))
            } else {
                e
            };
            Ok((
                if mul {
                    Expr::Multiple(Box::new(e1))
                } else {
                    e1
                },
                next,
            ))
        },
        Err(p) => Err(p),
    }
}

/// More alternatives after `acc`, each after a `/`.
pub open spec fn parse_alt_rest(ts: Seq<TokenValue>, j: int, acc: Seq<Expr>) -> Result<
    (Seq<Expr>, int),
    int,
>
    decreases ts.len() - j,
{
    if token_at(ts, j) == Some(TokenValue::Alt) {
        match parse_modified(ts, j + 1) {
            Ok((e, k)) => if j < k <= ts.len() {
                parse_alt_rest(ts, k, acc.push(e))
            } else {
                Err(j)
            },
            Err(p) => Err(p),
        }
    } else {
        Ok((acc, j))
    }
}

/// A list of expressions as one: a single one stands alone.
pub open spec fn gather(v: Seq<Expr>, alternative: bool) -> Expr {
    if v.len() == 1 {
        v[0]
    } else if alternative {
        Expr::Alternative(v)
    } else {
        Expr::Joined(v)
    }
}

pub open spec fn parse_alt(ts: Seq<TokenValue>, i: int) -> Result<(Expr, int), int> {
    match parse_modified(ts, i) {
        Ok((e, j)) => match parse_alt_rest(ts, j, seq![e]) {
            Ok((v, k)) => Ok((gather(v, true), k)),
            Err(p) => Err(p),
        },
        Err(p) => Err(p),
    }
}

/// More parts after `acc`, each after a `+`.
pub open spec fn parse_join_rest(ts: Seq<TokenValue>, j: int, acc: Seq<Expr>) -> Result<
    (Seq<Expr>, int),
    int,
>
    decreases ts.len() - j,
{
    if token_at(ts, j) == Some(TokenValue::Join) {
        match parse_alt(ts, j + 1) {
            Ok((e, k)) => if j < k <= ts.len() {
                parse_join_rest(ts, k, acc.push(e))
            } else {
                Err(j)
            },
            Err(p) => Err(p),
        }
    } else {
        Ok((acc, j))
    }
}

pub open spec fn parse_join(ts: Seq<TokenValue>, i: int) -> Result<(Expr, int), int> {
    match parse_alt(ts, i) {
        Ok((e, j)) => match parse_join_rest(ts, j, seq![e]) {
            Ok((v, k)) => Ok((gather(v, false), k)),
            Err(p) => Err(p),
        },
        Err(p) => Err(p),
    }
}

pub open spec fn parse_definition(ts: Seq<TokenValue>, i: int) -> Result<(Def, int), int> {
    match token_at(ts, i) {
        Some(TokenValue::Ident(IdentValue::Definition(name))) => if token_at(ts, i + 1) == Some(
            TokenValue::Define,
        ) {
            match parse_join(ts, i + 2) {
                Ok((value, k)) => Ok((Def { name, value }, k)),
                Err(p) => Err(p),
            }
        } else {
            Err(i + 1)
        },
        _ => Err(i),
    }
}

/// The index after the run of newlines from `i` on.
pub open spec fn newline_end(ts: Seq<TokenValue>, i: int) -> int
    decreases ts.len() - i,
{
    if token_at(ts, i) == Some(TokenValue::Newline) {
        newline_end(ts, i + 1)
    } else {
        i
    }
}

/// More definitions after `acc`, from `i` on, where one must begin.
pub open spec fn parse_definitions(ts: Seq<TokenValue>, i: int, acc: Seq<Def>) -> Result<
    Seq<Def>,
    int,
>
    decreases ts.len() - i,
{
    match parse_definition(ts, i) {
        Ok((d, k)) => {
            let m = newline_end(ts, k);
            if m >= ts.len() {
                Ok(acc.push(d))
            } else if m == k {
                Err(k)
            } else if i < m {
                parse_definitions(ts, m, acc.push(d))
            } else {
                Err(m)
            }
        },
        Err(p) => Err(p),
    }
}

/// The definitions of a file, or the index of the token where it goes wrong.
pub open spec fn parse_file(ts: Seq<TokenValue>) -> Result<Seq<Def>, int> {
    let i = newline_end(ts, 0);
    if i >= ts.len() {
        Ok(seq![])
    } else {
        parse_definitions(ts, i, seq![])
    }
}

/// How a token is named in a message.
pub open spec fn token_description(t: Option<TokenValue>) -> Seq<char> {
    match t {
        None => "end of input"@,
        Some(TokenValue::Newline) => "line break"@,
        Some(TokenValue::Ident(_)) => "name"@,
        Some(TokenValue::Literal(_)) => "literal"@,
        Some(TokenValue::Define) => "':='"@,
        Some(TokenValue::Join) => "'+'"@,
        Some(TokenValue::Alt) => "'/'"@,
        Some(TokenValue::Optional) => "OPTIONAL"@,
        Some(TokenValue::Multiple) => "MULTIPLE"@,
        Some(TokenValue::Oneof) => "ONEOF"@,
        Some(TokenValue::Nothing) => "NOTHING"@,
    }
}

pub open spec fn parse_error(ts: Seq<TokenValue>, p: int) -> Seq<char> {
    "unexpected "@ + token_description(token_at(ts, p)) + " at token "@ + decimal(p as nat)
}

/// What `parse` gives for a sequence of tokens.
pub open spec fn parse_spec(ts: Seq<TokenValue>) -> Result<Seq<Def>, Seq<char>> {
    match parse_file(ts) {
        Ok(ds) => Ok(ds),
        Err(p) => Err(parse_error(ts, p)),
    }
}


/// The value of a parse outcome.
pub open spec fn parsed<'a>(r: Result<(Expression<'a>, usize), usize>) -> Result<(Expr, int), int> {
    match r {
        Ok((e, k)) => Ok((e@, k as int)),
        Err(p) => Err(p as int),
    }
}

fn is_token(t: &Token, which: &Token) -> (r: bool)
    requires
        which@ is Newline || which@ is Define || which@ is Join || which@ is Alt || which@ is Optional
            || which@ is Multiple || which@ is Oneof || which@ is Nothing,
    ensures
        r == (t@ == which@),
{
    match (t, which) {
        (Token::Newline, Token::Newline) => true,
        (Token::Define, Token::Define) => true,
        (Token::Join, Token::Join) => true,
        (Token::Alt, Token::Alt) => true,
        (Token::Optional, Token::Optional) => true,
        (Token::Multiple, Token::Multiple) => true,
        (Token::Oneof, Token::Oneof) => true,
        (Token::Nothing, Token::Nothing) => true,
        _ => false,
    }
}

/// Whether the token at `i` exists and is `which`.
fn token_is(tokens: &[Token], i: usize, which: &Token) -> (r: bool)
    requires
        which@ is Newline || which@ is Define || which@ is Join || which@ is Alt || which@ is Optional
            || which@ is Multiple || which@ is Oneof || which@ is Nothing,
    ensures
        r == (token_at(token_values(tokens@), i as int) == Some(which@)),
        r ==> i < tokens.len(),
{
    if i < tokens.len() {
        is_token(&tokens[i], which)
    } else {
        false
    }
}

fn parse_atom_at<'a>(tokens: &'a [Token<'a>], i: usize) -> (r: Result<(Expression<'a>, usize), usize>)
    requires
        i <= tokens@.len(),
    ensures
        parsed(r) == parse_atom(token_values(tokens@), i as int),
        r matches Ok((_, k)) ==> i < k <= tokens@.len(),
{
    if i >= tokens.len() {
        return Err(i);
    }
    match &tokens[i] {
        Token::Ident(Ident::Builtin(b)) => Ok((Expression::Builtin(*b), i + 1)),
        Token::Ident(Ident::Definition(name)) => Ok((Expression::Ident(*name), i + 1)),
        Token::Nothing => Ok((Expression::Nothing, i + 1)),
        Token::Literal(l) => Ok((Expression::Literal(l.clone()), i + 1)),
        Token::Oneof => {
            if i + 1 < tokens.len() {
                match &tokens[i + 1] {
                    Token::Literal(l) => Ok((Expression::Oneof(l.clone()), i + 2)),
                    _ => Err(i + 1),
                }
            } else {
                Err(i + 1)
            }
        },
        _ => Err(i),
    }
}

fn parse_modified_at<'a>(tokens: &'a [Token<'a>], i: usize) -> (r: Result<(Expression<'a>, usize), usize>)
    requires
        i <= tokens@.len(),
    ensures
        parsed(r) == parse_modified(token_values(tokens@), i as int),
        r matches Ok((_, k)) ==> i < k <= tokens@.len(),
{
    let opt = token_is(tokens, i, &Token::Optional);
    let j = if opt {
        i + 1
    } else {
        i
    };
    let mul = token_is(tokens, j, &Token::Multiple);
    let k = if mul {
        j + 1
    } else {
        j
    };
    match parse_atom_at(tokens, k) {
        Ok((e, next)) => {
            let e1 = if opt {
                Expression::Optional(Box::new(e))
            } else {
                e
            };
            assert(e1@ == if opt {
                Expr::Optional(Box::new(e@))
            } else {
                e@
            });
            let e2 = if mul {
                Expression::Multiple(Box::new(e1))
            } else {
                e1
            };
            assert(e2@ == if mul {
                Expr::Multiple(Box::new(e1@))
            } else {
                e1@
            });
            assert(opt == (token_at(token_values(tokens@), i as int) == Some(TokenValue::Optional)));
            Ok((e2, next))
        },
        Err(p) => Err(p),
    }
}

fn gather_of<'a>(items: Vec<Expression<'a>>, alternative: bool) -> (r: Expression<'a>)
    requires
        items@.len() >= 1,
    ensures
        r@ == gather(expr_models(items@), alternative),
{
    let mut items = items;
    if items.len() == 1 {
        items.remove(0)
    } else {
        proof {
            lemma_expr_models(items);
        }
        if alternative {
            Expression::Alternative(items)
        } else {
            Expression::Joined(items)
        }
    }
}

fn parse_alt_at<'a>(tokens: &'a [Token<'a>], i: usize) -> (r: Result<(Expression<'a>, usize), usize>)
    requires
        i <= tokens@.len(),
    ensures
        parsed(r) == parse_alt(token_values(tokens@), i as int),
        r matches Ok((_, k)) ==> i < k <= tokens@.len(),
{
    let ghost ts = token_values(tokens@);
    let (first, j0) = match parse_modified_at(tokens, i) {
        Ok(x) => x,
        Err(p) => {
            return Err(p);
        },
    };
    let ghost start = seq![first@];
    let mut items: Vec<Expression<'a>> = Vec::new();
    items.push(first);
    assert(expr_models(items@) =~= start);
    let mut j = j0;
    while token_is(tokens, j, &Token::Alt)
        invariant
            ts == token_values(tokens@),
            i < j0 <= j <= tokens@.len(),
            items@.len() >= 1,
            parse_alt_rest(ts, j0 as int, start) == parse_alt_rest(ts, j as int, expr_models(items@)),
            start.len() == 1,
            parse_modified(ts, i as int) == Ok::<(Expr, int), int>((start[0], j0 as int)),
        decreases tokens@.len() - j,
    {
        match parse_modified_at(tokens, j + 1) {
            Ok((e, k)) => {
                let ghost before = expr_models(items@);
                items.push(e);
                assert(expr_models(items@) =~= before.push(e@));
                j = k;
            },
            Err(p) => {
                assert(seq![start[0]] =~= start);
                return Err(p);
            },
        }
    }
    Ok((gather_of(items, true), j))
}

fn parse_join_at<'a>(tokens: &'a [Token<'a>], i: usize) -> (r: Result<(Expression<'a>, usize), usize>)
    requires
        i <= tokens@.len(),
    ensures
        parsed(r) == parse_join(token_values(tokens@), i as int),
        r matches Ok((_, k)) ==> i < k <= tokens@.len(),
{
    let ghost ts = token_values(tokens@);
    let (first, j0) = match parse_alt_at(tokens, i) {
        Ok(x) => x,
        Err(p) => {
            return Err(p);
        },
    };
    let ghost start = seq![first@];
    let mut items: Vec<Expression<'a>> = Vec::new();
    items.push(first);
    assert(expr_models(items@) =~= start);
    let mut j = j0;
    while token_is(tokens, j, &Token::Join)
        invariant
            ts == token_values(tokens@),
            i < j0 <= j <= tokens@.len(),
            items@.len() >= 1,
            parse_join_rest(ts, j0 as int, start) == parse_join_rest(ts, j as int, expr_models(items@)),
            start.len() == 1,
            parse_alt(ts, i as int) == Ok::<(Expr, int), int>((start[0], j0 as int)),
        decreases tokens@.len() - j,
    {
        match parse_alt_at(tokens, j + 1) {
            Ok((e, k)) => {
                let ghost before = expr_models(items@);
                items.push(e);
                assert(expr_models(items@) =~= before.push(e@));
                j = k;
            },
            Err(p) => {
                assert(seq![start[0]] =~= start);
                return Err(p);
            },
        }
    }
    Ok((gather_of(items, false), j))
}

fn parse_definition_at<'a>(tokens: &'a [Token<'a>], i: usize) -> (r: Result<(Definition<'a>, usize), usize>)
    requires
        i <= tokens@.len(),
    ensures
        match r {
            Ok((d, k)) => parse_definition(token_values(tokens@), i as int) == Ok::<_, int>((d@, k as int))
                && i < k <= tokens@.len(),
            Err(p) => parse_definition(token_values(tokens@), i as int) == Err::<(Def, int), _>(p as int),
        },
{
    if i >= tokens.len() {
        return Err(i);
    }
    match &tokens[i] {
        Token::Ident(Ident::Definition(name)) => {
            if !token_is(tokens, i + 1, &Token::Define) {
                return Err(i + 1);
            }
            match parse_join_at(tokens, i + 2) {
                Ok((value, k)) => Ok((Definition { name: *name, value }, k)),
                Err(p) => Err(p),
            }
        },
        _ => Err(i),
    }
}

fn skip_newlines(tokens: &[Token], i: usize) -> (j: usize)
    requires
        i <= tokens@.len(),
    ensures
        j == newline_end(token_values(tokens@), i as int),
        i <= j <= tokens@.len(),
{
    let mut j = i;
    while token_is(tokens, j, &Token::Newline)
        invariant
            i <= j <= tokens@.len(),
            newline_end(token_values(tokens@), i as int) == newline_end(token_values(tokens@), j as int),
        decreases tokens@.len() - j,
    {
        j = j + 1;
    }
    j
}

fn parse_failure(tokens: &[Token], p: usize) -> (m: String)
    ensures
        m@ == parse_error(token_values(tokens@), p as int),
{
    let desc = if p >= tokens.len() {
        "end of input"
    } else {
        match &tokens[p] {
            Token::Newline => "line break",
            Token::Ident(_) => "name",
            Token::Literal(_) => "literal",
            Token::Define => "':='",
            Token::Join => "'+'",
            Token::Alt => "'/'",
            Token::Optional => "OPTIONAL",
            Token::Multiple => "MULTIPLE",
            Token::Oneof => "ONEOF",
            Token::Nothing => "NOTHING",
        }
    };
    let mut m = String::from_str("unexpected ");
    push_str(&mut m, desc);
    push_str(&mut m, " at token ");
    push_decimal(&mut m, p);
    m
}

/// The value of the parser's outcome.
pub open spec fn parse_outcome<'a>(r: Result<Vec<Definition<'a>>, String>) -> Result<Seq<Def>, Seq<char>> {
    match r {
        Ok(ds) => Ok(def_models(ds@)),
        Err(m) => Err(m@),
    }
}

/// Parses the tokens of a definition file into its definitions, one per
/// line; blank lines are allowed anywhere.
pub fn parse<'a>(tokens: &'a [Token<'a>]) -> (r: Result<Vec<Definition<'a>>, String>)
    ensures
        parse_outcome(r) == parse_spec(token_values(tokens@)),
{
    let ghost ts = token_values(tokens@);
    let mut defs: Vec<Definition<'a>> = Vec::new();
    let i0 = skip_newlines(tokens, 0);
    if i0 >= tokens.len() {
        assert(def_models(defs@) =~= seq![]);
        return Ok(defs);
    }
    let mut i = i0;
    assert(def_models(defs@) =~= seq![]);
    loop
        invariant
            ts == token_values(tokens@),
            i0 <= i < tokens@.len(),
            i0 == newline_end(ts, 0),
            i0 < ts.len(),
            parse_definitions(ts, i0 as int, seq![]) == parse_definitions(ts, i as int, def_models(defs@)),
        decreases tokens@.len() - i,
    {
        match parse_definition_at(tokens, i) {
            Ok((d, k)) => {
                let m = skip_newlines(tokens, k);
                let ghost before = def_models(defs@);
                defs.push(d);
                assert(def_models(defs@) =~= before.push(d@));
                if m >= tokens.len() {
                    return Ok(defs);
                } else if m == k {
                    return Err(parse_failure(tokens, k));
                }
                i = m;
            },
            Err(p) => {
                return Err(parse_failure(tokens, p));
            },
        }
    }
}

// ---------------------------------------------------------------------------
// Every alternative may carry modifiers
// ---------------------------------------------------------------------------

/// The expression that a single token stands for as an atom: a literal, a
/// class, a name or `NOTHING`.
pub open spec fn token_atom(t: TokenValue) -> Option<Expr> {
    match t {
        TokenValue::Literal(l) => Some(Expr::Literal(l)),
        TokenValue::Ident(IdentValue::Builtin(b)) => Some(Expr::Builtin(b)),
        TokenValue::Ident(IdentValue::Definition(n)) => Some(Expr::Ident(n)),
        TokenValue::Nothing => Some(Expr::Nothing),
        _ => None,
    }
}

/// `OPTIONAL` makes the atom optional, and `MULTIPLE` repeats what that
/// gives.
pub open spec fn with_modifiers(e: Expr, optional: bool, multiple: bool) -> Expr {
    let inner = if optional {
        Expr::Optional(Box::new(e))
    } else {
        e
    };
    if multiple {
        Expr::Multiple(Box::new(inner))
    } else {
        inner
    }
}

/// The tokens from `i` on are `OPTIONAL` (if `optional`), `MULTIPLE` (if
/// `multiple`) and then one atom token; the number of these tokens.
pub open spec fn modified_at(ts: Seq<TokenValue>, i: int, optional: bool, multiple: bool) -> bool {
    let a = if optional { 1int } else { 0int };
    let b = if multiple { 1int } else { 0int };
    &&& 0 <= i
    &&& optional ==> token_at(ts, i) == Some(TokenValue::Optional)
    &&& multiple ==> token_at(ts, i + a) == Some(TokenValue::Multiple)
    &&& token_at(ts, i + a + b) matches Some(t) && token_atom(t) is Some
}

pub open spec fn modified_len(optional: bool, multiple: bool) -> int {
    (if optional { 1int } else { 0int }) + (if multiple { 1int } else { 0int }) + 1
}

pub open spec fn modified_expr(ts: Seq<TokenValue>, i: int, optional: bool, multiple: bool) -> Expr {
    with_modifiers(
        token_atom(ts[i + modified_len(optional, multiple) - 1]).unwrap(),
        optional,
        multiple,
    )
}

proof fn lemma_parse_modified_at(ts: Seq<TokenValue>, i: int, optional: bool, multiple: bool)
    requires
        modified_at(ts, i, optional, multiple),
    ensures
        parse_modified(ts, i) == Ok::<(Expr, int), int>(
            (modified_expr(ts, i, optional, multiple), i + modified_len(optional, multiple)),
        ),
{
}

/// Every alternative is read by the same rule: `x / y`, where each of `x`
/// and `y` is an atom token with optional `OPTIONAL` and `MULTIPLE` before
/// it, and no `/` follows, is the alternative of the two modified atoms.
pub proof fn lemma_alternatives_take_modifiers(
    ts: Seq<TokenValue>,
    i: int,
    o1: bool,
    m1: bool,
    o2: bool,
    m2: bool,
)
    requires
        modified_at(ts, i, o1, m1),
        token_at(ts, i + modified_len(o1, m1)) == Some(TokenValue::Alt),
        modified_at(ts, i + modified_len(o1, m1) + 1, o2, m2),
        token_at(ts, i + modified_len(o1, m1) + 1 + modified_len(o2, m2)) != Some(TokenValue::Alt),
    ensures
        parse_alt(ts, i) == Ok::<(Expr, int), int>(
            (
                Expr::Alternative(
                    seq![
                        modified_expr(ts, i, o1, m1),
                        modified_expr(ts, i + modified_len(o1, m1) + 1, o2, m2),
                    ],
                ),
                i + modified_len(o1, m1) + 1 + modified_len(o2, m2),
            ),
        ),
{
    let j = i + modified_len(o1, m1);
    let k = j + 1 + modified_len(o2, m2);
    lemma_parse_modified_at(ts, i, o1, m1);
    lemma_parse_modified_at(ts, j + 1, o2, m2);
    let e1 = modified_expr(ts, i, o1, m1);
    let e2 = modified_expr(ts, j + 1, o2, m2);
    assert(k <= ts.len());
    assert(parse_alt_rest(ts, k, seq![e1, e2]) == Ok::<(Seq<Expr>, int), int>((seq![e1, e2], k)));
    assert(seq![e1].push(e2) =~= seq![e1, e2]);
    assert(parse_alt_rest(ts, j, seq![e1]) == parse_alt_rest(ts, k, seq![e1].push(e2)));
}

} // verus!
