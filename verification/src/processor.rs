//! Inlining of definitions into one expression, and its simplification.
//!
//! The definitions are kept as a list in file order, and a name is looked
//! up as the first definition that has it (`find_def`); the names already
//! replaced are kept as a list in the order they were met. A map or set
//! keyed by text would give the same lookups, but Verus proves next to
//! nothing of a map or set whose keys are strings, while over a list every
//! lookup, the duplicate check and the loop report are stated and proved.
//! The loop report names the replaced names in the order they were met.

use vstd::prelude::*;

use crate::lexer::Builtin;
use crate::parser::{def_models, expr_models, lemma_expr_models, Def, Definition, Expr, Expression};
use crate::text::{char_at, char_string, chars_of, join_with, push_char, push_str, str_eq};

verus! {

/// The mathematical value of an `InlinedExpression`.
pub enum Pattern {
    Literal(Seq<char>),
    Char(char),
    Builtin(Builtin),
    Alternative(Seq<Pattern>),
    Joined(Seq<Pattern>),
    Optional(Box<Pattern>),
    Multiple(Box<Pattern>),
    ZeroOrMore(Box<Pattern>),
    Nothing,
}

/// An expression with every definition inlined.
///
/// `ZeroOrMore` is the Kleene star: an optional repetition.
#[derive(Debug, PartialEq, Eq)]
pub enum InlinedExpression {
    Literal(String),
    Char(char),
    Builtin(Builtin),
    Alternative(Vec<InlinedExpression>),
    Joined(Vec<InlinedExpression>),
    Optional(Box<InlinedExpression>),
    Multiple(Box<InlinedExpression>),
    ZeroOrMore(Box<InlinedExpression>),
    Nothing,
}

impl View for InlinedExpression {
    type V = Pattern;

    open spec fn view(&self) -> Pattern {
        self.model()
    }
}

impl InlinedExpression {
    /// The value of the expression; also written `@`.
    pub open spec fn model(&self) -> Pattern
        decreases self,
    {
        match self {
            InlinedExpression::Literal(s) => Pattern::Literal(s@),
            InlinedExpression::Char(c) => Pattern::Char(*c),
            InlinedExpression::Builtin(b) => Pattern::Builtin(*b),
            InlinedExpression::Alternative(v) => Pattern::Alternative(
                Seq::new(
                    v@.len(),
                    |i: int|
                        if 0 <= i < v@.len() {
                            v@[i].model()
                        } else {
                            Pattern::Nothing
                        },
                ),
            ),
            InlinedExpression::Joined(v) => Pattern::Joined(
                Seq::new(
                    v@.len(),
                    |i: int|
                        if 0 <= i < v@.len() {
                            v@[i].model()
                        } else {
                            Pattern::Nothing
                        },
                ),
            ),
            InlinedExpression::Optional(b) => Pattern::Optional(Box::new((**b).model())),
            InlinedExpression::Multiple(b) => Pattern::Multiple(Box::new((**b).model())),
            InlinedExpression::ZeroOrMore(b) => Pattern::ZeroOrMore(Box::new((**b).model())),
            InlinedExpression::Nothing => Pattern::Nothing,
        }
    }
}

/// The values of a sequence of expressions.
pub open spec fn models(s: Seq<InlinedExpression>) -> Seq<Pattern> {
    s.map_values(|x: InlinedExpression| x@)
}

/// The value of an alternative or a concatenation is made of the values of
/// its parts.
pub proof fn lemma_models_alternative(v: Vec<InlinedExpression>)
    ensures
        InlinedExpression::Alternative(v)@ == Pattern::Alternative(models(v@)),
        InlinedExpression::Joined(v)@ == Pattern::Joined(models(v@)),
{
    let a = InlinedExpression::Alternative(v);
    let j = InlinedExpression::Joined(v);
    assert(a@->Alternative_0 =~= models(v@));
    assert(j@->Joined_0 =~= models(v@));
}

/// Whether two expressions have the same value.
pub fn same(a: &InlinedExpression, b: &InlinedExpression) -> (r: bool)
    ensures
        r == (a@ == b@),
    decreases a,
{
    match a {
        InlinedExpression::Literal(x) => match b {
            InlinedExpression::Literal(y) => x.eq(y),
            _ => false,
        },
        InlinedExpression::Char(x) => match b {
            InlinedExpression::Char(y) => *x == *y,
            _ => false,
        },
        InlinedExpression::Builtin(x) => match b {
            InlinedExpression::Builtin(y) => *x == *y,
            _ => false,
        },
        InlinedExpression::Alternative(x) => match b {
            InlinedExpression::Alternative(y) => {
                proof {
                    lemma_models_alternative(*x);
                    lemma_models_alternative(*y);
                }
                same_all(x, y)
            },
            _ => false,
        },
        InlinedExpression::Joined(x) => match b {
            InlinedExpression::Joined(y) => {
                proof {
                    lemma_models_alternative(*x);
                    lemma_models_alternative(*y);
                }
                same_all(x, y)
            },
            _ => false,
        },
        InlinedExpression::Optional(x) => match b {
            InlinedExpression::Optional(y) => same(x, y),
            _ => false,
        },
        InlinedExpression::Multiple(x) => match b {
            InlinedExpression::Multiple(y) => same(x, y),
            _ => false,
        },
        InlinedExpression::ZeroOrMore(x) => match b {
            InlinedExpression::ZeroOrMore(y) => same(x, y),
            _ => false,
        },
        InlinedExpression::Nothing => match b {
            InlinedExpression::Nothing => true,
            _ => false,
        },
    }
}

fn same_all(x: &Vec<InlinedExpression>, y: &Vec<InlinedExpression>) -> (r: bool)
    ensures
        r == (models(x@) == models(y@)),
    decreases x,
{
    if x.len() != y.len() {
        assert(models(x@).len() != models(y@).len());
        return false;
    }
    let mut i: usize = 0;
    while i < x.len()
        invariant
            i <= x.len(),
            x.len() == y.len(),
            forall|k: int| 0 <= k < i ==> x@[k]@ == y@[k]@,
        decreases x.len() - i,
    {
        if !same(&x[i], &y[i]) {
            assert(models(x@)[i as int] != models(y@)[i as int]);
            return false;
        }
        i = i + 1;
    }
    assert(models(x@) =~= models(y@));
    true
}


// ---------------------------------------------------------------------------
// Merging alternatives
// ---------------------------------------------------------------------------

/// What becomes of a new alternative when it meets one that is already kept.
pub enum MergeStep {
    /// The kept alternative already covers the new one.
    Absorbed,
    /// The new class covers the kept alternative and takes its place.
    Replaced(Builtin),
    /// Neither covers the other.
    Unrelated,
}

pub open spec fn alt_step(existing: Pattern, new: Pattern) -> MergeStep {
    if new == existing {
        MergeStep::Absorbed
    } else {
        match (new, existing) {
            (Pattern::Builtin(n), Pattern::Builtin(e)) => if e.spec_contains_builtin(n) {
                MergeStep::Absorbed
            } else if n.spec_contains_builtin(e) {
                MergeStep::Replaced(n)
            } else {
                MergeStep::Unrelated
            },
            (Pattern::Builtin(n), Pattern::Char(e)) => if n.spec_contains(e) {
                MergeStep::Replaced(n)
            } else {
                MergeStep::Unrelated
            },
            (Pattern::Char(n), Pattern::Builtin(e)) => if e.spec_contains(n) {
                MergeStep::Absorbed
            } else {
                MergeStep::Unrelated
            },
            _ => MergeStep::Unrelated,
        }
    }
}

/// Adds `new` to the kept alternatives `out`, looking from position `j` on:
/// the first kept alternative that is related to `new` decides.
pub open spec fn alt_insert(out: Seq<Pattern>, new: Pattern, j: int) -> Seq<Pattern>
    decreases out.len() - j,
{
    if j < 0 || j >= out.len() {
        out.push(new)
    } else {
        match alt_step(out[j], new) {
            MergeStep::Absorbed => out,
            MergeStep::Replaced(b) => out.update(j, Pattern::Builtin(b)),
            MergeStep::Unrelated => alt_insert(out, new, j + 1),
        }
    }
}

/// The alternatives that `alt_merge` keeps, in order.
pub open spec fn alt_merge_spec(input: Seq<Pattern>) -> Seq<Pattern>
    decreases input.len(),
{
    if input.len() == 0 {
        seq![]
    } else {
        alt_insert(alt_merge_spec(input.drop_last()), input.last(), 0)
    }
}

fn alt_step_of(existing: &InlinedExpression, new: &InlinedExpression) -> (r: MergeStep)
    ensures
        r == alt_step(existing@, new@),
{
    if same(new, existing) {
        return MergeStep::Absorbed;
    }
    match new {
        InlinedExpression::Builtin(n) => match existing {
            InlinedExpression::Builtin(e) => {
                if e.contains_builtin(*n) {
                    MergeStep::Absorbed
                } else if n.contains_builtin(*e) {
                    MergeStep::Replaced(*n)
                } else {
                    MergeStep::Unrelated
                }
            },
            InlinedExpression::Char(e) => {
                if n.contains(*e) {
                    MergeStep::Replaced(*n)
                } else {
                    MergeStep::Unrelated
                }
            },
            _ => MergeStep::Unrelated,
        },
        InlinedExpression::Char(n) => match existing {
            InlinedExpression::Builtin(e) => {
                if e.contains(*n) {
                    MergeStep::Absorbed
                } else {
                    MergeStep::Unrelated
                }
            },
            _ => MergeStep::Unrelated,
        },
        _ => MergeStep::Unrelated,
    }
}

fn alt_insert_into(output: &mut Vec<InlinedExpression>, new: InlinedExpression)
    ensures
        models(final(output)@) == alt_insert(models(old(output)@), new@, 0),
{
    let mut j: usize = 0;
    while j < output.len()
        invariant
            j <= output.len(),
            output@ == old(output)@,
            alt_insert(models(output@), new@, 0) == alt_insert(models(output@), new@, j as int),
        decreases output.len() - j,
    {
        let step = alt_step_of(&output[j], &new);
        match step {
            MergeStep::Absorbed => {
                return;
            },
            MergeStep::Replaced(b) => {
                let ghost before = models(output@);
                output.set(j, InlinedExpression::Builtin(b));
                assert(models(output@) =~= before.update(j as int, Pattern::Builtin(b)));
                return;
            },
            MergeStep::Unrelated => {
                j = j + 1;
            },
        }
    }
    let ghost before = models(output@);
    output.push(new);
    assert(models(output@) =~= before.push(new@));
}

/// Merges a list of alternatives: an alternative equal to one already kept
/// is dropped, and of two related classes or a class and a character, the
/// wider one is kept in the place of the first.
pub fn alt_merge(input: Vec<InlinedExpression>) -> (output: Vec<InlinedExpression>)
    ensures
        models(output@) == alt_merge_spec(models(input@)),
{
    let ghost ins = models(input@);
    let mut input = input;
    let mut output: Vec<InlinedExpression> = Vec::new();
    let ghost mut done: int = 0;
    assert(ins.take(0) =~= seq![]);
    while input.len() > 0
        invariant
            0 <= done <= ins.len(),
            ins.len() == done + input@.len(),
            models(input@) == ins.skip(done),
            models(output@) == alt_merge_spec(ins.take(done)),
        decreases input.len(),
    {
        let ghost before = input@;
        let new = input.remove(0);
        assert(models(before)[0] == new@);
        assert(ins.skip(done)[0] == ins[done]);
        assert(models(input@) =~= models(before).skip(1));
        assert(ins.skip(done).skip(1) =~= ins.skip(done + 1));
        alt_insert_into(&mut output, new);
        assert(ins.take(done + 1).drop_last() =~= ins.take(done));
        proof {
            done = done + 1;
        }
        assert(models(input@) =~= ins.skip(done));
    }
    assert(ins.take(done) =~= ins);
    output
}


// ---------------------------------------------------------------------------
// Merging the parts of a concatenation
// ---------------------------------------------------------------------------

/// Text that `join_merge` has gathered and not yet emitted.
pub enum Pending {
    Empty,
    Text(Seq<char>),
    One(char),
}

pub open spec fn pending_text(p: Pending) -> Seq<char> {
    match p {
        Pending::Empty => seq![],
        Pending::Text(s) => s,
        Pending::One(c) => seq![c],
    }
}

/// Emits the gathered text, if any: one character as a `Char`, text as a
/// `Literal`.
pub open spec fn flush(out: Seq<Pattern>, p: Pending) -> Seq<Pattern> {
    match p {
        Pending::Empty => out,
        Pending::Text(s) => out.push(Pattern::Literal(s)),
        Pending::One(c) => out.push(Pattern::Char(c)),
    }
}

pub open spec fn join_step(st: (Seq<Pattern>, Pending), item: Pattern) -> (Seq<Pattern>, Pending) {
    match item {
        Pattern::Nothing => st,
        Pattern::Literal(l) => (st.0, Pending::Text(pending_text(st.1) + l)),
        Pattern::Char(c) => (
            st.0,
            match st.1 {
                Pending::Empty => Pending::One(c),
                Pending::Text(s) => Pending::Text(s.push(c)),
                Pending::One(a) => Pending::Text(seq![a, c]),
            },
        ),
        _ => (flush(st.0, st.1).push(item), Pending::Empty),
    }
}

pub open spec fn join_state(input: Seq<Pattern>) -> (Seq<Pattern>, Pending)
    decreases input.len(),
{
    if input.len() == 0 {
        (seq![], Pending::Empty)
    } else {
        join_step(join_state(input.drop_last()), input.last())
    }
}

/// The parts that `join_merge` keeps: `Nothing` is dropped and each run of
/// neighbouring literals and characters becomes one part.
pub open spec fn join_merge_spec(input: Seq<Pattern>) -> Seq<Pattern> {
    flush(join_state(input).0, join_state(input).1)
}

enum Acc {
    Empty,
    Text(String),
    One(char),
}

spec fn acc_view(a: Acc) -> Pending {
    match a {
        Acc::Empty => Pending::Empty,
        Acc::Text(s) => Pending::Text(s@),
        Acc::One(c) => Pending::One(c),
    }
}

fn flush_into(output: &mut Vec<InlinedExpression>, acc: Acc)
    ensures
        models(final(output)@) == flush(models(old(output)@), acc_view(acc)),
{
    let ghost before = models(output@);
    match acc {
        Acc::Empty => {},
        Acc::Text(s) => {
            output.push(InlinedExpression::Literal(s));
        },
        Acc::One(c) => {
            output.push(InlinedExpression::Char(c));
        },
    }
    assert(models(output@) =~= flush(before, acc_view(acc)));
}

/// Merges the parts of a concatenation: drops `Nothing` and fuses each run of
/// neighbouring literals and characters into one literal (a single character
/// stays a `Char`).
pub fn join_merge(input: Vec<InlinedExpression>) -> (output: Vec<InlinedExpression>)
    ensures
        models(output@) == join_merge_spec(models(input@)),
{
    let ghost ins = models(input@);
    let mut input = input;
    let mut output: Vec<InlinedExpression> = Vec::new();
    let mut acc = Acc::Empty;
    let ghost mut done: int = 0;
    assert(ins.take(0) =~= seq![]);
    while input.len() > 0
        invariant
            0 <= done <= ins.len(),
            ins.len() == done + input@.len(),
            models(input@) == ins.skip(done),
            (models(output@), acc_view(acc)) == join_state(ins.take(done)),
        decreases input.len(),
    {
        let ghost before = input@;
        let item = input.remove(0);
        assert(models(before)[0] == item@);
        assert(ins.skip(done)[0] == ins[done]);
        assert(models(input@) =~= models(before).skip(1));
        assert(ins.skip(done).skip(1) =~= ins.skip(done + 1));
        assert(ins.take(done + 1).drop_last() =~= ins.take(done));
        let ghost st = (models(output@), acc_view(acc));
        match item {
            InlinedExpression::Nothing => {},
            InlinedExpression::Literal(lit) => {
                acc = match acc {
                    Acc::Empty => Acc::Text(lit),
                    Acc::Text(s) => {
                        let mut s = s;
                        push_str(&mut s, lit.as_str());
                        Acc::Text(s)
                    },
                    Acc::One(a) => {
                        let mut s = char_string(a);
                        push_str(&mut s, lit.as_str());
                        Acc::Text(s)
                    },
                };
                assert(acc_view(acc) == join_step(st, Pattern::Literal(lit@)).1);
            },
            InlinedExpression::Char(c) => {
                acc = match acc {
                    Acc::Empty => Acc::One(c),
                    Acc::Text(s) => {
                        let mut s = s;
                        push_char(&mut s, c);
                        Acc::Text(s)
                    },
                    Acc::One(a) => {
                        let mut s = char_string(a);
                        push_char(&mut s, c);
                        assert(s@ =~= seq![a, c]);
                        Acc::Text(s)
                    },
                };
                assert(acc_view(acc) == join_step(st, Pattern::Char(c)).1);
            },
            other => {
                flush_into(&mut output, acc);
                acc = Acc::Empty;
                let ghost mid = models(output@);
                output.push(other);
                assert(models(output@) =~= mid.push(other@));
            },
        }
        proof {
            done = done + 1;
        }
    }
    assert(ins.take(done) =~= ins);
    flush_into(&mut output, acc);
    output
}


// ---------------------------------------------------------------------------
// Simplification
// ---------------------------------------------------------------------------

/// A literal as simplified: empty is `Nothing`, a single ASCII character (a
/// string of one byte) is a `Char`.
pub open spec fn literal_pattern(l: Seq<char>) -> Pattern {
    if l.len() == 0 {
        Pattern::Nothing
    } else if l.len() == 1 && (l[0] as u32) < 0x80 {
        Pattern::Char(l[0])
    } else {
        Pattern::Literal(l)
    }
}

/// `?` around an already simplified pattern.
pub open spec fn wrap_optional(inner: Pattern) -> Pattern {
    match inner {
        Pattern::Multiple(x) => Pattern::ZeroOrMore(x),
        Pattern::Nothing | Pattern::Optional(_) | Pattern::ZeroOrMore(_) => inner,
        _ => Pattern::Optional(Box::new(inner)),
    }
}

/// `+` around an already simplified pattern.
pub open spec fn wrap_multiple(inner: Pattern) -> Pattern {
    match inner {
        Pattern::Optional(x) => Pattern::ZeroOrMore(x),
        Pattern::Nothing | Pattern::Multiple(_) | Pattern::ZeroOrMore(_) => inner,
        _ => Pattern::Multiple(Box::new(inner)),
    }
}

/// `*` around an already simplified pattern.
pub open spec fn wrap_zero_or_more(inner: Pattern) -> Pattern {
    match inner {
        Pattern::Optional(x) | Pattern::Multiple(x) => Pattern::ZeroOrMore(x),
        Pattern::Nothing | Pattern::ZeroOrMore(_) => inner,
        _ => Pattern::ZeroOrMore(Box::new(inner)),
    }
}

/// The alternatives, with those that are alternatives themselves opened up.
pub open spec fn splice_alternatives(s: Seq<Pattern>) -> Seq<Pattern>
    decreases s.len(),
{
    if s.len() == 0 {
        seq![]
    } else {
        splice_alternatives(s.drop_last()) + match s.last() {
            Pattern::Alternative(w) => w,
            x => seq![x],
        }
    }
}

/// The parts, with those that are concatenations themselves opened up.
pub open spec fn splice_joins(s: Seq<Pattern>) -> Seq<Pattern>
    decreases s.len(),
{
    if s.len() == 0 {
        seq![]
    } else {
        splice_joins(s.drop_last()) + match s.last() {
            Pattern::Joined(w) => w,
            x => seq![x],
        }
    }
}

/// The alternatives other than `Nothing`.
pub open spec fn without_nothing(s: Seq<Pattern>) -> Seq<Pattern>
    decreases s.len(),
{
    if s.len() == 0 {
        seq![]
    } else if s.last() == Pattern::Nothing {
        without_nothing(s.drop_last())
    } else {
        without_nothing(s.drop_last()).push(s.last())
    }
}

/// The merged alternatives as one pattern: a single one stands alone, and
/// an alternative with `Nothing` among others becomes optional.
pub open spec fn finish_alternative(clean: Seq<Pattern>) -> Pattern {
    if clean.len() == 1 {
        clean[0]
    } else if clean.contains(Pattern::Nothing) {
        let rest = without_nothing(clean);
        wrap_optional(
            if rest.len() == 1 {
                rest[0]
            } else {
                Pattern::Alternative(rest)
            },
        )
    } else {
        Pattern::Alternative(clean)
    }
}

/// The merged parts as one pattern: none is `Nothing`, a single one stands
/// alone.
pub open spec fn finish_join(clean: Seq<Pattern>) -> Pattern {
    if clean.len() == 0 {
        Pattern::Nothing
    } else if clean.len() == 1 {
        clean[0]
    } else {
        Pattern::Joined(clean)
    }
}

/// The simplified form of a pattern.
pub open spec fn optimize_spec(p: Pattern) -> Pattern
    decreases p,
{
    match p {
        Pattern::Literal(l) => literal_pattern(l),
        Pattern::Optional(inner) => wrap_optional(optimize_spec(*inner)),
        Pattern::Multiple(inner) => wrap_multiple(optimize_spec(*inner)),
        Pattern::ZeroOrMore(inner) => wrap_zero_or_more(optimize_spec(*inner)),
        Pattern::Alternative(v) => finish_alternative(
            alt_merge_spec(splice_alternatives(optimize_each(v))),
        ),
        Pattern::Joined(v) => finish_join(join_merge_spec(splice_joins(optimize_each(v)))),
        _ => p,
    }
}

/// Each pattern simplified.
pub open spec fn optimize_each(v: Seq<Pattern>) -> Seq<Pattern>
    decreases v,
{
    Seq::new(
        v.len(),
        |i: int|
            if 0 <= i < v.len() {
                optimize_spec(v[i])
            } else {
                Pattern::Nothing
            },
    )
}

fn optional_of(inner: InlinedExpression) -> (r: InlinedExpression)
    ensures
        r@ == wrap_optional(inner@),
{
    match inner {
        InlinedExpression::Multiple(x) => InlinedExpression::ZeroOrMore(x),
        InlinedExpression::Nothing => InlinedExpression::Nothing,
        InlinedExpression::Optional(x) => InlinedExpression::Optional(x),
        InlinedExpression::ZeroOrMore(x) => InlinedExpression::ZeroOrMore(x),
        other => InlinedExpression::Optional(Box::new(other)),
    }
}

fn multiple_of(inner: InlinedExpression) -> (r: InlinedExpression)
    ensures
        r@ == wrap_multiple(inner@),
{
    match inner {
        InlinedExpression::Optional(x) => InlinedExpression::ZeroOrMore(x),
        InlinedExpression::Nothing => InlinedExpression::Nothing,
        InlinedExpression::Multiple(x) => InlinedExpression::Multiple(x),
        InlinedExpression::ZeroOrMore(x) => InlinedExpression::ZeroOrMore(x),
        other => InlinedExpression::Multiple(Box::new(other)),
    }
}

fn zero_or_more_of(inner: InlinedExpression) -> (r: InlinedExpression)
    ensures
        r@ == wrap_zero_or_more(inner@),
{
    match inner {
        InlinedExpression::Optional(x) => InlinedExpression::ZeroOrMore(x),
        InlinedExpression::Multiple(x) => InlinedExpression::ZeroOrMore(x),
        InlinedExpression::Nothing => InlinedExpression::Nothing,
        InlinedExpression::ZeroOrMore(x) => InlinedExpression::ZeroOrMore(x),
        other => InlinedExpression::ZeroOrMore(Box::new(other)),
    }
}

fn literal_of(literal: String) -> (r: InlinedExpression)
    ensures
        r@ == literal_pattern(literal@),
{
    let n = literal.as_str().unicode_len();
    if n == 0 {
        InlinedExpression::Nothing
    } else if n == 1 {
        let c = literal.as_str().get_char(0);
        if c <= '\x7f' {
            InlinedExpression::Char(c)
        } else {
            InlinedExpression::Literal(literal)
        }
    } else {
        InlinedExpression::Literal(literal)
    }
}

fn remove_nothing(clean: Vec<InlinedExpression>) -> (rest: Vec<InlinedExpression>)
    ensures
        models(rest@) == without_nothing(models(clean@)),
{
    let ghost ins = models(clean@);
    let mut clean = clean;
    let mut rest: Vec<InlinedExpression> = Vec::new();
    let ghost mut done: int = 0;
    assert(ins.take(0) =~= seq![]);
    while clean.len() > 0
        invariant
            0 <= done <= ins.len(),
            ins.len() == done + clean@.len(),
            models(clean@) == ins.skip(done),
            models(rest@) == without_nothing(ins.take(done)),
        decreases clean.len(),
    {
        let ghost before = clean@;
        let item = clean.remove(0);
        assert(models(before)[0] == item@);
        assert(ins.skip(done)[0] == ins[done]);
        assert(models(clean@) =~= models(before).skip(1));
        assert(ins.skip(done).skip(1) =~= ins.skip(done + 1));
        assert(ins.take(done + 1).drop_last() =~= ins.take(done));
        match item {
            InlinedExpression::Nothing => {},
            other => {
                let ghost mid = models(rest@);
                rest.push(other);
                assert(models(rest@) =~= mid.push(other@));
            },
        }
        proof {
            done = done + 1;
        }
    }
    assert(ins.take(done) =~= ins);
    rest
}

fn has_nothing(v: &Vec<InlinedExpression>) -> (r: bool)
    ensures
        r == models(v@).contains(Pattern::Nothing),
{
    let mut i: usize = 0;
    while i < v.len()
        invariant
            i <= v.len(),
            forall|k: int| 0 <= k < i ==> v@[k]@ != Pattern::Nothing,
        decreases v.len() - i,
    {
        if let InlinedExpression::Nothing = &v[i] {
            assert(models(v@)[i as int] == Pattern::Nothing);
            return true;
        }
        i = i + 1;
    }
    assert(!models(v@).contains(Pattern::Nothing));
    false
}

fn finish_alternative_of(clean: Vec<InlinedExpression>) -> (r: InlinedExpression)
    ensures
        r@ == finish_alternative(models(clean@)),
{
    let mut clean = clean;
    if clean.len() == 1 {
        return clean.remove(0);
    }
    if has_nothing(&clean) {
        let mut rest = remove_nothing(clean);
        let inner = if rest.len() == 1 {
            rest.remove(0)
        } else {
            proof {
                lemma_models_alternative(rest);
            }
            InlinedExpression::Alternative(rest)
        };
        optional_of(inner)
    } else {
        proof {
            lemma_models_alternative(clean);
        }
        InlinedExpression::Alternative(clean)
    }
}

fn finish_join_of(clean: Vec<InlinedExpression>) -> (r: InlinedExpression)
    ensures
        r@ == finish_join(models(clean@)),
{
    let mut clean = clean;
    if clean.len() == 0 {
        InlinedExpression::Nothing
    } else if clean.len() == 1 {
        clean.remove(0)
    } else {
        proof {
            lemma_models_alternative(clean);
        }
        InlinedExpression::Joined(clean)
    }
}

impl InlinedExpression {
    /// Simplifies the expression: redundant repetition operators collapse,
    /// nested alternatives and concatenations are opened up and merged, and
    /// `Nothing` disappears where it is neutral.
    #[verifier::loop_isolation(false)]
    pub fn optimize(self) -> (r: Self)
        ensures
            r@ == optimize_spec(self@),
        decreases self,
    {
        let ghost me = self;
        match self {
            InlinedExpression::Literal(literal) => literal_of(literal),
            InlinedExpression::Optional(inner) => optional_of((*inner).optimize()),
            InlinedExpression::Multiple(inner) => multiple_of((*inner).optimize()),
            InlinedExpression::ZeroOrMore(inner) => zero_or_more_of((*inner).optimize()),
            InlinedExpression::Alternative(alt) => {
                proof {
                    lemma_models_alternative(alt);
                }
                let ghost kids = alt@;
                let ghost opt = optimize_each(models(kids));
                let mut alt = alt;
                let mut flat: Vec<InlinedExpression> = Vec::new();
                let ghost mut done: int = 0;
                assert(opt.take(0) =~= seq![]);
                while alt.len() > 0
                    invariant
                        0 <= done <= kids.len(),
                        kids.len() == done + alt@.len(),
                        alt@ == kids.skip(done),
                        opt == optimize_each(models(kids)),
                        me == InlinedExpression::Alternative(me->Alternative_0),
                        kids == me->Alternative_0@,
                        models(flat@) == splice_alternatives(opt.take(done)),
                    decreases alt.len(),
                {
                    let ghost before = alt@;
                    let a = alt.remove(0);
                    assert(a == kids[done]);
                    assert(alt@ =~= kids.skip(done + 1));
                    assert(decreases_to!(me => a));
                    let o = a.optimize();
                    assert(o@ == opt[done]);
                    assert(opt.take(done + 1).drop_last() =~= opt.take(done));
                    let ghost mid = models(flat@);
                    match o {
                        InlinedExpression::Alternative(inner) => {
                            proof {
                                lemma_models_alternative(inner);
                            }
                            let mut inner = inner;
                            flat.append(&mut inner);
                            assert(models(flat@) =~= splice_alternatives(opt.take(done + 1)));
                        },
                        other => {
                            flat.push(other);
                            assert(models(flat@) =~= splice_alternatives(opt.take(done + 1)));
                        },
                    }
                    proof {
                        done = done + 1;
                    }
                }
                assert(opt.take(done) =~= opt);
                let clean = alt_merge(flat);
                finish_alternative_of(clean)
            },
            InlinedExpression::Joined(join) => {
                proof {
                    lemma_models_alternative(join);
                }
                let ghost kids = join@;
                let ghost opt = optimize_each(models(kids));
                let mut join = join;
                let mut flat: Vec<InlinedExpression> = Vec::new();
                let ghost mut done: int = 0;
                assert(opt.take(0) =~= seq![]);
                while join.len() > 0
                    invariant
                        0 <= done <= kids.len(),
                        kids.len() == done + join@.len(),
                        join@ == kids.skip(done),
                        opt == optimize_each(models(kids)),
                        me == InlinedExpression::Joined(me->Joined_0),
                        kids == me->Joined_0@,
                        models(flat@) == splice_joins(opt.take(done)),
                    decreases join.len(),
                {
                    let j = join.remove(0);
                    assert(j == kids[done]);
                    assert(join@ =~= kids.skip(done + 1));
                    assert(decreases_to!(me => j));
                    let o = j.optimize();
                    assert(o@ == opt[done]);
                    assert(opt.take(done + 1).drop_last() =~= opt.take(done));
                    match o {
                        InlinedExpression::Joined(inner) => {
                            proof {
                                lemma_models_alternative(inner);
                            }
                            let mut inner = inner;
                            flat.append(&mut inner);
                            assert(models(flat@) =~= splice_joins(opt.take(done + 1)));
                        },
                        other => {
                            flat.push(other);
                            assert(models(flat@) =~= splice_joins(opt.take(done + 1)));
                        },
                    }
                    proof {
                        done = done + 1;
                    }
                }
                assert(opt.take(done) =~= opt);
                let clean = join_merge(flat);
                finish_join_of(clean)
            },
            other => other,
        }
    }
}


// ---------------------------------------------------------------------------
// Inlining definitions
// ---------------------------------------------------------------------------

/// The characters of a string as alternatives.
pub open spec fn char_alternatives(s: Seq<char>) -> Seq<Pattern>
    decreases s.len(),
{
    if s.len() == 0 {
        seq![]
    } else {
        char_alternatives(s.drop_last()).push(Pattern::Char(s.last()))
    }
}

/// The index of the first definition named `name`, if there is one.
pub open spec fn find_def(defs: Seq<Def>, name: Seq<char>) -> Option<int>
    decreases defs.len(),
{
    if defs.len() == 0 {
        None
    } else {
        match find_def(defs.drop_last(), name) {
            Some(i) => Some(i),
            None => if defs.last().name == name {
                Some(defs.len() - 1)
            } else {
                None
            },
        }
    }
}

/// The name of the first definition whose name an earlier one already has.
pub open spec fn first_duplicate(defs: Seq<Def>) -> Option<Seq<char>>
    decreases defs.len(),
{
    if defs.len() == 0 {
        None
    } else {
        match first_duplicate(defs.drop_last()) {
            Some(n) => Some(n),
            None => if find_def(defs.drop_last(), defs.last().name) is Some {
                Some(defs.last().name)
            } else {
                None
            },
        }
    }
}

pub open spec fn loop_message(rec: Seq<Seq<char>>) -> Seq<char> {
    "recursive loop detected: "@ + join_with(rec, ", "@) + " all depend on each other"@
}

pub open spec fn undefined_message(name: Seq<char>) -> Seq<char> {
    name + " is not defined"@
}

/// Inlines `e`: a name is replaced by the expansion of its definition.
/// `rec` holds, in order, every name replaced so far; meeting one of them
/// again is an error, and so is a name that no definition has. `fuel`
/// bounds the depth of nested names.
pub open spec fn expand_spec(e: Expr, defs: Seq<Def>, rec: Seq<Seq<char>>, fuel: nat) -> Result<
    (Pattern, Seq<Seq<char>>),
    Seq<char>,
>
    decreases fuel, e, 0nat,
{
    match e {
        Expr::Literal(s) => Ok((Pattern::Literal(s), rec)),
        Expr::Oneof(s) => Ok((Pattern::Alternative(char_alternatives(s)), rec)),
        Expr::Builtin(b) => Ok((Pattern::Builtin(b), rec)),
        Expr::Nothing => Ok((Pattern::Nothing, rec)),
        Expr::Ident(name) => {
            if rec.contains(name) {
                Err(loop_message(rec))
            } else {
                match find_def(defs, name) {
                    None => Err(undefined_message(name)),
                    Some(i) => if fuel == 0 {
                        Err(loop_message(rec))
                    } else {
                        expand_spec(defs[i].value, defs, rec.push(name), (fuel - 1) as nat)
                    },
                }
            }
        },
        Expr::Optional(o) => match expand_spec(*o, defs, rec, fuel) {
            Ok((p, r)) => Ok((Pattern::Optional(Box::new(p)), r)),
            Err(m) => Err(m),
        },
        Expr::Multiple(o) => match expand_spec(*o, defs, rec, fuel) {
            Ok((p, r)) => Ok((Pattern::Multiple(Box::new(p)), r)),
            Err(m) => Err(m),
        },
        Expr::Alternative(v) => match expand_prefix(v, v.len() as int, defs, rec, fuel) {
            Ok((ps, r)) => Ok((Pattern::Alternative(ps), r)),
            Err(m) => Err(m),
        },
        Expr::Joined(v) => match expand_prefix(v, v.len() as int, defs, rec, fuel) {
            Ok((ps, r)) => Ok((Pattern::Joined(ps), r)),
            Err(m) => Err(m),
        },
    }
}

/// Inlines the first `n` expressions of `v` one after the other, each
/// starting from the names that the one before it replaced.
pub open spec fn expand_prefix(v: Seq<Expr>, n: int, defs: Seq<Def>, rec: Seq<Seq<char>>, fuel: nat) -> Result<
    (Seq<Pattern>, Seq<Seq<char>>),
    Seq<char>,
>
    decreases fuel, v, n + 1,
{
    if n <= 0 || n > v.len() {
        Ok((seq![], rec))
    } else {
        match expand_prefix(v, n - 1, defs, rec, fuel) {
            Ok((ps, r)) => match expand_spec(v[n - 1], defs, r, fuel) {
                Ok((p, r2)) => Ok((ps.push(p), r2)),
                Err(m) => Err(m),
            },
            Err(m) => Err(m),
        }
    }
}

/// What `process` gives for a list of definitions.
pub open spec fn process_spec(defs: Seq<Def>) -> Result<Pattern, Seq<char>> {
    match first_duplicate(defs) {
        Some(n) => Err("duplicate definition: "@ + n),
        None => match find_def(defs, "EXPORT"@) {
            None => Err("EXPORT is not defined"@),
            Some(i) => match expand_spec(defs[i].value, defs, seq![], defs.len()) {
                Ok((p, _)) => Ok(p),
                Err(m) => Err(m),
            },
        },
    }
}

/// The value of an outcome.
pub open spec fn outcome(r: Result<InlinedExpression, String>) -> Result<Pattern, Seq<char>> {
    match r {
        Ok(e) => Ok(e@),
        Err(m) => Err(m@),
    }
}

/// The names, as characters.
pub open spec fn name_seqs<'a>(rec: Seq<&'a str>) -> Seq<Seq<char>> {
    rec.map_values(|n: &'a str| n@)
}

fn find_definition<'a>(defs: &Vec<Definition<'a>>, name: &str) -> (r: Option<usize>)
    ensures
        match find_def(def_models(defs@), name@) {
            Some(i) => r == Some(i as usize),
            None => r is None,
        },
{
    let ghost ds = def_models(defs@);
    let mut i: usize = 0;
    while i < defs.len()
        invariant
            i <= defs.len(),
            ds == def_models(defs@),
            find_def(ds.take(i as int), name@) is None,
        decreases defs.len() - i,
    {
        assert(ds.take(i + 1).drop_last() =~= ds.take(i as int));
        if str_eq(defs[i].name, name) {
            assert(find_def(ds.take(i + 1), name@) == Some(i as int));
            proof {
                lemma_find_def_prefix(ds, i + 1, name@);
            }
            return Some(i);
        }
        i = i + 1;
    }
    assert(ds.take(i as int) =~= ds);
    None
}

/// A name found among the first `n` definitions is found at the same place
/// among all of them.
pub proof fn lemma_find_def_prefix(defs: Seq<Def>, n: int, name: Seq<char>)
    requires
        0 <= n <= defs.len(),
        find_def(defs.take(n), name) is Some,
    ensures
        find_def(defs, name) == find_def(defs.take(n), name),
    decreases defs.len() - n,
{
    if n < defs.len() {
        assert(defs.take(n + 1).drop_last() =~= defs.take(n));
        lemma_find_def_prefix(defs, n + 1, name);
    } else {
        assert(defs.take(n) =~= defs);
    }
}

/// A found definition has the name looked for.
proof fn lemma_find_def_found(defs: Seq<Def>, name: Seq<char>)
    ensures
        find_def(defs, name) matches Some(i) ==> 0 <= i < defs.len() && defs[i].name == name,
    decreases defs.len(),
{
    if defs.len() > 0 {
        lemma_find_def_found(defs.drop_last(), name);
    }
}

fn join_names(rec: &Vec<&str>, sep: &str) -> (r: String)
    ensures
        r@ == join_with(name_seqs(rec@), sep@),
{
    let ghost names = name_seqs(rec@);
    let mut r = String::new();
    let mut i: usize = 0;
    while i < rec.len()
        invariant
            i <= rec.len(),
            names == name_seqs(rec@),
            r@ == join_with(names.take(i as int), sep@),
        decreases rec.len() - i,
    {
        assert(names.take(i + 1).drop_last() =~= names.take(i as int));
        if i > 0 {
            push_str(&mut r, sep);
        }
        push_str(&mut r, rec[i]);
        i = i + 1;
        assert(r@ =~= join_with(names.take(i as int), sep@));
    }
    assert(names.take(i as int) =~= names);
    r
}

fn loop_error(rec: &Vec<&str>) -> (r: String)
    ensures
        r@ == loop_message(name_seqs(rec@)),
{
    let mut m = String::from_str("recursive loop detected: ");
    let names = join_names(rec, ", ");
    push_str(&mut m, names.as_str());
    push_str(&mut m, " all depend on each other");
    m
}

fn oneof_alternatives(s: &String) -> (r: Vec<InlinedExpression>)
    ensures
        models(r@) == char_alternatives(s@),
{
    let cs = chars_of(s.as_str());
    let mut out: Vec<InlinedExpression> = Vec::new();
    let mut i: usize = 0;
    assert(models(out@) =~= char_alternatives(s@.take(0)));
    while i < cs.len()
        invariant
            i <= cs.len(),
            cs@ == s@,
            models(out@) == char_alternatives(s@.take(i as int)),
        decreases cs.len() - i,
    {
        let ghost before = models(out@);
        let c = char_at(&cs, i);
        out.push(InlinedExpression::Char(c));
        assert(models(out@) =~= before.push(Pattern::Char(c)));
        assert(s@.take(i + 1).drop_last() =~= s@.take(i as int));
        i = i + 1;
        assert(models(out@) =~= char_alternatives(s@.take(i as int)));
    }
    assert(s@.take(i as int) =~= s@);
    out
}

/// The outcome of an expansion, over values: the pattern and the names
/// replaced so far, or the error message.
pub open spec fn expansion<'a>(r: Result<InlinedExpression, String>, rec: Seq<&'a str>) -> Result<
    (Pattern, Seq<Seq<char>>),
    Seq<char>,
> {
    match r {
        Ok(e) => Ok((e@, name_seqs(rec))),
        Err(m) => Err(m@),
    }
}

#[verifier::loop_isolation(false)]
pub(crate) fn expand<'a>(
    expr: &Expression<'a>,
    defs: &Vec<Definition<'a>>,
    rec: &mut Vec<&'a str>,
    fuel: usize,
) -> (r: Result<InlinedExpression, String>)
    ensures
        match expand_spec(expr@, def_models(defs@), name_seqs(old(rec)@), fuel as nat) {
            Ok((p, names)) => expansion(r, final(rec)@) == Ok::<_, Seq<char>>((p, names)),
            Err(m) => r matches Err(msg) && msg@ == m,
        },
    decreases fuel, expr, 0nat,
{
    let ghost ds = def_models(defs@);
    match expr {
        Expression::Literal(s) => {
            let r = InlinedExpression::Literal(s.clone());
            assert(r@ == Pattern::Literal(s@));
            Ok(r)
        },
        Expression::Oneof(s) => {
            let alts = oneof_alternatives(s);
            proof {
                lemma_models_alternative(alts);
            }
            let r = InlinedExpression::Alternative(alts);
            assert(r@ == Pattern::Alternative(char_alternatives(s@)));
            Ok(r)
        },
        Expression::Builtin(b) => {
            let r = InlinedExpression::Builtin(*b);
            assert(r@ == Pattern::Builtin(*b));
            Ok(r)
        },
        Expression::Nothing => {
            let r = InlinedExpression::Nothing;
            assert(r@ == Pattern::Nothing);
            Ok(r)
        },
        Expression::Ident(name) => {
            let ghost names = name_seqs(rec@);
            let mut k: usize = 0;
            while k < rec.len()
                invariant
                    k <= rec.len(),
                    names == name_seqs(rec@),
                    forall|j: int| 0 <= j < k ==> names[j] != name@,
                decreases rec.len() - k,
            {
                if str_eq(rec[k], name) {
                    assert(names[k as int] == name@);
                    return Err(loop_error(rec));
                }
                k = k + 1;
            }
            assert(!names.contains(name@));
            match find_definition(defs, name) {
                None => {
                    let mut m = String::from_str(name);
                    push_str(&mut m, " is not defined");
                    Err(m)
                },
                Some(i) => {
                    proof {
                        lemma_find_def_found(ds, name@);
                    }
                    if fuel == 0 {
                        return Err(loop_error(rec));
                    }
                    rec.push(*name);
                    assert(name_seqs(rec@) =~= names.push(name@));
                    assert(decreases_to!(defs@ => defs@[i as int]));
                    expand(&defs[i].value, defs, rec, fuel - 1)
                },
            }
        },
        Expression::Optional(o) => match expand(o, defs, rec, fuel) {
            Ok(x) => Ok(InlinedExpression::Optional(Box::new(x))),
            Err(m) => Err(m),
        },
        Expression::Multiple(o) => match expand(o, defs, rec, fuel) {
            Ok(x) => Ok(InlinedExpression::Multiple(Box::new(x))),
            Err(m) => Err(m),
        },
        Expression::Alternative(v) => {
            proof {
                lemma_expr_models(*v);
            }
            match expand_all(v, defs, rec, fuel) {
                Ok(items) => {
                    proof {
                        lemma_models_alternative(items);
                    }
                    Ok(InlinedExpression::Alternative(items))
                },
                Err(m) => Err(m),
            }
        },
        Expression::Joined(v) => {
            proof {
                lemma_expr_models(*v);
            }
            match expand_all(v, defs, rec, fuel) {
                Ok(items) => {
                    proof {
                        lemma_models_alternative(items);
                    }
                    Ok(InlinedExpression::Joined(items))
                },
                Err(m) => Err(m),
            }
        },
    }
}

#[verifier::loop_isolation(false)]
fn expand_all<'a>(
    v: &Vec<Expression<'a>>,
    defs: &Vec<Definition<'a>>,
    rec: &mut Vec<&'a str>,
    fuel: usize,
) -> (r: Result<Vec<InlinedExpression>, String>)
    ensures
        match expand_prefix(expr_models(v@), v@.len() as int, def_models(defs@), name_seqs(old(rec)@), fuel as nat) {
            Ok((ps, names)) => r matches Ok(items) && models(items@) == ps && name_seqs(final(rec)@) == names,
            Err(m) => r matches Err(msg) && msg@ == m,
        },
    decreases fuel, v, v@.len() + 1,
{
    let ghost es = expr_models(v@);
    let ghost ds = def_models(defs@);
    let ghost rec0 = name_seqs(rec@);
    let mut out: Vec<InlinedExpression> = Vec::new();
    let mut i: usize = 0;
    assert(models(out@) =~= seq![]);
    while i < v.len()
        invariant
            i <= v.len(),
            es == expr_models(v@),
            expand_prefix(es, i as int, ds, rec0, fuel as nat) == Ok::<_, Seq<char>>((models(out@), name_seqs(rec@))),
        decreases v.len() - i,
    {
        assert(decreases_to!(v => v@[i as int]));
        match expand(&v[i], defs, rec, fuel) {
            Ok(x) => {
                let ghost mid = models(out@);
                out.push(x);
                assert(models(out@) =~= mid.push(x@));
            },
            Err(m) => {
                proof {
                    lemma_expand_prefix_err(es, i + 1, v@.len() as int, ds, rec0, fuel as nat);
                }
                return Err(m);
            },
        }
        i = i + 1;
    }
    Ok(out)
}

/// Inlines the definition named `EXPORT`: every name in it is replaced by
/// the expansion of its definition.
pub fn process(source: Vec<Definition<'_>>) -> (r: Result<InlinedExpression, String>)
    ensures
        outcome(r) == process_spec(def_models(source@)),
{
    let ghost ds = def_models(source@);
    let mut i: usize = 0;
    while i < source.len()
        invariant
            i <= source.len(),
            ds == def_models(source@),
            first_duplicate(ds.take(i as int)) is None,
        decreases source.len() - i,
    {
        let ghost pre = ds.take(i as int);
        assert(ds.take(i + 1).drop_last() =~= pre);
        let mut j: usize = 0;
        while j < i
            invariant
                j <= i < source.len(),
                ds == def_models(source@),
                pre == ds.take(i as int),
                first_duplicate(pre) is None,
                find_def(pre.take(j as int), ds[i as int].name) is None,
            decreases i - j,
        {
            assert(pre.take(j + 1).drop_last() =~= pre.take(j as int));
            if str_eq(source[j].name, source[i].name) {
                assert(find_def(pre.take(j + 1), ds[i as int].name) is Some);
                proof {
                    lemma_find_def_prefix(pre, j + 1, ds[i as int].name);
                    let t = ds.take(i + 1);
                    assert(t.drop_last() =~= pre);
                    assert(t.last() == ds[i as int]);
                    assert(find_def(t.drop_last(), t.last().name) is Some);
                    assert(first_duplicate(t) == Some(t.last().name));
                    lemma_first_duplicate_prefix(ds, i + 1);
                }
                let mut m = String::from_str("duplicate definition: ");
                push_str(&mut m, source[i].name);
                return Err(m);
            }
            j = j + 1;
        }
        assert(pre.take(j as int) =~= pre);
        i = i + 1;
    }
    assert(ds.take(i as int) =~= ds);
    let export = "EXPORT";
    match find_definition(&source, export) {
        None => Err(String::from_str("EXPORT is not defined")),
        Some(k) => {
            proof {
                lemma_find_def_found(ds, "EXPORT"@);
            }
            let mut rec: Vec<&str> = Vec::new();
            assert(name_seqs(rec@) =~= seq![]);
            match expand(&source[k].value, &source, &mut rec, source.len()) {
                Ok(x) => Ok(x),
                Err(m) => Err(m),
            }
        },
    }
}

proof fn lemma_expand_prefix_err(
    v: Seq<Expr>,
    n: int,
    m: int,
    defs: Seq<Def>,
    rec: Seq<Seq<char>>,
    fuel: nat,
)
    requires
        0 < n <= m <= v.len(),
        expand_prefix(v, n, defs, rec, fuel) is Err,
    ensures
        expand_prefix(v, m, defs, rec, fuel) == expand_prefix(v, n, defs, rec, fuel),
    decreases m - n,
{
    if n < m {
        lemma_expand_prefix_err(v, n, m - 1, defs, rec, fuel);
    }
}

proof fn lemma_first_duplicate_prefix(defs: Seq<Def>, n: int)
    requires
        0 <= n <= defs.len(),
        first_duplicate(defs.take(n)) is Some,
    ensures
        first_duplicate(defs) == first_duplicate(defs.take(n)),
    decreases defs.len() - n,
{
    if n < defs.len() {
        assert(defs.take(n + 1).drop_last() =~= defs.take(n));
        lemma_first_duplicate_prefix(defs, n + 1);
    } else {
        assert(defs.take(n) =~= defs);
    }
}


// ---------------------------------------------------------------------------
// The depth bound of the expansion is never reached
// ---------------------------------------------------------------------------

/// How many definitions have a name that is not among `rec`.
pub open spec fn unexpanded(defs: Seq<Def>, rec: Seq<Seq<char>>) -> nat
    decreases defs.len(),
{
    if defs.len() == 0 {
        0
    } else {
        unexpanded(defs.drop_last(), rec) + if rec.contains(defs.last().name) {
            0nat
        } else {
            1nat
        }
    }
}

proof fn lemma_unexpanded_monotone(defs: Seq<Def>, rec: Seq<Seq<char>>, rec2: Seq<Seq<char>>)
    requires
        forall|x: Seq<char>| rec.contains(x) ==> rec2.contains(x),
    ensures
        unexpanded(defs, rec2) <= unexpanded(defs, rec),
    decreases defs.len(),
{
    if defs.len() > 0 {
        lemma_unexpanded_monotone(defs.drop_last(), rec, rec2);
    }
}

proof fn lemma_unexpanded_push(defs: Seq<Def>, rec: Seq<Seq<char>>, i: int)
    requires
        0 <= i < defs.len(),
        !rec.contains(defs[i].name),
    ensures
        unexpanded(defs, rec.push(defs[i].name)) < unexpanded(defs, rec),
    decreases defs.len(),
{
    let name = defs[i].name;
    assert(forall|x: Seq<char>| rec.contains(x) ==> rec.push(name).contains(x)) by {
        assert forall|x: Seq<char>| rec.contains(x) implies rec.push(name).contains(x) by {
            let k = choose|k: int| 0 <= k < rec.len() && rec[k] == x;
            assert(rec.push(name)[k] == x);
        }
    }
    assert(rec.push(name).contains(name)) by {
        assert(rec.push(name)[rec.len() as int] == name);
    }
    if i == defs.len() - 1 {
        lemma_unexpanded_monotone(defs.drop_last(), rec, rec.push(name));
    } else {
        assert(defs.drop_last()[i] == defs[i]);
        lemma_unexpanded_push(defs.drop_last(), rec, i);
    }
}

proof fn lemma_unexpanded_zero(defs: Seq<Def>, rec: Seq<Seq<char>>, i: int)
    requires
        0 <= i < defs.len(),
        unexpanded(defs, rec) == 0,
    ensures
        rec.contains(defs[i].name),
    decreases defs.len(),
{
    if i < defs.len() - 1 {
        assert(defs.drop_last()[i] == defs[i]);
        lemma_unexpanded_zero(defs.drop_last(), rec, i);
    }
}

/// The names replaced before an expansion stay among those after it.
proof fn lemma_expand_extends(e: Expr, defs: Seq<Def>, rec: Seq<Seq<char>>, fuel: nat)
    ensures
        expand_spec(e, defs, rec, fuel) matches Ok((_, r)) ==> forall|x: Seq<char>|
            rec.contains(x) ==> r.contains(x),
    decreases fuel, e, 0nat,
{
    match e {
        Expr::Ident(name) => {
            if !rec.contains(name) {
                match find_def(defs, name) {
                    Some(i) => if fuel > 0 {
                        let r1 = rec.push(name);
                        lemma_expand_extends(defs[i].value, defs, r1, (fuel - 1) as nat);
                        assert forall|x: Seq<char>| rec.contains(x) implies r1.contains(x) by {
                            let k = choose|k: int| 0 <= k < rec.len() && rec[k] == x;
                            assert(r1[k] == x);
                        }
                    },
                    None => {},
                }
            }
        },
        Expr::Optional(o) => {
            lemma_expand_extends(*o, defs, rec, fuel);
        },
        Expr::Multiple(o) => {
            lemma_expand_extends(*o, defs, rec, fuel);
        },
        Expr::Alternative(v) => {
            lemma_expand_prefix_extends(v, v.len() as int, defs, rec, fuel);
        },
        Expr::Joined(v) => {
            lemma_expand_prefix_extends(v, v.len() as int, defs, rec, fuel);
        },
        _ => {},
    }
}

proof fn lemma_expand_prefix_extends(v: Seq<Expr>, n: int, defs: Seq<Def>, rec: Seq<Seq<char>>, fuel: nat)
    ensures
        expand_prefix(v, n, defs, rec, fuel) matches Ok((_, r)) ==> forall|x: Seq<char>|
            rec.contains(x) ==> r.contains(x),
    decreases fuel, v, n + 1,
{
    if 0 < n <= v.len() {
        lemma_expand_prefix_extends(v, n - 1, defs, rec, fuel);
        match expand_prefix(v, n - 1, defs, rec, fuel) {
            Ok((_, r)) => {
                lemma_expand_extends(v[n - 1], defs, r, fuel);
            },
            Err(_) => {},
        }
    }
}

proof fn lemma_expand_fuel_step(e: Expr, defs: Seq<Def>, rec: Seq<Seq<char>>, fuel: nat)
    requires
        fuel >= unexpanded(defs, rec),
    ensures
        expand_spec(e, defs, rec, fuel) == expand_spec(e, defs, rec, fuel + 1),
    decreases fuel, e, 0nat,
{
    match e {
        Expr::Ident(name) => {
            if !rec.contains(name) {
                match find_def(defs, name) {
                    Some(i) => {
                        lemma_find_def_found(defs, name);
                        if fuel == 0 {
                            lemma_unexpanded_zero(defs, rec, i);
                        } else {
                            lemma_unexpanded_push(defs, rec, i);
                            lemma_expand_fuel_step(defs[i].value, defs, rec.push(name), (fuel - 1) as nat);
                            assert((fuel + 1 - 1) as nat == fuel);
                        }
                    },
                    None => {},
                }
            }
        },
        Expr::Optional(o) => {
            lemma_expand_fuel_step(*o, defs, rec, fuel);
        },
        Expr::Multiple(o) => {
            lemma_expand_fuel_step(*o, defs, rec, fuel);
        },
        Expr::Alternative(v) => {
            lemma_expand_prefix_fuel_step(v, v.len() as int, defs, rec, fuel);
        },
        Expr::Joined(v) => {
            lemma_expand_prefix_fuel_step(v, v.len() as int, defs, rec, fuel);
        },
        _ => {},
    }
}

proof fn lemma_expand_prefix_fuel_step(v: Seq<Expr>, n: int, defs: Seq<Def>, rec: Seq<Seq<char>>, fuel: nat)
    requires
        fuel >= unexpanded(defs, rec),
    ensures
        expand_prefix(v, n, defs, rec, fuel) == expand_prefix(v, n, defs, rec, fuel + 1),
    decreases fuel, v, n + 1,
{
    if 0 < n <= v.len() {
        lemma_expand_prefix_fuel_step(v, n - 1, defs, rec, fuel);
        lemma_expand_prefix_extends(v, n - 1, defs, rec, fuel);
        match expand_prefix(v, n - 1, defs, rec, fuel) {
            Ok((_, r)) => {
                lemma_unexpanded_monotone(defs, rec, r);
                lemma_expand_fuel_step(v[n - 1], defs, r, fuel);
            },
            Err(_) => {},
        }
    }
}

/// The depth bound of the expansion never cuts it short: with at least as
/// much fuel as there are definitions whose names have not been replaced
/// yet, any more fuel gives the same outcome. `process` starts with one unit
/// per definition and no name replaced.
pub proof fn lemma_fuel_suffices(e: Expr, defs: Seq<Def>, rec: Seq<Seq<char>>, fuel: nat, more: nat)
    requires
        fuel >= unexpanded(defs, rec),
        more >= fuel,
    ensures
        expand_spec(e, defs, rec, more) == expand_spec(e, defs, rec, fuel),
    decreases more - fuel,
{
    if more > fuel {
        lemma_expand_fuel_step(e, defs, rec, fuel);
        lemma_fuel_suffices(e, defs, rec, fuel + 1, more);
    }
}

/// No name is replaced before the expansion starts, so every definition
/// counts.
pub proof fn lemma_unexpanded_start(defs: Seq<Def>)
    ensures
        unexpanded(defs, seq![]) == defs.len(),
    decreases defs.len(),
{
    if defs.len() > 0 {
        lemma_unexpanded_start(defs.drop_last());
    }
}

} // verus!
