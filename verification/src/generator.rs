//! Printing of an inlined expression in the syntax of a regex engine.

use vstd::prelude::*;

use crate::lexer::Builtin;
use crate::processor::{lemma_models_alternative, models, InlinedExpression, Pattern};
use crate::properties::is_quantifier;
use crate::text::{char_at, char_string, chars_of, concat_all, join_with, push_char, push_str};
use crate::RegexKind;

verus! {

/// The characters that have a meaning of their own in a regex, which
/// `regex::escape` puts a backslash before.
pub open spec fn is_meta_character(c: char) -> bool {
    ||| c == '\\'
    ||| c == '.'
    ||| c == '+'
    ||| c == '*'
    ||| c == '?'
    ||| c == '('
    ||| c == ')'
    ||| c == '|'
    ||| c == '['
    ||| c == ']'
    ||| c == '{'
    ||| c == '}'
    ||| c == '^'
    ||| c == '$'
    ||| c == '#'
    ||| c == '&'
    ||| c == '-'
    ||| c == '~'
}

/// The text with a backslash before each meta character.
pub open spec fn regex_escape_spec(s: Seq<char>) -> Seq<char>
    decreases s.len(),
{
    if s.len() == 0 {
        seq![]
    } else {
        regex_escape_spec(s.drop_last()) + if is_meta_character(s.last()) {
            seq!['\\', s.last()]
        } else {
            seq![s.last()]
        }
    }
}

/// `regex::escape`: puts a backslash before each meta character of the text
/// and copies the other characters as they are.
#[verifier::external_body]
fn regex_escape(text: &str) -> (r: String)
    ensures
        r@ == regex_escape_spec(text@),
{
    regex::escape(text)
}

/// The escape sequence that stands for a whitespace control character.
pub open spec fn whitespace_escape(c: char) -> Seq<char> {
    if c == '\n' {
        seq!['\\', 'n']
    } else if c == '\r' {
        seq!['\\', 'r']
    } else if c == '\t' {
        seq!['\\', 't']
    } else if c == '\x0b' {
        seq!['\\', 'v']
    } else if c == '\x0c' {
        seq!['\\', 'f']
    } else {
        seq![c]
    }
}

/// The text with each whitespace control character written as an escape.
pub open spec fn escape_whitespace_spec(s: Seq<char>) -> Seq<char>
    decreases s.len(),
{
    if s.len() == 0 {
        seq![]
    } else {
        escape_whitespace_spec(s.drop_last()) + whitespace_escape(s.last())
    }
}

/// A literal text as it stands in a regex.
pub open spec fn literal_text(s: Seq<char>) -> Seq<char> {
    escape_whitespace_spec(regex_escape_spec(s))
}

/// The text of a part, grouped unless it is already an atom.
pub open spec fn make_atom(s: Seq<char>, atom: bool) -> Seq<char> {
    if atom {
        s
    } else {
        "(?:"@ + s + ")"@
    }
}

/// Whether an alternative can stand in a character class.
pub open spec fn is_class_member(p: Pattern) -> bool {
    p is Char || p is Builtin
}

/// How many of the alternatives can stand in a character class.
pub open spec fn class_count(v: Seq<Pattern>) -> nat
    decreases v.len(),
{
    if v.len() == 0 {
        0
    } else {
        class_count(v.drop_last()) + if is_class_member(v.last()) {
            1nat
        } else {
            0nat
        }
    }
}

/// The inside of the character class, but for a hyphen, which goes first.
pub open spec fn class_body(v: Seq<Pattern>) -> Seq<char>
    decreases v.len(),
{
    if v.len() == 0 {
        seq![]
    } else {
        class_body(v.drop_last()) + match v.last() {
            Pattern::Char(c) => if c == '-' {
                seq![]
            } else {
                literal_text(seq![c])
            },
            Pattern::Builtin(b) => b.spec_build(),
            _ => seq![],
        }
    }
}

/// The character class of the alternatives that can stand in one.
pub open spec fn class_text(v: Seq<Pattern>) -> Seq<char> {
    "["@ + (if v.contains(Pattern::Char('-')) {
        "-"@
    } else {
        seq![]
    }) + class_body(v) + "]"@
}

/// The texts of the alternatives that cannot stand in a character class.
pub open spec fn other_texts(v: Seq<Pattern>, texts: Seq<Seq<char>>) -> Seq<Seq<char>>
    decreases v.len(),
{
    if v.len() == 0 || texts.len() == 0 {
        seq![]
    } else {
        other_texts(v.drop_last(), texts.drop_last()) + if is_class_member(v.last()) {
            Seq::<Seq<char>>::empty()
        } else {
            seq![texts.last()]
        }
    }
}

/// The text of an alternative whose parts print as `texts`: two or more
/// characters and classes gather into one character class, placed first.
pub open spec fn alternative_text(v: Seq<Pattern>, texts: Seq<Seq<char>>) -> Seq<char> {
    if class_count(v) >= 2 {
        let others = other_texts(v, texts);
        if others.len() == 0 {
            class_text(v)
        } else {
            "(?:"@ + join_with(seq![class_text(v)] + others, "|"@) + ")"@
        }
    } else {
        "(?:"@ + join_with(texts, "|"@) + ")"@
    }
}

/// The RE2 text of a pattern, and whether it is an atom: a part that an
/// operator after it applies to as a whole.
pub open spec fn build_spec(p: Pattern) -> (Seq<char>, bool)
    decreases p,
{
    match p {
        Pattern::Nothing => (seq![], true),
        Pattern::Literal(l) => (literal_text(l), false),
        Pattern::Char(c) => (literal_text(seq![c]), true),
        Pattern::Optional(inner) => {
            let b = build_spec(*inner);
            (make_atom(b.0, b.1) + "?"@, true)
        },
        Pattern::Multiple(inner) => {
            let b = build_spec(*inner);
            (make_atom(b.0, b.1) + "+"@, true)
        },
        Pattern::ZeroOrMore(inner) => {
            let b = build_spec(*inner);
            (make_atom(b.0, b.1) + "*"@, true)
        },
        Pattern::Joined(v) => (concat_all(build_texts(v)), false),
        Pattern::Alternative(v) => (alternative_text(v, build_texts(v)), true),
        Pattern::Builtin(b) => (b.spec_build(), true),
    }
}

/// The RE2 text of each pattern.
pub open spec fn build_texts(v: Seq<Pattern>) -> Seq<Seq<char>>
    decreases v,
{
    Seq::new(
        v.len(),
        |i: int|
            if 0 <= i < v.len() {
                build_spec(v[i]).0
            } else {
                seq![]
            },
    )
}

/// The text that `generate` gives, or its error.
pub open spec fn generate_spec(p: Pattern, kind: RegexKind) -> Result<Seq<char>, Seq<char>> {
    if kind == RegexKind::Re2 {
        Ok(build_spec(p).0)
    } else {
        Err("Only RE2 is supported as of now"@)
    }
}

/// The value of a text outcome.
pub open spec fn text_outcome(r: Result<String, String>) -> Result<Seq<char>, Seq<char>> {
    match r {
        Ok(s) => Ok(s@),
        Err(m) => Err(m@),
    }
}

fn escape_whitespace(text: &str) -> (out: String)
    ensures
        out@ == escape_whitespace_spec(text@),
{
    let cs = chars_of(text);
    let mut out = String::new();
    let mut i: usize = 0;
    while i < cs.len()
        invariant
            i <= cs.len(),
            cs@ == text@,
            out@ == escape_whitespace_spec(text@.take(i as int)),
        decreases cs.len() - i,
    {
        let c = char_at(&cs, i);
        if c == '\n' {
            push_str(&mut out, "\\n");
        } else if c == '\r' {
            push_str(&mut out, "\\r");
        } else if c == '\t' {
            push_str(&mut out, "\\t");
        } else if c == '\x0b' {
            push_str(&mut out, "\\v");
        } else if c == '\x0c' {
            push_str(&mut out, "\\f");
        } else {
            push_char(&mut out, c);
        }
        proof {
            reveal_strlit("\\n");
            reveal_strlit("\\r");
            reveal_strlit("\\t");
            reveal_strlit("\\v");
            reveal_strlit("\\f");
        }
        assert(text@.take(i + 1).drop_last() =~= text@.take(i as int));
        i = i + 1;
        assert(out@ =~= escape_whitespace_spec(text@.take(i as int)));
    }
    assert(text@.take(i as int) =~= text@);
    out
}

pub(crate) fn literal_regex(s: &str) -> (out: String)
    ensures
        out@ == literal_text(s@),
{
    let escaped = regex_escape(s);
    escape_whitespace(escaped.as_str())
}

fn make_atom_of(s: String, atom: bool) -> (out: String)
    ensures
        out@ == make_atom(s@, atom),
{
    if atom {
        s
    } else {
        let mut out = String::from_str("(?:");
        push_str(&mut out, s.as_str());
        push_str(&mut out, ")");
        out
    }
}

/// Joins the strings with a separator between neighbours.
pub(crate) fn join_strings(parts: &Vec<String>, sep: &str) -> (out: String)
    ensures
        out@ == join_with(parts@.map_values(|p: String| p@), sep@),
{
    let ghost ps = parts@.map_values(|p: String| p@);
    let mut out = String::new();
    let mut i: usize = 0;
    while i < parts.len()
        invariant
            i <= parts.len(),
            ps == parts@.map_values(|p: String| p@),
            out@ == join_with(ps.take(i as int), sep@),
        decreases parts.len() - i,
    {
        assert(ps.take(i + 1).drop_last() =~= ps.take(i as int));
        if i > 0 {
            push_str(&mut out, sep);
        }
        push_str(&mut out, parts[i].as_str());
        i = i + 1;
        assert(out@ =~= join_with(ps.take(i as int), sep@));
    }
    assert(ps.take(i as int) =~= ps);
    out
}

impl InlinedExpression {
    /// The RE2 text of the expression, and whether it is an atom.
    #[verifier::loop_isolation(false)]
    pub fn build_re2(self) -> (r: (String, bool))
        ensures
            r.0@ == build_spec(self@).0,
            r.1 == build_spec(self@).1,
        decreases self,
    {
        let ghost me = self;
        match self {
            InlinedExpression::Nothing => {
                let out = String::new();
                assert(me@ == Pattern::Nothing);
                assert(out@ =~= build_spec(Pattern::Nothing).0);
                (out, true)
            },
            InlinedExpression::Literal(literal) => (literal_regex(literal.as_str()), false),
            InlinedExpression::Char(c) => {
                let s = char_string(c);
                (literal_regex(s.as_str()), true)
            },
            InlinedExpression::Optional(inner) => {
                let (text, atom) = (*inner).build_re2();
                let mut out = make_atom_of(text, atom);
                push_str(&mut out, "?");
                (out, true)
            },
            InlinedExpression::Multiple(inner) => {
                let (text, atom) = (*inner).build_re2();
                let mut out = make_atom_of(text, atom);
                push_str(&mut out, "+");
                (out, true)
            },
            InlinedExpression::ZeroOrMore(inner) => {
                let (text, atom) = (*inner).build_re2();
                let mut out = make_atom_of(text, atom);
                push_str(&mut out, "*");
                (out, true)
            },
            InlinedExpression::Joined(v) => {
                proof {
                    lemma_models_alternative(v);
                }
                let ghost kids = v@;
                let ghost ts = build_texts(models(kids));
                let mut v = v;
                let mut out = String::new();
                let ghost mut done: int = 0;
                assert(ts.take(0) =~= seq![]);
                while v.len() > 0
                    invariant
                        0 <= done <= kids.len(),
                        kids.len() == done + v@.len(),
                        v@ == kids.skip(done),
                        ts == build_texts(models(kids)),
                        me == InlinedExpression::Joined(me->Joined_0),
                        kids == me->Joined_0@,
                        out@ == concat_all(ts.take(done)),
                    decreases v.len(),
                {
                    let part = v.remove(0);
                    assert(part == kids[done]);
                    assert(v@ =~= kids.skip(done + 1));
                    assert(decreases_to!(me => part));
                    let (text, _) = part.build_re2();
                    assert(ts.take(done + 1).drop_last() =~= ts.take(done));
                    push_str(&mut out, text.as_str());
                    proof {
                        done = done + 1;
                    }
                }
                assert(ts.take(done) =~= ts);
                assert(out@ == build_spec(me@).0);
                (out, false)
            },
            InlinedExpression::Alternative(v) => {
                proof {
                    lemma_models_alternative(v);
                }
                let ghost kids = v@;
                let ghost ps = models(kids);
                let ghost ts = build_texts(ps);
                let mut v = v;
                let mut texts: Vec<String> = Vec::new();
                let mut others: Vec<String> = Vec::new();
                let mut members: usize = 0;
                let mut hyphen = false;
                let mut body = String::new();
                let ghost mut done: int = 0;
                assert(kids.len() == v.len());
                assert(ts.take(0) =~= seq![]);
                assert(texts@.map_values(|p: String| p@) =~= seq![]);
                assert(others@.map_values(|p: String| p@) =~= seq![]);
                while v.len() > 0
                    invariant
                        0 <= done <= kids.len(),
                        kids.len() == done + v@.len(),
                        v@ == kids.skip(done),
                        ps == models(kids),
                        ts == build_texts(ps),
                        me == InlinedExpression::Alternative(me->Alternative_0),
                        kids == me->Alternative_0@,
                        texts@.map_values(|p: String| p@) == ts.take(done),
                        others@.map_values(|p: String| p@) == other_texts(
                            ps.take(done),
                            ts.take(done),
                        ),
                        members == class_count(ps.take(done)),
                        members <= done,
                        kids.len() <= usize::MAX,
                        hyphen == ps.take(done).contains(Pattern::Char('-')),
                        body@ == class_body(ps.take(done)),
                    decreases v.len(),
                {
                    let part = v.remove(0);
                    assert(part == kids[done]);
                    assert(v@ =~= kids.skip(done + 1));
                    assert(decreases_to!(me => part));
                    let ghost pre = ps.take(done);
                    let ghost now = ps.take(done + 1);
                    assert(now.drop_last() =~= pre);
                    assert(now.last() == part@);
                    assert(ts.take(done + 1).drop_last() =~= ts.take(done));
                    assert(ts[done] == build_spec(part@).0);
                    let ghost texts0 = texts@.map_values(|p: String| p@);
                    let ghost others0 = others@.map_values(|p: String| p@);
                    match part {
                        InlinedExpression::Char(c) => {
                            members = members + 1;
                            let s = char_string(c);
                            let text = literal_regex(s.as_str());
                            if c == '-' {
                                hyphen = true;
                            } else {
                                push_str(&mut body, text.as_str());
                            }
                            texts.push(text);
                        },
                        InlinedExpression::Builtin(b) => {
                            members = members + 1;
                            push_str(&mut body, b.build());
                            let mut text = String::new();
                            push_str(&mut text, b.build());
                            texts.push(text);
                        },
                        other => {
                            let (text, _) = other.build_re2();
                            let copy = text.clone();
                            others.push(copy);
                            texts.push(text);
                        },
                    }
                    assert(now.contains(Pattern::Char('-')) == (pre.contains(Pattern::Char('-'))
                        || now.last() == Pattern::Char('-'))) by {
                        if now.last() == Pattern::Char('-') {
                            assert(now[done] == Pattern::Char('-'));
                        }
                        if pre.contains(Pattern::Char('-')) {
                            let k = choose|k: int| 0 <= k < pre.len() && pre[k] == Pattern::Char('-');
                            assert(now[k] == Pattern::Char('-'));
                        }
                        if now.contains(Pattern::Char('-')) {
                            let k = choose|k: int| 0 <= k < now.len() && now[k] == Pattern::Char('-');
                            if k < done {
                                assert(pre[k] == Pattern::Char('-'));
                            }
                        }
                    }
                    assert(texts@.map_values(|p: String| p@) =~= texts0.push(ts[done]));
                    assert(others@.map_values(|p: String| p@) =~= other_texts(now, ts.take(done + 1)));
                    proof {
                        done = done + 1;
                    }
                }
                assert(ts.take(done) =~= ts);
                assert(ps.take(done) =~= ps);
                if members >= 2 {
                    let mut class = String::from_str("[");
                    if hyphen {
                        push_str(&mut class, "-");
                    }
                    push_str(&mut class, body.as_str());
                    push_str(&mut class, "]");
                    if others.len() == 0 {
                        assert(class@ == build_spec(me@).0);
                        (class, true)
                    } else {
                        let ghost class_view = class@;
                        let ghost others_view = others@.map_values(|p: String| p@);
                        assert(class_view == class_text(ps));
                        let mut all: Vec<String> = Vec::new();
                        all.push(class);
                        let mut others = others;
                        all.append(&mut others);
                        assert(all@.map_values(|p: String| p@) =~= seq![class_view] + others_view);
                        let joined = join_strings(&all, "|");
                        let mut out = String::from_str("(?:");
                        push_str(&mut out, joined.as_str());
                        push_str(&mut out, ")");
                        assert(out@ == build_spec(me@).0);
                        (out, true)
                    }
                } else {
                    let joined = join_strings(&texts, "|");
                    let mut out = String::from_str("(?:");
                    push_str(&mut out, joined.as_str());
                    push_str(&mut out, ")");
                    assert(out@ == build_spec(me@).0);
                    (out, true)
                }
            },
            InlinedExpression::Builtin(b) => {
                let mut out = String::new();
                push_str(&mut out, b.build());
                (out, true)
            },
        }
    }
}

/// The regex for an inlined expression, in the syntax of the engine `kind`;
/// only RE2 is supported.
pub fn generate(expr: InlinedExpression, regex_kind: RegexKind) -> (r: Result<String, String>)
    ensures
        text_outcome(r) == generate_spec(expr@, regex_kind),
{
    if regex_kind == RegexKind::Re2 {
        Ok(expr.build_re2().0)
    } else {
        Err(String::from_str("Only RE2 is supported as of now"))
    }
}

// ---------------------------------------------------------------------------
// Literals read back
// ---------------------------------------------------------------------------

/// The character that a backslash before `c` stands for in a regex.
pub open spec fn escaped_char(c: char) -> char {
    if c == 'n' {
        '\n'
    } else if c == 'r' {
        '\r'
    } else if c == 't' {
        '\t'
    } else if c == 'v' {
        '\x0b'
    } else if c == 'f' {
        '\x0c'
    } else {
        c
    }
}

/// The characters that a run of literal regex text stands for: a backslash
/// and the character after it stand for one character, any other character
/// for itself.
pub open spec fn read_literal(t: Seq<char>) -> Seq<char>
    decreases t.len(),
{
    if t.len() == 0 {
        seq![]
    } else if t[0] == '\\' && t.len() >= 2 {
        seq![escaped_char(t[1])] + read_literal(t.skip(2))
    } else {
        seq![t[0]] + read_literal(t.skip(1))
    }
}

/// How one character of a literal is printed.
spec fn printed_char(c: char) -> Seq<char> {
    if is_meta_character(c) {
        seq!['\\', c]
    } else {
        whitespace_escape(c)
    }
}

/// The printed characters, from the first on.
spec fn printed(l: Seq<char>) -> Seq<char>
    decreases l.len(),
{
    if l.len() == 0 {
        seq![]
    } else {
        printed_char(l[0]) + printed(l.skip(1))
    }
}

proof fn lemma_escape_whitespace_append(a: Seq<char>, b: Seq<char>)
    ensures
        escape_whitespace_spec(a + b) == escape_whitespace_spec(a) + escape_whitespace_spec(b),
    decreases b.len(),
{
    if b.len() == 0 {
        assert(a + b =~= a);
    } else {
        lemma_escape_whitespace_append(a, b.drop_last());
        assert((a + b).drop_last() =~= a + b.drop_last());
        assert((a + b).last() == b.last());
        assert(escape_whitespace_spec(a) + escape_whitespace_spec(b.drop_last()) + whitespace_escape(
            b.last(),
        ) =~= escape_whitespace_spec(a) + (escape_whitespace_spec(b.drop_last()) + whitespace_escape(
            b.last(),
        )));
    }
}

proof fn lemma_printed_push(l: Seq<char>, c: char)
    ensures
        printed(l.push(c)) == printed(l) + printed_char(c),
    decreases l.len(),
{
    if l.len() == 0 {
        assert(l.push(c).skip(1) =~= Seq::<char>::empty());
        assert(printed(Seq::<char>::empty()) == Seq::<char>::empty());
        assert(l =~= Seq::<char>::empty());
        assert(l.push(c)[0] == c);
        assert(printed_char(c) + Seq::<char>::empty() =~= printed_char(c));
        assert(Seq::<char>::empty() + printed_char(c) =~= printed_char(c));
    } else {
        lemma_printed_push(l.skip(1), c);
        assert(l.push(c).skip(1) =~= l.skip(1).push(c));
        assert(l.push(c)[0] == l[0]);
        assert(printed_char(l[0]) + (printed(l.skip(1)) + printed_char(c)) =~= printed_char(l[0])
            + printed(l.skip(1)) + printed_char(c));
    }
}

/// The printed literal is the printed characters, one after the other.
proof fn lemma_literal_text_printed(l: Seq<char>)
    ensures
        literal_text(l) == printed(l),
    decreases l.len(),
{
    if l.len() > 0 {
        let front = l.drop_last();
        let c = l.last();
        lemma_literal_text_printed(front);
        let piece = if is_meta_character(c) {
            seq!['\\', c]
        } else {
            seq![c]
        };
        lemma_escape_whitespace_append(regex_escape_spec(front), piece);
        assert(escape_whitespace_spec(Seq::<char>::empty()) == Seq::<char>::empty());
        if is_meta_character(c) {
            let b = seq!['\\'];
            assert(b.drop_last() =~= Seq::<char>::empty());
            assert(escape_whitespace_spec(b) =~= b);
            assert(piece.drop_last() =~= b);
            assert(escape_whitespace_spec(piece) =~= seq!['\\', c]);
        } else {
            assert(piece.drop_last() =~= Seq::<char>::empty());
            assert(escape_whitespace_spec(piece) =~= whitespace_escape(c));
        }
        lemma_printed_push(front, c);
        assert(front.push(c) =~= l);
    }
}

proof fn lemma_read_printed(l: Seq<char>)
    ensures
        read_literal(printed(l)) == l,
    decreases l.len(),
{
    if l.len() > 0 {
        let c = l[0];
        let rest = printed(l.skip(1));
        lemma_read_printed(l.skip(1));
        let t = printed_char(c) + rest;
        if is_meta_character(c) || whitespace_escape(c).len() == 2 {
            assert(t[0] == '\\');
            assert(t.skip(2) =~= rest);
            assert(escaped_char(t[1]) == c);
        } else {
            assert(printed_char(c) == seq![c]);
            assert(t[0] == c);
            assert(t.skip(1) =~= rest);
        }
        assert(seq![c] + l.skip(1) =~= l);
    }
}

/// A literal is printed so that reading its escapes gives it back: a
/// backslash before a character stands for that character, except in `\n`,
/// `\r`, `\t`, `\v` and `\f`, which stand for the control characters. So
/// two different literals are never printed alike.
pub proof fn lemma_literal_reads_back(l: Seq<char>)
    ensures
        read_literal(literal_text(l)) == l,
{
    lemma_literal_text_printed(l);
    lemma_read_printed(l);
}

// ---------------------------------------------------------------------------
// Printed regexes are well nested, and repeated parts are single atoms
// ---------------------------------------------------------------------------

/// Reads regex text from the start with `d` groups open, inside a
/// character class or not: a backslash takes the next character with it,
/// `(` opens a group and `)` closes one, and `[` opens a class that the
/// next unescaped `]` closes. The number of groups open at the end, or
/// `None` where a `)` closes no group, a class is left open or is empty, a
/// class holds an unescaped `[` or `^`, or a `]` stands outside a class.
pub open spec fn regex_walk(t: Seq<char>, d: nat, in_class: bool) -> Option<nat>
    decreases t.len(),
{
    if t.len() == 0 {
        if in_class {
            None
        } else {
            Some(d)
        }
    } else if t[0] == '\\' {
        if t.len() < 2 {
            None
        } else {
            regex_walk(t.skip(2), d, in_class)
        }
    } else if in_class {
        if t[0] == ']' {
            regex_walk(t.skip(1), d, false)
        } else if t[0] == '[' || t[0] == '^' {
            None
        } else {
            regex_walk(t.skip(1), d, true)
        }
    } else if t[0] == '[' {
        if t.len() >= 2 && t[1] == ']' {
            None
        } else {
            regex_walk(t.skip(1), d, true)
        }
    } else if t[0] == '(' {
        regex_walk(t.skip(1), d + 1, false)
    } else if t[0] == ')' {
        if d == 0 {
            None
        } else {
            regex_walk(t.skip(1), (d - 1) as nat, false)
        }
    } else if t[0] == ']' {
        None
    } else {
        regex_walk(t.skip(1), d, false)
    }
}

/// The text closes every group and class that it opens, and closes none
/// that it did not open.
pub open spec fn well_nested(t: Seq<char>) -> bool {
    forall|d: nat| #[trigger] regex_walk(t, d, false) == Some(d)
}

/// The inside of a character class: escapes and characters other than
/// `[`, `]` and `^`.
pub open spec fn class_inside(u: Seq<char>) -> bool
    decreases u.len(),
{
    if u.len() == 0 {
        true
    } else if u[0] == '\\' {
        u.len() >= 2 && class_inside(u.skip(2))
    } else if u[0] == ']' || u[0] == '[' || u[0] == '^' {
        false
    } else {
        class_inside(u.skip(1))
    }
}

/// A single regex atom: a character that stands for itself, a backslash
/// escape, a character class `[...]` with a non-empty inside, or a group
/// `(?:...)` whose inside is well nested, so that its first `(` is closed
/// by its last `)`.
pub open spec fn is_atom(t: Seq<char>) -> bool {
    ||| t.len() == 1 && !is_meta_character(t[0])
    ||| t.len() == 2 && t[0] == '\\'
    ||| t.len() >= 3 && t[0] == '[' && t.last() == ']' && t[1] != ']' && class_inside(
        t.subrange(1, t.len() - 1),
    )
    ||| t.len() >= 4 && t[0] == '(' && t[1] == '?' && t[2] == ':' && t.last() == ')' && regex_walk(
        t.subrange(3, t.len() - 1),
        0,
        false,
    ) == Some(0nat)
}

proof fn lemma_walk_append(a: Seq<char>, b: Seq<char>, d: nat, m: bool)
    requires
        regex_walk(a, d, m) is Some,
    ensures
        regex_walk(a + b, d, m) == regex_walk(b, regex_walk(a, d, m).unwrap(), false),
    decreases a.len(),
{
    let t = a + b;
    if a.len() > 0 {
        assert(t[0] == a[0]);
        if a[0] == '\\' {
            assert(t[1] == a[1]);
            assert(t.skip(2) =~= a.skip(2) + b);
            lemma_walk_append(a.skip(2), b, d, m);
        } else if m {
            assert(t.skip(1) =~= a.skip(1) + b);
            if a[0] == ']' {
                lemma_walk_append(a.skip(1), b, d, false);
            } else {
                lemma_walk_append(a.skip(1), b, d, true);
            }
        } else if a[0] == '[' {
            if a.len() == 1 {
                assert(a.skip(1).len() == 0);
                assert(regex_walk(a.skip(1), d, true) is None);
            }
            assert(a.len() >= 2);
            assert(t[1] == a[1]);
            assert(t.skip(1) =~= a.skip(1) + b);
            lemma_walk_append(a.skip(1), b, d, true);
        } else if a[0] == '(' {
            assert(t.skip(1) =~= a.skip(1) + b);
            lemma_walk_append(a.skip(1), b, d + 1, false);
        } else if a[0] == ')' {
            assert(t.skip(1) =~= a.skip(1) + b);
            lemma_walk_append(a.skip(1), b, (d - 1) as nat, false);
        } else {
            assert(t.skip(1) =~= a.skip(1) + b);
            lemma_walk_append(a.skip(1), b, d, false);
        }
    } else {
        assert(t =~= b);
    }
}

proof fn lemma_well_nested_append(a: Seq<char>, b: Seq<char>)
    requires
        well_nested(a),
        well_nested(b),
    ensures
        well_nested(a + b),
{
    assert forall|d: nat| #[trigger] regex_walk(a + b, d, false) == Some(d) by {
        assert(regex_walk(a, d, false) == Some(d));
        lemma_walk_append(a, b, d, false);
        assert(regex_walk(b, d, false) == Some(d));
    }
}

proof fn lemma_well_nested_char(c: char)
    requires
        c != '\\' && c != '(' && c != ')' && c != '[' && c != ']',
    ensures
        well_nested(seq![c]),
{
    let t = seq![c];
    assert forall|d: nat| #[trigger] regex_walk(t, d, false) == Some(d) by {
        assert(t.skip(1) =~= Seq::<char>::empty());
        assert(regex_walk(t.skip(1), d, false) == Some(d));
    }
}

proof fn lemma_well_nested_escape(c: char)
    ensures
        well_nested(seq!['\\', c]),
{
    let t = seq!['\\', c];
    assert forall|d: nat| #[trigger] regex_walk(t, d, false) == Some(d) by {
        assert(t.skip(2) =~= Seq::<char>::empty());
        assert(regex_walk(t.skip(2), d, false) == Some(d));
    }
}

proof fn lemma_well_nested_empty()
    ensures
        well_nested(Seq::<char>::empty()),
{
}

proof fn lemma_printed_char_nested(c: char)
    ensures
        well_nested(printed_char(c)),
        class_inside(printed_char(c)),
        printed_char(c).len() == 2 && printed_char(c)[0] == '\\' || printed_char(c) == seq![c]
            && !is_meta_character(c),
{
    let t = printed_char(c);
    if is_meta_character(c) {
        lemma_well_nested_escape(c);
        assert(t.skip(2) =~= Seq::<char>::empty());
        assert(class_inside(t.skip(2)));
    } else if whitespace_escape(c).len() == 2 {
        lemma_well_nested_escape(t[1]);
        assert(t =~= seq!['\\', t[1]]);
        assert(t.skip(2) =~= Seq::<char>::empty());
        assert(class_inside(t.skip(2)));
    } else {
        lemma_well_nested_char(c);
        assert(t.skip(1) =~= Seq::<char>::empty());
        assert(class_inside(t.skip(1)));
    }
}

proof fn lemma_literal_nested(l: Seq<char>)
    ensures
        well_nested(literal_text(l)),
{
    lemma_literal_text_printed(l);
    lemma_printed_nested(l);
}

proof fn lemma_printed_nested(l: Seq<char>)
    ensures
        well_nested(printed(l)),
    decreases l.len(),
{
    if l.len() == 0 {
        lemma_well_nested_empty();
    } else {
        lemma_printed_char_nested(l[0]);
        lemma_printed_nested(l.skip(1));
        lemma_well_nested_append(printed_char(l[0]), printed(l.skip(1)));
    }
}

proof fn lemma_concat_all_nested(parts: Seq<Seq<char>>)
    requires
        forall|i: int| 0 <= i < parts.len() ==> well_nested(#[trigger] parts[i]),
    ensures
        well_nested(concat_all(parts)),
    decreases parts.len(),
{
    if parts.len() == 0 {
        lemma_well_nested_empty();
    } else {
        let pre = parts.drop_last();
        assert forall|i: int| 0 <= i < pre.len() implies well_nested(#[trigger] pre[i]) by {
            assert(pre[i] == parts[i]);
        }
        lemma_concat_all_nested(pre);
        assert(well_nested(parts[parts.len() - 1]));
        lemma_well_nested_append(concat_all(pre), parts.last());
    }
}

proof fn lemma_join_with_nested(parts: Seq<Seq<char>>, sep: Seq<char>)
    requires
        forall|i: int| 0 <= i < parts.len() ==> well_nested(#[trigger] parts[i]),
        well_nested(sep),
    ensures
        well_nested(join_with(parts, sep)),
    decreases parts.len(),
{
    if parts.len() == 0 {
        lemma_well_nested_empty();
    } else if parts.len() == 1 {
        assert(well_nested(parts[0]));
    } else {
        let pre = parts.drop_last();
        assert forall|i: int| 0 <= i < pre.len() implies well_nested(#[trigger] pre[i]) by {
            assert(pre[i] == parts[i]);
        }
        lemma_join_with_nested(pre, sep);
        assert(well_nested(parts[parts.len() - 1]));
        lemma_well_nested_append(join_with(pre, sep), sep);
        lemma_well_nested_append(join_with(pre, sep) + sep, parts.last());
    }
}

/// A group around well nested text is one atom and well nested itself.
proof fn lemma_group(x: Seq<char>)
    requires
        well_nested(x),
    ensures
        is_atom("(?:"@ + x + ")"@),
        well_nested("(?:"@ + x + ")"@),
{
    reveal_strlit("(?:");
    reveal_strlit(")");
    let t = "(?:"@ + x + ")"@;
    assert(t.subrange(3, t.len() - 1) =~= x);
    assert(regex_walk(x, 0, false) == Some(0nat));
    let open = "(?:"@;
    assert forall|d: nat| #[trigger] regex_walk(t, d, false) == Some(d) by {
        assert(open.skip(1) =~= seq!['?', ':']);
        assert(open.skip(1).skip(1) =~= seq![':']);
        assert(open.skip(1).skip(1).skip(1) =~= Seq::<char>::empty());
        assert(regex_walk(open.skip(1).skip(1).skip(1), d + 1, false) == Some((d + 1) as nat));
        assert(regex_walk(open.skip(1).skip(1), d + 1, false) == Some((d + 1) as nat));
        assert(regex_walk(open.skip(1), d + 1, false) == Some((d + 1) as nat));
        assert(regex_walk(open, d, false) == Some((d + 1) as nat));
        lemma_walk_append(open, x, d, false);
        assert(regex_walk(x, (d + 1) as nat, false) == Some((d + 1) as nat));
        lemma_walk_append(open + x, ")"@, d, false);
        let close = ")"@;
        assert(close.skip(1) =~= Seq::<char>::empty());
        assert(regex_walk(close.skip(1), d, false) == Some(d));
    }
}

proof fn lemma_class_inside_append(u: Seq<char>, w: Seq<char>)
    requires
        class_inside(u),
    ensures
        class_inside(u + w) == class_inside(w),
    decreases u.len(),
{
    let t = u + w;
    if u.len() == 0 {
        assert(t =~= w);
    } else if u[0] == '\\' {
        assert(t[0] == '\\' && t[1] == u[1]);
        assert(t.skip(2) =~= u.skip(2) + w);
        lemma_class_inside_append(u.skip(2), w);
    } else {
        assert(t[0] == u[0]);
        assert(t.skip(1) =~= u.skip(1) + w);
        lemma_class_inside_append(u.skip(1), w);
    }
}

proof fn lemma_class_walk(u: Seq<char>, w: Seq<char>, d: nat)
    requires
        class_inside(u),
    ensures
        regex_walk(u + w, d, true) == regex_walk(w, d, true),
    decreases u.len(),
{
    let t = u + w;
    if u.len() == 0 {
        assert(t =~= w);
    } else if u[0] == '\\' {
        assert(t[0] == '\\' && t[1] == u[1]);
        assert(t.skip(2) =~= u.skip(2) + w);
        lemma_class_walk(u.skip(2), w, d);
    } else {
        assert(t[0] == u[0]);
        assert(t.skip(1) =~= u.skip(1) + w);
        lemma_class_walk(u.skip(1), w, d);
    }
}

proof fn lemma_builtin_text(b: Builtin)
    ensures
        well_nested(b.spec_build()),
        class_inside(b.spec_build()),
        is_atom(b.spec_build()),
{
    let t = b.spec_build();
    match b {
        Builtin::Space => {
            lemma_well_nested_char(' ');
            assert(t.skip(1) =~= Seq::<char>::empty());
            assert(class_inside(t.skip(1)));
        },
        _ => {
            lemma_well_nested_escape(t[1]);
            assert(t =~= seq!['\\', t[1]]);
            assert(t.skip(2) =~= Seq::<char>::empty());
            assert(class_inside(t.skip(2)));
        },
    }
}

proof fn lemma_char_text(c: char)
    ensures
        literal_text(seq![c]) == printed_char(c),
        well_nested(printed_char(c)),
        class_inside(printed_char(c)),
        printed_char(c).len() > 0,
        is_atom(printed_char(c)),
{
    lemma_literal_text_printed(seq![c]);
    assert(seq![c][0] == c);
    assert(seq![c].skip(1) =~= Seq::<char>::empty());
    assert(printed(Seq::<char>::empty()) == Seq::<char>::empty());
    assert(printed_char(c) + Seq::<char>::empty() =~= printed_char(c));
    lemma_printed_char_nested(c);
}

proof fn lemma_class_body(v: Seq<Pattern>)
    ensures
        class_inside(class_body(v)),
        class_count(v) >= 1 ==> v.contains(Pattern::Char('-')) || class_body(v).len() > 0,
    decreases v.len(),
{
    if v.len() > 0 {
        let pre = v.drop_last();
        lemma_class_body(pre);
        let piece = match v.last() {
            Pattern::Char(c) => if c == '-' {
                Seq::<char>::empty()
            } else {
                literal_text(seq![c])
            },
            Pattern::Builtin(b) => b.spec_build(),
            _ => Seq::<char>::empty(),
        };
        assert(class_body(v) == class_body(pre) + piece);
        match v.last() {
            Pattern::Char(c) => {
                lemma_char_text(c);
                if c == '-' {
                    assert(v[v.len() - 1] == Pattern::Char('-'));
                }
            },
            Pattern::Builtin(b) => lemma_builtin_text(b),
            _ => {},
        }
        lemma_class_inside_append(class_body(pre), piece);
        if pre.contains(Pattern::Char('-')) {
            let i = choose|i: int| 0 <= i < pre.len() && pre[i] == Pattern::Char('-');
            assert(v[i] == pre[i]);
        }
    }
}

proof fn lemma_class_text(v: Seq<Pattern>)
    requires
        class_count(v) >= 1,
    ensures
        is_atom(class_text(v)),
        well_nested(class_text(v)),
{
    reveal_strlit("[");
    reveal_strlit("]");
    reveal_strlit("-");
    lemma_class_body(v);
    let prefix = if v.contains(Pattern::Char('-')) {
        "-"@
    } else {
        Seq::<char>::empty()
    };
    let inner = prefix + class_body(v);
    let t = class_text(v);
    assert(t == "["@ + inner + "]"@);
    if v.contains(Pattern::Char('-')) {
        let dash = seq!['-'];
        assert(prefix =~= dash);
        assert(dash.skip(1) =~= Seq::<char>::empty());
        assert(class_inside(dash.skip(1)));
        assert(class_inside(prefix));
    } else {
        assert(prefix.len() == 0);
    }
    lemma_class_inside_append(prefix, class_body(v));
    assert(inner.len() > 0);
    assert(t[1] == inner[0]);
    assert(t.subrange(1, t.len() - 1) =~= inner);
    assert(inner[0] != ']');
    assert forall|d: nat| #[trigger] regex_walk(t, d, false) == Some(d) by {
        assert(t.skip(1) =~= inner + "]"@);
        lemma_class_walk(inner, "]"@, d);
        let close = "]"@;
        assert(close.skip(1) =~= Seq::<char>::empty());
        assert(regex_walk(close.skip(1), d, false) == Some(d));
        assert(regex_walk(close, d, true) == Some(d));
    }
}

proof fn lemma_other_texts_nested(v: Seq<Pattern>, texts: Seq<Seq<char>>)
    requires
        forall|i: int| 0 <= i < texts.len() ==> well_nested(#[trigger] texts[i]),
    ensures
        forall|i: int|
            0 <= i < other_texts(v, texts).len() ==> well_nested(#[trigger] other_texts(v, texts)[i]),
    decreases v.len(),
{
    if v.len() > 0 && texts.len() > 0 {
        let pt = texts.drop_last();
        assert forall|i: int| 0 <= i < pt.len() implies well_nested(#[trigger] pt[i]) by {
            assert(pt[i] == texts[i]);
        }
        lemma_other_texts_nested(v.drop_last(), pt);
        let o = other_texts(v.drop_last(), pt);
        let r = other_texts(v, texts);
        assert(well_nested(texts[texts.len() - 1]));
        assert forall|i: int| 0 <= i < r.len() implies well_nested(#[trigger] r[i]) by {
            if i < o.len() {
                assert(r[i] == o[i]);
            }
        }
    }
}

proof fn lemma_printed_text(p: Pattern)
    ensures
        well_nested(build_spec(p).0),
        !(p is Nothing) && !is_quantifier(p) ==> is_atom(make_atom(build_spec(p).0, build_spec(p).1)),
    decreases p,
{
    reveal_strlit("?");
    reveal_strlit("+");
    reveal_strlit("*");
    reveal_strlit("|");
    match p {
        Pattern::Nothing => lemma_well_nested_empty(),
        Pattern::Literal(l) => {
            lemma_literal_nested(l);
            lemma_group(literal_text(l));
        },
        Pattern::Char(c) => lemma_char_text(c),
        Pattern::Builtin(b) => lemma_builtin_text(b),
        Pattern::Optional(x) | Pattern::Multiple(x) | Pattern::ZeroOrMore(x) => {
            lemma_printed_text(*x);
            let b = build_spec(*x);
            if !b.1 {
                lemma_group(b.0);
            }
            let q = if p is Optional {
                "?"@
            } else if p is Multiple {
                "+"@
            } else {
                "*"@
            };
            lemma_well_nested_char(q[0]);
            assert(q =~= seq![q[0]]);
            assert(build_spec(p).0 == make_atom(b.0, b.1) + q);
            lemma_well_nested_append(make_atom(b.0, b.1), q);
        },
        Pattern::Joined(v) => {
            let texts = build_texts(v);
            assert forall|i: int| 0 <= i < texts.len() implies well_nested(#[trigger] texts[i]) by {
                lemma_printed_text(v[i]);
            }
            lemma_concat_all_nested(texts);
            lemma_group(concat_all(texts));
        },
        Pattern::Alternative(v) => {
            let texts = build_texts(v);
            assert forall|i: int| 0 <= i < texts.len() implies well_nested(#[trigger] texts[i]) by {
                lemma_printed_text(v[i]);
            }
            let bar = "|"@;
            lemma_well_nested_char(bar[0]);
            assert(bar =~= seq![bar[0]]);
            if class_count(v) >= 2 {
                lemma_class_text(v);
                let others = other_texts(v, texts);
                lemma_other_texts_nested(v, texts);
                if others.len() != 0 {
                    let all = seq![class_text(v)] + others;
                    assert forall|i: int| 0 <= i < all.len() implies well_nested(#[trigger] all[i]) by {
                        if i > 0 {
                            assert(all[i] == others[i - 1]);
                        }
                    }
                    lemma_join_with_nested(all, bar);
                    lemma_group(join_with(all, bar));
                }
            } else {
                lemma_join_with_nested(texts, bar);
                lemma_group(join_with(texts, bar));
            }
        },
    }
}

/// Every printed regex is well nested: it closes each group and character
/// class that it opens, and no other.
pub proof fn lemma_printed_well_nested(p: Pattern)
    ensures
        well_nested(build_spec(p).0),
{
    lemma_printed_text(p);
}

/// What `?`, `+` or `*` repeats is printed as one atom, so that the
/// operator applies to all of it: for a pattern that is neither `NOTHING`
/// nor itself repeated, the text of `x?`, `x+` and `x*` is an atom followed
/// by the operator. A concatenation, whose text is not an atom, is put in a
/// group first.
pub proof fn lemma_repeated_part_is_atom(x: Pattern)
    requires
        !(x is Nothing),
        !is_quantifier(x),
    ensures
        exists|t: Seq<char>| is_atom(t) && build_spec(Pattern::Optional(Box::new(x))).0 == t + "?"@,
        exists|t: Seq<char>| is_atom(t) && build_spec(Pattern::Multiple(Box::new(x))).0 == t + "+"@,
        exists|t: Seq<char>| is_atom(t) && build_spec(Pattern::ZeroOrMore(Box::new(x))).0 == t + "*"@,
{
    lemma_printed_text(x);
    let b = build_spec(x);
    let t = make_atom(b.0, b.1);
    assert(is_atom(t) && build_spec(Pattern::Optional(Box::new(x))).0 == t + "?"@);
    assert(is_atom(t) && build_spec(Pattern::Multiple(Box::new(x))).0 == t + "+"@);
    assert(is_atom(t) && build_spec(Pattern::ZeroOrMore(Box::new(x))).0 == t + "*"@);
}

} // verus!
