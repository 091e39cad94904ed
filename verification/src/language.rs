//! What a pattern matches: the set of strings of each inlined expression,
//! and the proofs that simplification and flattening keep it.
//!
//! A class matches one character that `Builtin::contains` accepts.

use vstd::prelude::*;

use crate::inliner::{defs_of, inline_spec, without_chars, without_chars_each};
use crate::lexer::{lemma_contains_builtin_sound, Builtin};
use crate::parser::Definition;
use crate::optimizer::{
    flatten_each, flatten_spec, merge_insert, merge_insert_all, merge_spec, merge_step, merged,
    single_ascii,
};
use crate::processor::{
    alt_insert, alt_merge_spec, alt_step, finish_alternative, finish_join, flush, join_merge_spec,
    join_state, literal_pattern, optimize_each, optimize_spec, pending_text, splice_alternatives,
    splice_joins, without_nothing, wrap_multiple, wrap_optional, wrap_zero_or_more, MergeStep,
    Pattern, Pending, process_spec,
};

verus! {

/// Whether the pattern matches the whole of `s`.
pub open spec fn matches(p: Pattern, s: Seq<char>) -> bool
    decreases p, s.len(), 0int,
{
    match p {
        Pattern::Literal(l) => s == l,
        Pattern::Char(c) => s == seq![c],
        Pattern::Builtin(b) => s.len() == 1 && b.spec_contains(s[0]),
        Pattern::Alternative(v) => exists|i: int| #![trigger v[i]] 0 <= i < v.len() && matches(v[i], s),
        Pattern::Joined(v) => concat_matches(v, s),
        Pattern::Optional(x) => s.len() == 0 || matches(*x, s),
        Pattern::Multiple(x) => repeats(*x, s),
        Pattern::ZeroOrMore(x) => s.len() == 0 || repeats(*x, s),
        Pattern::Nothing => s.len() == 0,
    }
}

/// Whether `s` is a match of each part in turn: a match of all parts but
/// the last, then a match of the last.
pub open spec fn concat_matches(v: Seq<Pattern>, s: Seq<char>) -> bool
    decreases v, s.len(), 1int,
{
    if v.len() == 0 {
        s.len() == 0
    } else {
        exists|k: int|
            #![trigger s.take(k)]
            0 <= k <= s.len() && concat_matches(v.drop_last(), s.take(k)) && matches(
                v.last(),
                s.skip(k),
            )
    }
}

/// Whether `s` is one or more matches of `x`, one after the other.
pub open spec fn repeats(x: Pattern, s: Seq<char>) -> bool
    decreases x, s.len(), 1int,
{
    matches(x, s) || exists|i: int|
        #![trigger s.take(i)]
        1 <= i < s.len() && matches(x, s.take(i)) && repeats(x, s.skip(i))
}

/// Whether two patterns match the same strings.
pub open spec fn equivalent(a: Pattern, b: Pattern) -> bool {
    forall|s: Seq<char>| #[trigger] matches(a, s) == matches(b, s)
}

// ---------------------------------------------------------------------------
// Repetition
// ---------------------------------------------------------------------------

/// Two runs of repetitions, one after the other, are one run.
proof fn lemma_repeats_append(y: Pattern, a: Seq<char>, b: Seq<char>)
    requires
        repeats(y, a),
        repeats(y, b),
    ensures
        repeats(y, a + b),
    decreases a.len(),
{
    let s = a + b;
    if a.len() == 0 {
        assert(s =~= b);
    } else if b.len() == 0 {
        assert(s =~= a);
    } else if matches(y, a) {
        assert(s.take(a.len() as int) =~= a);
        assert(s.skip(a.len() as int) =~= b);
    } else {
        let i = choose|i: int|
            #![trigger a.take(i)]
            1 <= i < a.len() && matches(y, a.take(i)) && repeats(y, a.skip(i));
        lemma_repeats_append(y, a.skip(i), b);
        assert(s.take(i) =~= a.take(i));
        assert(s.skip(i) =~= a.skip(i) + b);
    }
}

/// Repetition is monotone in what is repeated.
proof fn lemma_repeats_implied(a: Pattern, b: Pattern, s: Seq<char>)
    requires
        forall|t: Seq<char>| #[trigger] matches(a, t) ==> matches(b, t),
        repeats(a, s),
    ensures
        repeats(b, s),
    decreases s.len(),
{
    if !matches(a, s) {
        let i = choose|i: int|
            #![trigger s.take(i)]
            1 <= i < s.len() && matches(a, s.take(i)) && repeats(a, s.skip(i));
        lemma_repeats_implied(a, b, s.skip(i));
        assert(matches(b, s.take(i)));
    }
}

proof fn lemma_repeats_congruent(a: Pattern, b: Pattern)
    requires
        equivalent(a, b),
    ensures
        forall|s: Seq<char>| #[trigger] repeats(a, s) == repeats(b, s),
{
    assert forall|s: Seq<char>| #[trigger] repeats(a, s) == repeats(b, s) by {
        if repeats(a, s) {
            lemma_repeats_implied(a, b, s);
        }
        if repeats(b, s) {
            lemma_repeats_implied(b, a, s);
        }
    }
}

/// Repeating `NOTHING` matches only the empty string.
proof fn lemma_repeats_nothing(s: Seq<char>)
    ensures
        repeats(Pattern::Nothing, s) == (s.len() == 0),
{
    if s.len() == 0 {
        assert(matches(Pattern::Nothing, s));
    } else if repeats(Pattern::Nothing, s) {
        assert(!matches(Pattern::Nothing, s));
        let i = choose|i: int|
            #![trigger s.take(i)]
            1 <= i < s.len() && matches(Pattern::Nothing, s.take(i)) && repeats(
                Pattern::Nothing,
                s.skip(i),
            );
        assert(s.take(i).len() == i);
        assert(false);
    }
}

/// `(y?)+` matches what `y*` matches.
proof fn lemma_repeats_optional(y: Pattern, s: Seq<char>)
    ensures
        repeats(Pattern::Optional(Box::new(y)), s) == (s.len() == 0 || repeats(y, s)),
    decreases s.len(),
{
    let o = Pattern::Optional(Box::new(y));
    if s.len() == 0 {
        assert(matches(o, s));
    } else if repeats(y, s) {
        lemma_repeats_implied(y, o, s);
    } else if repeats(o, s) && !matches(o, s) {
        let i = choose|i: int|
            #![trigger s.take(i)]
            1 <= i < s.len() && matches(o, s.take(i)) && repeats(o, s.skip(i));
        lemma_repeats_optional(y, s.skip(i));
        assert(matches(y, s.take(i)));
        assert(false);
    }
}

/// `(y+)+` matches what `y+` matches.
proof fn lemma_repeats_multiple(y: Pattern, s: Seq<char>)
    ensures
        repeats(Pattern::Multiple(Box::new(y)), s) == repeats(y, s),
    decreases s.len(),
{
    let m = Pattern::Multiple(Box::new(y));
    if repeats(y, s) {
        assert(matches(m, s));
    } else if repeats(m, s) && !matches(m, s) {
        let i = choose|i: int|
            #![trigger s.take(i)]
            1 <= i < s.len() && matches(m, s.take(i)) && repeats(m, s.skip(i));
        lemma_repeats_multiple(y, s.skip(i));
        lemma_repeats_append(y, s.take(i), s.skip(i));
        assert(s.take(i) + s.skip(i) =~= s);
        assert(false);
    }
}

/// `(y*)+` matches what `y*` matches.
proof fn lemma_repeats_zero_or_more(y: Pattern, s: Seq<char>)
    ensures
        repeats(Pattern::ZeroOrMore(Box::new(y)), s) == (s.len() == 0 || repeats(y, s)),
    decreases s.len(),
{
    let z = Pattern::ZeroOrMore(Box::new(y));
    if s.len() == 0 || repeats(y, s) {
        assert(matches(z, s));
    } else if repeats(z, s) && !matches(z, s) {
        let i = choose|i: int|
            #![trigger s.take(i)]
            1 <= i < s.len() && matches(z, s.take(i)) && repeats(z, s.skip(i));
        lemma_repeats_zero_or_more(y, s.skip(i));
        lemma_repeats_append(y, s.take(i), s.skip(i));
        assert(s.take(i) + s.skip(i) =~= s);
        assert(false);
    }
}

/// Simplifying `x?` keeps what it matches.
pub proof fn lemma_wrap_optional(x: Pattern)
    ensures
        equivalent(wrap_optional(x), Pattern::Optional(Box::new(x))),
{
    assert forall|s: Seq<char>| #[trigger]
        matches(wrap_optional(x), s) == matches(Pattern::Optional(Box::new(x)), s) by {
        match x {
            Pattern::Multiple(y) => {
                assert(matches(x, s) == repeats(*y, s));
            },
            _ => {},
        }
    }
}

/// Simplifying `x+` keeps what it matches.
pub proof fn lemma_wrap_multiple(x: Pattern)
    ensures
        equivalent(wrap_multiple(x), Pattern::Multiple(Box::new(x))),
{
    assert forall|s: Seq<char>| #[trigger]
        matches(wrap_multiple(x), s) == matches(Pattern::Multiple(Box::new(x)), s) by {
        match x {
            Pattern::Optional(y) => lemma_repeats_optional(*y, s),
            Pattern::Multiple(y) => lemma_repeats_multiple(*y, s),
            Pattern::ZeroOrMore(y) => lemma_repeats_zero_or_more(*y, s),
            Pattern::Nothing => lemma_repeats_nothing(s),
            _ => {},
        }
    }
}

/// Simplifying `x*` keeps what it matches.
pub proof fn lemma_wrap_zero_or_more(x: Pattern)
    ensures
        equivalent(wrap_zero_or_more(x), Pattern::ZeroOrMore(Box::new(x))),
{
    assert forall|s: Seq<char>| #[trigger]
        matches(wrap_zero_or_more(x), s) == matches(Pattern::ZeroOrMore(Box::new(x)), s) by {
        match x {
            Pattern::Optional(y) => lemma_repeats_optional(*y, s),
            Pattern::Multiple(y) => lemma_repeats_multiple(*y, s),
            Pattern::ZeroOrMore(y) => lemma_repeats_zero_or_more(*y, s),
            Pattern::Nothing => lemma_repeats_nothing(s),
            _ => {},
        }
    }
}

// ---------------------------------------------------------------------------
// Concatenation
// ---------------------------------------------------------------------------

/// Whether `s` splits into a match of the parts `a` followed by a match of
/// the parts `b`.
pub open spec fn split_matches(a: Seq<Pattern>, b: Seq<Pattern>, s: Seq<char>) -> bool {
    exists|m: int|
        #![trigger s.take(m)]
        0 <= m <= s.len() && concat_matches(a, s.take(m)) && concat_matches(b, s.skip(m))
}

proof fn lemma_concat_empty(s: Seq<char>)
    ensures
        concat_matches(seq![], s) == (s.len() == 0),
{
}

/// One part matches what the part alone matches.
proof fn lemma_concat_single(x: Pattern, s: Seq<char>)
    ensures
        concat_matches(seq![x], s) == matches(x, s),
{
    let v = seq![x];
    assert(v.drop_last() =~= seq![]);
    assert(v.last() == x);
    if matches(x, s) {
        assert(s.skip(0) =~= s);
        assert(s.take(0).len() == 0);
        assert(concat_matches(v.drop_last(), s.take(0)));
        assert(matches(v.last(), s.skip(0)));
    }
    if concat_matches(v, s) {
        let k = choose|k: int|
            #![trigger s.take(k)]
            0 <= k <= s.len() && concat_matches(v.drop_last(), s.take(k)) && matches(
                v.last(),
                s.skip(k),
            );
        assert(s.take(k).len() == 0);
        assert(s.skip(k) =~= s);
    }
}

/// The parts followed by one more part.
proof fn lemma_concat_push(v: Seq<Pattern>, x: Pattern, s: Seq<char>)
    ensures
        concat_matches(v.push(x), s) == exists|k: int|
            #![trigger s.take(k)]
            0 <= k <= s.len() && concat_matches(v, s.take(k)) && matches(x, s.skip(k)),
{
    assert(v.push(x).drop_last() =~= v);
}

/// Matching the parts of `a + b` is matching `a`, then `b`.
proof fn lemma_concat_append(a: Seq<Pattern>, b: Seq<Pattern>, s: Seq<char>)
    ensures
        concat_matches(a + b, s) == split_matches(a, b, s),
    decreases b.len(),
{
    if b.len() == 0 {
        assert(a + b =~= a);
        if concat_matches(a, s) {
            assert(s.take(s.len() as int) =~= s);
            assert(s.skip(s.len() as int).len() == 0);
        }
        if split_matches(a, b, s) {
            let m = choose|m: int|
                #![trigger s.take(m)]
                0 <= m <= s.len() && concat_matches(a, s.take(m)) && concat_matches(b, s.skip(m));
            assert(s.skip(m).len() == 0);
            assert(s.take(m) =~= s);
        }
    } else {
        let b1 = b.drop_last();
        let x = b.last();
        assert((a + b).drop_last() =~= a + b1);
        assert((a + b).last() == x);
        if concat_matches(a + b, s) {
            let k = choose|k: int|
                #![trigger s.take(k)]
                0 <= k <= s.len() && concat_matches((a + b).drop_last(), s.take(k)) && matches(
                    (a + b).last(),
                    s.skip(k),
                );
            let t = s.take(k);
            lemma_concat_append(a, b1, t);
            let m = choose|m: int|
                #![trigger t.take(m)]
                0 <= m <= t.len() && concat_matches(a, t.take(m)) && concat_matches(b1, t.skip(m));
            let u = s.skip(m);
            assert(t.take(m) =~= s.take(m));
            assert(u.take(k - m) =~= t.skip(m));
            assert(u.skip(k - m) =~= s.skip(k));
            assert(concat_matches(b, u));
            assert(split_matches(a, b, s));
        }
        if split_matches(a, b, s) {
            let m = choose|m: int|
                #![trigger s.take(m)]
                0 <= m <= s.len() && concat_matches(a, s.take(m)) && concat_matches(b, s.skip(m));
            let u = s.skip(m);
            let j = choose|j: int|
                #![trigger u.take(j)]
                0 <= j <= u.len() && concat_matches(b.drop_last(), u.take(j)) && matches(
                    b.last(),
                    u.skip(j),
                );
            let k = m + j;
            let t = s.take(k);
            assert(t.take(m) =~= s.take(m));
            assert(t.skip(m) =~= u.take(j));
            assert(split_matches(a, b1, t));
            lemma_concat_append(a, b1, t);
            assert(s.skip(k) =~= u.skip(j));
            assert(concat_matches(a + b, s));
        }
    }
}

/// Parts that match alike may stand for each other at the end.
proof fn lemma_concat_replace_tail(a: Seq<Pattern>, b: Seq<Pattern>, c: Seq<Pattern>, s: Seq<char>)
    requires
        forall|t: Seq<char>| #[trigger] concat_matches(b, t) == concat_matches(c, t),
    ensures
        concat_matches(a + b, s) == concat_matches(a + c, s),
{
    lemma_concat_append(a, b, s);
    lemma_concat_append(a, c, s);
    if split_matches(a, b, s) {
        let m = choose|m: int|
            #![trigger s.take(m)]
            0 <= m <= s.len() && concat_matches(a, s.take(m)) && concat_matches(b, s.skip(m));
        assert(concat_matches(c, s.skip(m)));
    }
    if split_matches(a, c, s) {
        let m = choose|m: int|
            #![trigger s.take(m)]
            0 <= m <= s.len() && concat_matches(a, s.take(m)) && concat_matches(c, s.skip(m));
        assert(concat_matches(b, s.skip(m)));
    }
}

/// Parts that match alike may stand for each other at the start.
proof fn lemma_concat_replace_head(a: Seq<Pattern>, c: Seq<Pattern>, b: Seq<Pattern>, s: Seq<char>)
    requires
        forall|t: Seq<char>| #[trigger] concat_matches(a, t) == concat_matches(c, t),
    ensures
        concat_matches(a + b, s) == concat_matches(c + b, s),
{
    lemma_concat_append(a, b, s);
    lemma_concat_append(c, b, s);
    if split_matches(a, b, s) {
        let m = choose|m: int|
            #![trigger s.take(m)]
            0 <= m <= s.len() && concat_matches(a, s.take(m)) && concat_matches(b, s.skip(m));
        assert(concat_matches(c, s.take(m)));
    }
    if split_matches(c, b, s) {
        let m = choose|m: int|
            #![trigger s.take(m)]
            0 <= m <= s.len() && concat_matches(c, s.take(m)) && concat_matches(b, s.skip(m));
        assert(concat_matches(a, s.take(m)));
    }
}

/// Parts that match alike, one for one, match the same strings in turn.
proof fn lemma_concat_congruent(v: Seq<Pattern>, w: Seq<Pattern>, s: Seq<char>)
    requires
        v.len() == w.len(),
        forall|i: int| 0 <= i < v.len() ==> equivalent(#[trigger] v[i], w[i]),
    ensures
        concat_matches(v, s) == concat_matches(w, s),
    decreases v.len(),
{
    if v.len() == 0 {
        lemma_concat_empty(s);
        assert(v =~= w);
    } else {
        let v1 = v.drop_last();
        let w1 = w.drop_last();
        assert forall|t: Seq<char>| #[trigger] concat_matches(v1, t) == concat_matches(w1, t) by {
            assert forall|i: int| 0 <= i < v1.len() implies equivalent(#[trigger] v1[i], w1[i]) by {
                assert(v1[i] == v[i] && w1[i] == w[i]);
            }
            lemma_concat_congruent(v1, w1, t);
        }
        assert(equivalent(v[v.len() - 1], w[w.len() - 1]));
        assert(v.last() == v[v.len() - 1]);
        assert(w.last() == w[w.len() - 1]);
        if concat_matches(v, s) {
            let k = choose|k: int|
                #![trigger s.take(k)]
                0 <= k <= s.len() && concat_matches(v1, s.take(k)) && matches(v.last(), s.skip(k));
            assert(concat_matches(w1, s.take(k)));
            assert(matches(w[w.len() - 1], s.skip(k)));
            assert(concat_matches(w, s));
        }
        if concat_matches(w, s) {
            let k = choose|k: int|
                #![trigger s.take(k)]
                0 <= k <= s.len() && concat_matches(w1, s.take(k)) && matches(w.last(), s.skip(k));
            assert(concat_matches(v1, s.take(k)));
            assert(matches(v[v.len() - 1], s.skip(k)));
            assert(concat_matches(v, s));
        }
    }
}

/// Opening up nested concatenations keeps what the parts match.
proof fn lemma_splice_joins(v: Seq<Pattern>, s: Seq<char>)
    ensures
        concat_matches(splice_joins(v), s) == concat_matches(v, s),
    decreases v.len(),
{
    if v.len() > 0 {
        let v1 = v.drop_last();
        let x = v.last();
        let piece = match x {
            Pattern::Joined(w) => w,
            _ => seq![x],
        };
        assert(splice_joins(v) == splice_joins(v1) + piece);
        assert forall|t: Seq<char>| #[trigger] concat_matches(splice_joins(v1), t) == concat_matches(v1, t) by {
            lemma_splice_joins(v1, t);
        }
        lemma_concat_replace_head(splice_joins(v1), v1, piece, s);
        assert forall|t: Seq<char>| #[trigger] concat_matches(piece, t) == concat_matches(seq![x], t) by {
            lemma_concat_single(x, t);
        }
        lemma_concat_replace_tail(v1, piece, seq![x], s);
        assert(v1 + seq![x] =~= v);
    }
}

/// Whether `s` is a match of the parts `out` followed by exactly `text`.
pub open spec fn text_after(out: Seq<Pattern>, text: Seq<char>, s: Seq<char>) -> bool {
    exists|k: int|
        #![trigger s.take(k)]
        0 <= k <= s.len() && concat_matches(out, s.take(k)) && s.skip(k) == text
}

proof fn lemma_text_after_empty(out: Seq<Pattern>, s: Seq<char>)
    ensures
        text_after(out, Seq::<char>::empty(), s) == concat_matches(out, s),
{
    if concat_matches(out, s) {
        assert(s.take(s.len() as int) =~= s);
        assert(s.skip(s.len() as int) =~= seq![]);
    }
    if text_after(out, Seq::<char>::empty(), s) {
        let k = choose|k: int|
            #![trigger s.take(k)]
            0 <= k <= s.len() && concat_matches(out, s.take(k)) && s.skip(k) == Seq::<char>::empty();
        assert(s.skip(k).len() == 0);
        assert(s.take(k) =~= s);
    }
}

/// The parts kept so far followed by the gathered text.
proof fn lemma_flush(out: Seq<Pattern>, p: Pending, s: Seq<char>)
    ensures
        concat_matches(flush(out, p), s) == text_after(out, pending_text(p), s),
{
    match p {
        Pending::Empty => lemma_text_after_empty(out, s),
        Pending::Text(x) => lemma_concat_push(out, Pattern::Literal(x), s),
        Pending::One(c) => lemma_concat_push(out, Pattern::Char(c), s),
    }
}

/// Text that follows the text already gathered joins it.
proof fn lemma_text_after_extend(out: Seq<Pattern>, text: Seq<char>, l: Seq<char>, s: Seq<char>)
    ensures
        (exists|j: int|
            #![trigger s.take(j)]
            0 <= j <= s.len() && text_after(out, text, s.take(j)) && s.skip(j) == l) == text_after(
            out,
            text + l,
            s,
        ),
{
    if exists|j: int|
        #![trigger s.take(j)]
        0 <= j <= s.len() && text_after(out, text, s.take(j)) && s.skip(j) == l {
        let j = choose|j: int|
            #![trigger s.take(j)]
            0 <= j <= s.len() && text_after(out, text, s.take(j)) && s.skip(j) == l;
        let t = s.take(j);
        let k = choose|k: int|
            #![trigger t.take(k)]
            0 <= k <= t.len() && concat_matches(out, t.take(k)) && t.skip(k) == text;
        assert(t.take(k) =~= s.take(k));
        assert(s.skip(k) =~= t.skip(k) + s.skip(j));
        assert(text_after(out, text + l, s));
    }
    if text_after(out, text + l, s) {
        let k = choose|k: int|
            #![trigger s.take(k)]
            0 <= k <= s.len() && concat_matches(out, s.take(k)) && s.skip(k) == text + l;
        assert(s.skip(k).len() == text.len() + l.len());
        let j = k + text.len();
        assert(j <= s.len());
        let t = s.take(j);
        assert(t.len() == j);
        assert forall|i: int| 0 <= i < text.len() implies t.skip(k)[i] == text[i] by {
            assert(t.skip(k)[i] == s[k + i]);
            assert(s.skip(k)[i] == s[k + i]);
            assert((text + l)[i] == text[i]);
        }
        assert(t.take(k) =~= s.take(k));
        assert(t.skip(k) =~= text);
        assert(text_after(out, text, t));
        assert forall|i: int| 0 <= i < l.len() implies s.skip(j)[i] == l[i] by {
            assert(s.skip(j)[i] == s[j + i]);
            assert(s.skip(k)[text.len() + i] == s[j + i]);
            assert((text + l)[text.len() + i] == l[i]);
        }
        assert(s.skip(j) =~= l);
    }
}

/// What the parts read so far match is what the kept parts followed by the
/// gathered text match.
proof fn lemma_join_state(input: Seq<Pattern>, s: Seq<char>)
    ensures
        concat_matches(input, s) == text_after(join_state(input).0, pending_text(join_state(input).1), s),
    decreases input.len(),
{
    if input.len() == 0 {
        assert(join_state(input) == (Seq::<Pattern>::empty(), Pending::Empty));
        lemma_text_after_empty(seq![], s);
    } else {
        let p = input.drop_last();
        let item = input.last();
        let st = join_state(p);
        let out = st.0;
        let pend = pending_text(st.1);
        assert forall|t: Seq<char>| #[trigger] concat_matches(p, t) == text_after(out, pend, t) by {
            lemma_join_state(p, t);
        }
        assert(p.push(item) =~= input);
        lemma_concat_push(p, item, s);
        match item {
            Pattern::Nothing => {
                if concat_matches(input, s) {
                    let j = choose|j: int|
                        #![trigger s.take(j)]
                        0 <= j <= s.len() && concat_matches(p, s.take(j)) && matches(item, s.skip(j));
                    assert(s.take(j) =~= s);
                }
                if concat_matches(p, s) {
                    assert(s.take(s.len() as int) =~= s);
                    assert(matches(item, s.skip(s.len() as int)));
                }
            },
            Pattern::Literal(l) => {
                lemma_text_after_extend(out, pend, l, s);
            },
            Pattern::Char(c) => {
                lemma_text_after_extend(out, pend, seq![c], s);
                assert(pending_text(join_state(input).1) =~= pend + seq![c]);
            },
            _ => {
                let f = flush(out, st.1);
                assert(join_state(input) == (f.push(item), Pending::Empty));
                lemma_text_after_empty(f.push(item), s);
                lemma_concat_push(f, item, s);
                assert forall|t: Seq<char>| #[trigger] concat_matches(f, t) == concat_matches(p, t) by {
                    lemma_flush(out, st.1, t);
                }
            },
        }
    }
}

/// `join_merge` keeps what the parts match in turn: merging neighbouring
/// texts and dropping `NOTHING` changes no string that the concatenation
/// matches.
pub proof fn lemma_join_merge(input: Seq<Pattern>, s: Seq<char>)
    ensures
        concat_matches(join_merge_spec(input), s) == concat_matches(input, s),
{
    lemma_flush(join_state(input).0, join_state(input).1, s);
    lemma_join_state(input, s);
}

proof fn lemma_finish_join_at(clean: Seq<Pattern>, s: Seq<char>)
    ensures
        matches(finish_join(clean), s) == matches(Pattern::Joined(clean), s),
{
    if clean.len() == 0 {
        lemma_concat_empty(s);
        assert(clean =~= seq![]);
    } else if clean.len() == 1 {
        assert(clean =~= seq![clean[0]]);
        lemma_concat_single(clean[0], s);
    }
}

/// The merged parts as one pattern match what they match in turn.
proof fn lemma_finish_join(clean: Seq<Pattern>)
    ensures
        equivalent(finish_join(clean), Pattern::Joined(clean)),
{
    assert forall|s: Seq<char>| #[trigger]
        matches(finish_join(clean), s) == matches(Pattern::Joined(clean), s) by {
        lemma_finish_join_at(clean, s);
    }
}

// ---------------------------------------------------------------------------
// Alternatives
// ---------------------------------------------------------------------------

/// Whether one of the alternatives matches `s`.
pub open spec fn any_matches(v: Seq<Pattern>, s: Seq<char>) -> bool {
    exists|i: int| #![trigger v[i]] 0 <= i < v.len() && matches(v[i], s)
}

proof fn lemma_matches_alternative(v: Seq<Pattern>, s: Seq<char>)
    ensures
        matches(Pattern::Alternative(v), s) == any_matches(v, s),
{
    let p = Pattern::Alternative(v);
    assert(p->Alternative_0 == v);
    if matches(p, s) {
        let i = choose|i: int| #![trigger v[i]] 0 <= i < v.len() && matches(v[i], s);
        assert(matches(v[i], s));
    }
    if any_matches(v, s) {
        let i = choose|i: int| #![trigger v[i]] 0 <= i < v.len() && matches(v[i], s);
        assert(matches(v[i], s));
    }
}

proof fn lemma_any_append(a: Seq<Pattern>, b: Seq<Pattern>, s: Seq<char>)
    ensures
        any_matches(a + b, s) == (any_matches(a, s) || any_matches(b, s)),
{
    let c = a + b;
    if any_matches(c, s) {
        let i = choose|i: int| #![trigger c[i]] 0 <= i < c.len() && matches(c[i], s);
        if i < a.len() {
            assert(c[i] == a[i]);
        } else {
            assert(c[i] == b[i - a.len()]);
        }
    }
    if any_matches(a, s) {
        let i = choose|i: int| #![trigger a[i]] 0 <= i < a.len() && matches(a[i], s);
        assert(c[i] == a[i]);
    }
    if any_matches(b, s) {
        let i = choose|i: int| #![trigger b[i]] 0 <= i < b.len() && matches(b[i], s);
        assert(c[i + a.len()] == b[i]);
    }
}

proof fn lemma_any_single(x: Pattern, s: Seq<char>)
    ensures
        any_matches(seq![x], s) == matches(x, s),
{
    if matches(x, s) {
        assert(seq![x][0] == x);
    }
}

/// Alternatives that match alike, one for one, match the same strings.
proof fn lemma_any_congruent(v: Seq<Pattern>, w: Seq<Pattern>, s: Seq<char>)
    requires
        v.len() == w.len(),
        forall|i: int| 0 <= i < v.len() ==> equivalent(#[trigger] v[i], w[i]),
    ensures
        any_matches(v, s) == any_matches(w, s),
{
    if any_matches(v, s) {
        let i = choose|i: int| #![trigger v[i]] 0 <= i < v.len() && matches(v[i], s);
        assert(equivalent(v[i], w[i]));
        assert(matches(w[i], s));
    }
    if any_matches(w, s) {
        let i = choose|i: int| #![trigger w[i]] 0 <= i < w.len() && matches(w[i], s);
        assert(equivalent(v[i], w[i]));
        assert(matches(v[i], s));
    }
}

/// Opening up nested alternatives keeps what the alternatives match.
proof fn lemma_splice_alternatives(v: Seq<Pattern>, s: Seq<char>)
    ensures
        any_matches(splice_alternatives(v), s) == any_matches(v, s),
    decreases v.len(),
{
    if v.len() > 0 {
        let v1 = v.drop_last();
        let x = v.last();
        let piece = match x {
            Pattern::Alternative(w) => w,
            _ => seq![x],
        };
        assert(splice_alternatives(v) == splice_alternatives(v1) + piece);
        lemma_splice_alternatives(v1, s);
        lemma_any_append(splice_alternatives(v1), piece, s);
        lemma_any_single(x, s);
        assert(v1 + seq![x] =~= v);
        lemma_any_append(v1, seq![x], s);
    }
}

/// A class that contains another matches every string that the other does.
proof fn lemma_class_covers(e: Pattern, b: Builtin, s: Seq<char>)
    requires
        matches(e, s),
        match e {
            Pattern::Builtin(x) => b.spec_contains_builtin(x),
            Pattern::Char(c) => b.spec_contains(c),
            Pattern::Literal(l) => single_ascii(l) matches Some(c) && b.spec_contains(c),
            _ => false,
        },
    ensures
        matches(Pattern::Builtin(b), s),
{
    match e {
        Pattern::Builtin(x) => lemma_contains_builtin_sound(b, x, s[0]),
        Pattern::Char(c) => assert(s[0] == c),
        Pattern::Literal(l) => assert(s[0] == l[0]),
        _ => {},
    }
}

/// Adding an alternative: the kept ones and the new one match what they
/// matched before, together.
proof fn lemma_alt_insert(out: Seq<Pattern>, new: Pattern, j: int, s: Seq<char>)
    requires
        0 <= j,
    ensures
        any_matches(alt_insert(out, new, j), s) == (any_matches(out, s) || matches(new, s)),
    decreases out.len() - j,
{
    if j >= out.len() {
        lemma_any_append(out, seq![new], s);
        lemma_any_single(new, s);
        assert(out.push(new) =~= out + seq![new]);
    } else {
        match alt_step(out[j], new) {
            MergeStep::Absorbed => {
                if matches(new, s) && new != out[j] {
                    match new {
                        Pattern::Builtin(n) => lemma_class_covers(new, out[j]->Builtin_0, s),
                        Pattern::Char(n) => lemma_class_covers(new, out[j]->Builtin_0, s),
                        _ => {},
                    }
                }
            },
            MergeStep::Replaced(b) => {
                let o2 = out.update(j, Pattern::Builtin(b));
                assert(new == Pattern::Builtin(b));
                if matches(out[j], s) {
                    lemma_class_covers(out[j], b, s);
                }
                if any_matches(out, s) {
                    let i = choose|i: int| #![trigger out[i]] 0 <= i < out.len() && matches(out[i], s);
                    if i != j {
                        assert(o2[i] == out[i]);
                    }
                }
                if any_matches(o2, s) {
                    let i = choose|i: int| #![trigger o2[i]] 0 <= i < o2.len() && matches(o2[i], s);
                    if i != j {
                        assert(o2[i] == out[i]);
                    }
                }
                if matches(new, s) {
                    assert(o2[j] == new);
                }
            },
            MergeStep::Unrelated => {
                lemma_alt_insert(out, new, j + 1, s);
            },
        }
    }
}

/// `alt_merge` keeps what the alternatives match together: a string matches
/// one of the kept alternatives exactly when it matches one of the input.
pub proof fn lemma_alt_merge(input: Seq<Pattern>, s: Seq<char>)
    ensures
        any_matches(alt_merge_spec(input), s) == any_matches(input, s),
    decreases input.len(),
{
    if input.len() > 0 {
        lemma_alt_merge(input.drop_last(), s);
        lemma_alt_insert(alt_merge_spec(input.drop_last()), input.last(), 0, s);
        assert(input.drop_last() + seq![input.last()] =~= input);
        lemma_any_append(input.drop_last(), seq![input.last()], s);
        lemma_any_single(input.last(), s);
    }
}

/// Leaving out `NOTHING` loses only the empty string, if it was there.
proof fn lemma_without_nothing(v: Seq<Pattern>, s: Seq<char>)
    ensures
        any_matches(v, s) == (any_matches(without_nothing(v), s) || (v.contains(Pattern::Nothing)
            && s.len() == 0)),
    decreases v.len(),
{
    if v.len() > 0 {
        let v1 = v.drop_last();
        let x = v.last();
        lemma_without_nothing(v1, s);
        assert(v1 + seq![x] =~= v);
        lemma_any_append(v1, seq![x], s);
        lemma_any_single(x, s);
        if x != Pattern::Nothing {
            assert(without_nothing(v) == without_nothing(v1).push(x));
            assert(without_nothing(v1).push(x) =~= without_nothing(v1) + seq![x]);
            lemma_any_append(without_nothing(v1), seq![x], s);
        }
        if v.contains(Pattern::Nothing) && x != Pattern::Nothing {
            let i = choose|i: int| 0 <= i < v.len() && v[i] == Pattern::Nothing;
            assert(v1[i] == v[i]);
        }
        if v1.contains(Pattern::Nothing) {
            let i = choose|i: int| 0 <= i < v1.len() && v1[i] == Pattern::Nothing;
            assert(v[i] == v1[i]);
        }
        if x == Pattern::Nothing {
            assert(v[v.len() - 1] == x);
        }
    }
}

proof fn lemma_finish_alternative_at(clean: Seq<Pattern>, s: Seq<char>)
    ensures
        matches(finish_alternative(clean), s) == matches(Pattern::Alternative(clean), s),
{
    lemma_matches_alternative(clean, s);
    if clean.len() == 1 {
        assert(clean =~= seq![clean[0]]);
        lemma_any_single(clean[0], s);
    } else if clean.contains(Pattern::Nothing) {
        let rest = without_nothing(clean);
        let x = if rest.len() == 1 {
            rest[0]
        } else {
            Pattern::Alternative(rest)
        };
        if rest.len() == 1 {
            assert(rest =~= seq![rest[0]]);
            lemma_any_single(rest[0], s);
            assert(matches(x, s) == any_matches(rest, s));
        } else {
            lemma_matches_alternative(rest, s);
        }
        lemma_wrap_optional(x);
        assert(matches(wrap_optional(x), s) == matches(Pattern::Optional(Box::new(x)), s));
        lemma_without_nothing(clean, s);
    }
}

/// The merged alternatives as one pattern match what they match together.
proof fn lemma_finish_alternative(clean: Seq<Pattern>)
    ensures
        equivalent(finish_alternative(clean), Pattern::Alternative(clean)),
{
    assert forall|s: Seq<char>| #[trigger]
        matches(finish_alternative(clean), s) == matches(Pattern::Alternative(clean), s) by {
        lemma_finish_alternative_at(clean, s);
    }
}

/// A literal as simplified matches the same text.
proof fn lemma_literal_pattern(l: Seq<char>)
    ensures
        equivalent(literal_pattern(l), Pattern::Literal(l)),
{
    assert forall|s: Seq<char>| #[trigger]
        matches(literal_pattern(l), s) == matches(Pattern::Literal(l), s) by {
        if l.len() == 0 {
            if s.len() == 0 {
                assert(s =~= l);
            }
        } else if l.len() == 1 && (l[0] as u32) < 0x80 {
            assert(l =~= seq![l[0]]);
        }
    }
}

// ---------------------------------------------------------------------------
// Simplification keeps what a pattern matches
// ---------------------------------------------------------------------------

proof fn lemma_equivalent_symmetric(a: Pattern, b: Pattern)
    requires
        equivalent(a, b),
    ensures
        equivalent(b, a),
{
}

proof fn lemma_equivalent_transitive(a: Pattern, b: Pattern, c: Pattern)
    requires
        equivalent(a, b),
        equivalent(b, c),
    ensures
        equivalent(a, c),
{
    assert forall|s: Seq<char>| #[trigger] matches(a, s) == matches(c, s) by {
        assert(matches(a, s) == matches(b, s));
        assert(matches(b, s) == matches(c, s));
    }
}

/// `?`, `+` and `*` around patterns that match alike match alike.
proof fn lemma_quantifiers_congruent(a: Pattern, b: Pattern)
    requires
        equivalent(a, b),
    ensures
        equivalent(Pattern::Optional(Box::new(a)), Pattern::Optional(Box::new(b))),
        equivalent(Pattern::Multiple(Box::new(a)), Pattern::Multiple(Box::new(b))),
        equivalent(Pattern::ZeroOrMore(Box::new(a)), Pattern::ZeroOrMore(Box::new(b))),
{
    lemma_repeats_congruent(a, b);
    assert forall|s: Seq<char>| #[trigger] matches(Pattern::Optional(Box::new(a)), s) == matches(
        Pattern::Optional(Box::new(b)),
        s,
    ) by {
        assert(matches(a, s) == matches(b, s));
    }
    assert forall|s: Seq<char>| #[trigger] matches(Pattern::Multiple(Box::new(a)), s) == matches(
        Pattern::Multiple(Box::new(b)),
        s,
    ) by {
        assert(repeats(a, s) == repeats(b, s));
    }
    assert forall|s: Seq<char>| #[trigger] matches(Pattern::ZeroOrMore(Box::new(a)), s) == matches(
        Pattern::ZeroOrMore(Box::new(b)),
        s,
    ) by {
        assert(repeats(a, s) == repeats(b, s));
    }
}

/// Simplification keeps the strings a pattern matches: `optimize` gives a
/// pattern that matches exactly the strings that its argument matches (a
/// class matching the characters that `Builtin::contains` accepts).
pub proof fn lemma_optimize_keeps_matches(p: Pattern)
    ensures
        equivalent(optimize_spec(p), p),
    decreases p,
{
    match p {
        Pattern::Literal(l) => lemma_literal_pattern(l),
        Pattern::Optional(inner) => {
            lemma_optimize_keeps_matches(*inner);
            let o = optimize_spec(*inner);
            lemma_wrap_optional(o);
            lemma_quantifiers_congruent(o, *inner);
            lemma_equivalent_transitive(wrap_optional(o), Pattern::Optional(Box::new(o)), p);
        },
        Pattern::Multiple(inner) => {
            lemma_optimize_keeps_matches(*inner);
            let o = optimize_spec(*inner);
            lemma_wrap_multiple(o);
            lemma_quantifiers_congruent(o, *inner);
            lemma_equivalent_transitive(wrap_multiple(o), Pattern::Multiple(Box::new(o)), p);
        },
        Pattern::ZeroOrMore(inner) => {
            lemma_optimize_keeps_matches(*inner);
            let o = optimize_spec(*inner);
            lemma_wrap_zero_or_more(o);
            lemma_quantifiers_congruent(o, *inner);
            lemma_equivalent_transitive(
                wrap_zero_or_more(o),
                Pattern::ZeroOrMore(Box::new(o)),
                p,
            );
        },
        Pattern::Alternative(v) => {
            let o = optimize_each(v);
            assert forall|i: int| 0 <= i < o.len() implies equivalent(#[trigger] o[i], v[i]) by {
                lemma_optimize_keeps_matches(v[i]);
            }
            let sp = splice_alternatives(o);
            let clean = alt_merge_spec(sp);
            lemma_finish_alternative(clean);
            assert forall|s: Seq<char>| #[trigger] matches(optimize_spec(p), s) == matches(p, s) by {
                lemma_matches_alternative(clean, s);
                lemma_matches_alternative(v, s);
                lemma_alt_merge(sp, s);
                lemma_splice_alternatives(o, s);
                lemma_any_congruent(o, v, s);
            }
        },
        Pattern::Joined(v) => {
            let o = optimize_each(v);
            assert forall|i: int| 0 <= i < o.len() implies equivalent(#[trigger] o[i], v[i]) by {
                lemma_optimize_keeps_matches(v[i]);
            }
            let sp = splice_joins(o);
            let clean = join_merge_spec(sp);
            lemma_finish_join(clean);
            assert forall|s: Seq<char>| #[trigger] matches(optimize_spec(p), s) == matches(p, s) by {
                lemma_join_merge(sp, s);
                lemma_splice_joins(o, s);
                lemma_concat_congruent(o, v, s);
            }
        },
        _ => {},
    }
}

// ---------------------------------------------------------------------------
// Flattening keeps what a pattern matches
// ---------------------------------------------------------------------------

/// Adding an alternative in the flattening pass: the kept ones and the new
/// one match what they matched before, together.
proof fn lemma_merge_insert(out: Seq<Pattern>, new: Pattern, j: int, s: Seq<char>)
    requires
        0 <= j,
    ensures
        any_matches(merge_insert(out, new, j), s) == (any_matches(out, s) || matches(new, s)),
    decreases out.len() - j,
{
    if j >= out.len() {
        lemma_any_append(out, seq![new], s);
        lemma_any_single(new, s);
        assert(out.push(new) =~= out + seq![new]);
    } else {
        match merge_step(out[j], new) {
            MergeStep::Absorbed => {
                if matches(new, s) && new != out[j] {
                    match new {
                        Pattern::Builtin(n) => lemma_class_covers(new, out[j]->Builtin_0, s),
                        Pattern::Literal(n) => lemma_class_covers(new, out[j]->Builtin_0, s),
                        _ => {},
                    }
                }
            },
            MergeStep::Replaced(b) => {
                let o2 = out.update(j, Pattern::Builtin(b));
                assert(new == Pattern::Builtin(b));
                if matches(out[j], s) {
                    lemma_class_covers(out[j], b, s);
                }
                if any_matches(out, s) {
                    let i = choose|i: int| #![trigger out[i]] 0 <= i < out.len() && matches(out[i], s);
                    if i != j {
                        assert(o2[i] == out[i]);
                    }
                }
                if any_matches(o2, s) {
                    let i = choose|i: int| #![trigger o2[i]] 0 <= i < o2.len() && matches(o2[i], s);
                    if i != j {
                        assert(o2[i] == out[i]);
                    }
                }
                if matches(new, s) {
                    assert(o2[j] == new);
                }
            },
            MergeStep::Unrelated => {
                lemma_merge_insert(out, new, j + 1, s);
            },
        }
    }
}

proof fn lemma_merge_insert_all(out: Seq<Pattern>, items: Seq<Pattern>, s: Seq<char>)
    ensures
        any_matches(merge_insert_all(out, items), s) == (any_matches(out, s) || any_matches(items, s)),
    decreases items.len(),
{
    if items.len() > 0 {
        let rest = items.drop_last();
        lemma_merge_insert_all(out, rest, s);
        lemma_merge_insert(merge_insert_all(out, rest), items.last(), 0, s);
        assert(rest + seq![items.last()] =~= items);
        lemma_any_append(rest, seq![items.last()], s);
        lemma_any_single(items.last(), s);
    }
}

proof fn lemma_merged(fs: Seq<Pattern>, s: Seq<char>)
    ensures
        any_matches(merged(fs), s) == any_matches(fs, s),
    decreases fs.len(),
{
    if fs.len() > 0 {
        let rest = fs.drop_last();
        let x = fs.last();
        lemma_merged(rest, s);
        assert(rest + seq![x] =~= fs);
        lemma_any_append(rest, seq![x], s);
        lemma_any_single(x, s);
        match x {
            Pattern::Alternative(inner) => {
                lemma_merge_insert_all(merged(rest), inner, s);
                lemma_matches_alternative(inner, s);
            },
            _ => {
                lemma_merge_insert(merged(rest), x, 0, s);
            },
        }
    }
}

/// Merging the alternatives of the flattening pass keeps what they match
/// together.
pub proof fn lemma_merge_keeps_matches(input: Seq<Pattern>, s: Seq<char>)
    ensures
        any_matches(merge_spec(input), s) == any_matches(input, s),
{
    let f = flatten_each(input);
    assert forall|i: int| 0 <= i < f.len() implies equivalent(#[trigger] f[i], input[i]) by {
        lemma_flatten_keeps_matches(input[i]);
    }
    lemma_merged(f, s);
    lemma_any_congruent(f, input, s);
}

/// Flattening keeps the strings a pattern matches: `flatten` gives a
/// pattern that matches exactly the strings that its argument matches.
pub proof fn lemma_flatten_keeps_matches(p: Pattern)
    ensures
        equivalent(flatten_spec(p), p),
    decreases p,
{
    match p {
        Pattern::Optional(inner) => {
            lemma_flatten_keeps_matches(*inner);
            let f = flatten_spec(*inner);
            lemma_quantifiers_congruent(f, *inner);
            if f != Pattern::Nothing {
                assert(flatten_spec(p) == wrap_optional(f));
                lemma_wrap_optional(f);
            }
            lemma_equivalent_transitive(flatten_spec(p), Pattern::Optional(Box::new(f)), p);
        },
        Pattern::Multiple(inner) => {
            lemma_flatten_keeps_matches(*inner);
            let f = flatten_spec(*inner);
            lemma_quantifiers_congruent(f, *inner);
            if f != Pattern::Nothing {
                assert(flatten_spec(p) == wrap_multiple(f));
                lemma_wrap_multiple(f);
            }
            lemma_equivalent_transitive(flatten_spec(p), Pattern::Multiple(Box::new(f)), p);
        },
        Pattern::ZeroOrMore(inner) => {
            lemma_flatten_keeps_matches(*inner);
            let f = flatten_spec(*inner);
            lemma_quantifiers_congruent(f, *inner);
            if f != Pattern::Nothing {
                assert(flatten_spec(p) == wrap_zero_or_more(f));
                lemma_wrap_zero_or_more(f);
            }
            lemma_equivalent_transitive(flatten_spec(p), Pattern::ZeroOrMore(Box::new(f)), p);
        },
        Pattern::Alternative(v) => {
            let f = flatten_each(v);
            assert forall|i: int| 0 <= i < f.len() implies equivalent(#[trigger] f[i], v[i]) by {
                lemma_flatten_keeps_matches(v[i]);
            }
            let m = merged(f);
            assert forall|s: Seq<char>| #[trigger] matches(flatten_spec(p), s) == matches(p, s) by {
                lemma_matches_alternative(v, s);
                lemma_matches_alternative(m, s);
                lemma_merged(f, s);
                lemma_any_congruent(f, v, s);
                if m.len() == 1 {
                    assert(m =~= seq![m[0]]);
                    lemma_any_single(m[0], s);
                }
            }
        },
        Pattern::Joined(v) => {
            let f = flatten_each(v);
            assert forall|i: int| 0 <= i < f.len() implies equivalent(#[trigger] f[i], v[i]) by {
                lemma_flatten_keeps_matches(v[i]);
            }
            assert forall|s: Seq<char>| #[trigger] matches(flatten_spec(p), s) == matches(p, s) by {
                lemma_concat_congruent(f, v, s);
            }
        },
        _ => {},
    }
}

// ---------------------------------------------------------------------------
// Inlining with reports keeps what a pattern matches
// ---------------------------------------------------------------------------

/// Writing a character as a literal of one character and `NOTHING` as an
/// empty concatenation changes no string that a pattern matches.
pub proof fn lemma_without_chars_keeps_matches(p: Pattern)
    ensures
        equivalent(without_chars(p), p),
    decreases p,
{
    match p {
        Pattern::Char(c) => {
            assert forall|s: Seq<char>| #[trigger] matches(without_chars(p), s) == matches(p, s) by {
                assert(seq![c] =~= seq![c]);
            }
        },
        Pattern::Nothing => {
            assert forall|s: Seq<char>| #[trigger] matches(without_chars(p), s) == matches(p, s) by {
                lemma_concat_empty(s);
                assert(without_chars(p) == Pattern::Joined(Seq::<Pattern>::empty()));
            }
        },
        Pattern::Optional(x) => {
            lemma_without_chars_keeps_matches(*x);
            lemma_quantifiers_congruent(without_chars(*x), *x);
        },
        Pattern::Multiple(x) => {
            lemma_without_chars_keeps_matches(*x);
            lemma_quantifiers_congruent(without_chars(*x), *x);
        },
        Pattern::ZeroOrMore(x) => {
            lemma_without_chars_keeps_matches(*x);
            lemma_quantifiers_congruent(without_chars(*x), *x);
        },
        Pattern::Alternative(v) => {
            let w = without_chars_each(v);
            assert forall|i: int| 0 <= i < w.len() implies equivalent(#[trigger] w[i], v[i]) by {
                lemma_without_chars_keeps_matches(v[i]);
            }
            assert forall|s: Seq<char>| #[trigger] matches(without_chars(p), s) == matches(p, s) by {
                lemma_matches_alternative(w, s);
                lemma_matches_alternative(v, s);
                lemma_any_congruent(w, v, s);
            }
        },
        Pattern::Joined(v) => {
            let w = without_chars_each(v);
            assert forall|i: int| 0 <= i < w.len() implies equivalent(#[trigger] w[i], v[i]) by {
                lemma_without_chars_keeps_matches(v[i]);
            }
            assert forall|s: Seq<char>| #[trigger] matches(without_chars(p), s) == matches(p, s) by {
                lemma_concat_congruent(w, v, s);
            }
        },
        _ => {},
    }
}

/// Inlining the root `EXPORT` with reports gives a pattern that matches
/// exactly the strings that the pattern of `process` matches.
pub proof fn lemma_inline_matches_process<'a>(
    expressions: Seq<(Definition<'a>, std::ops::Range<usize>)>,
)
    ensures
        inline_spec("EXPORT"@, expressions) matches Ok(q) ==> process_spec(defs_of(expressions)) matches Ok(p)
            && equivalent(q, p),
{
    crate::inliner::lemma_inline_agrees_with_process(expressions);
    if inline_spec("EXPORT"@, expressions) is Ok {
        match process_spec(defs_of(expressions)) {
            Ok(p) => lemma_without_chars_keeps_matches(p),
            Err(_) => {},
        }
    }
}

} // verus!
