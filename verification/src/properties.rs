//! Properties of the simplification passes: the shapes they leave behind
//! and what merging alternatives keeps.

use vstd::prelude::*;

use crate::lexer::{lemma_contains_builtin_preorder, lemma_contains_builtin_sound};
use crate::optimizer::{flatten_each, flatten_spec, merge_insert, merge_insert_all, merged};
use crate::processor::{
    alt_insert,
    alt_merge_spec,
    finish_alternative,
    finish_join,
    flush,
    join_state,
    join_step,
    join_merge_spec,
    optimize_each,
    optimize_spec,
    splice_alternatives,
    splice_joins,
    without_nothing,
    wrap_multiple,
    wrap_optional,
    wrap_zero_or_more,
    MergeStep,
    Pattern,
    Pending,
};

verus! {

pub open spec fn is_quantifier(p: Pattern) -> bool {
    p is Optional || p is Multiple || p is ZeroOrMore
}

pub open spec fn is_text(p: Pattern) -> bool {
    p is Literal || p is Char
}

/// A literal that simplification keeps as a literal: two characters or
/// more, or one that is not ASCII.
pub open spec fn kept_literal(l: Seq<char>) -> bool {
    l.len() >= 2 || (l.len() == 1 && (l[0] as u32) >= 0x80)
}

/// The simplified shape: no repetition operator directly around another or
/// around `Nothing`; no alternative of exactly one, nested in another, or
/// holding `Nothing`; no concatenation of fewer than two parts, nested in
/// another, holding `Nothing` or two neighbouring texts; and no literal that
/// should be a `Char` or `Nothing`.
pub open spec fn normal(p: Pattern) -> bool
    decreases p,
{
    match p {
        Pattern::Literal(l) => kept_literal(l),
        Pattern::Optional(x) => !is_quantifier(*x) && !(*x is Nothing) && normal(*x),
        Pattern::Multiple(x) => !is_quantifier(*x) && !(*x is Nothing) && normal(*x),
        Pattern::ZeroOrMore(x) => !is_quantifier(*x) && !(*x is Nothing) && normal(*x),
        Pattern::Alternative(v) => v.len() != 1 && forall|i: int|
            0 <= i < v.len() ==> !(#[trigger] v[i] is Alternative) && !(v[i] is Nothing) && normal(
                v[i],
            ),
        Pattern::Joined(v) => v.len() >= 2 && (forall|i: int|
            0 <= i < v.len() ==> !(#[trigger] v[i] is Joined) && !(v[i] is Nothing) && normal(v[i]))
            && forall|i: int| 0 <= i < v.len() - 1 ==> !(is_text(#[trigger] v[i]) && is_text(v[i + 1])),
        _ => true,
    }
}


/// Every pattern is simplified and none is an alternative.
pub open spec fn alternatives_ok(s: Seq<Pattern>) -> bool {
    forall|i: int| 0 <= i < s.len() ==> !(#[trigger] s[i] is Alternative) && normal(s[i])
}

/// Every pattern is simplified and none is a concatenation.
pub open spec fn parts_ok(s: Seq<Pattern>) -> bool {
    forall|i: int| 0 <= i < s.len() ==> !(#[trigger] s[i] is Joined) && normal(s[i])
}

proof fn lemma_wraps_normal(x: Pattern)
    requires
        normal(x),
    ensures
        normal(wrap_optional(x)),
        normal(wrap_multiple(x)),
        normal(wrap_zero_or_more(x)),
{
}

proof fn lemma_splice_alternatives(s: Seq<Pattern>)
    requires
        forall|i: int| 0 <= i < s.len() ==> normal(#[trigger] s[i]),
    ensures
        alternatives_ok(splice_alternatives(s)),
    decreases s.len(),
{
    if s.len() > 0 {
        lemma_splice_alternatives(s.drop_last());
        let pre = splice_alternatives(s.drop_last());
        let piece = match s.last() {
            Pattern::Alternative(w) => w,
            x => seq![x],
        };
        assert(normal(s.last()));
        assert(alternatives_ok(piece));
        assert(splice_alternatives(s) == pre + piece);
        assert forall|i: int| 0 <= i < (pre + piece).len() implies !(#[trigger] (pre + piece)[i] is Alternative)
            && normal((pre + piece)[i]) by {
            if i < pre.len() {
                assert((pre + piece)[i] == pre[i]);
            } else {
                assert((pre + piece)[i] == piece[i - pre.len()]);
            }
        }
    }
}

proof fn lemma_alt_insert_ok(out: Seq<Pattern>, new: Pattern, j: int)
    requires
        alternatives_ok(out),
        !(new is Alternative),
        normal(new),
    ensures
        alternatives_ok(alt_insert(out, new, j)),
    decreases out.len() - j,
{
    if j < 0 || j >= out.len() {
        assert(alternatives_ok(out.push(new))) by {
            assert forall|i: int| 0 <= i < out.push(new).len() implies !(#[trigger] out.push(new)[i] is Alternative)
                && normal(out.push(new)[i]) by {
                if i < out.len() {
                    assert(out.push(new)[i] == out[i]);
                }
            }
        }
    } else {
        match crate::processor::alt_step(out[j], new) {
            MergeStep::Absorbed => {},
            MergeStep::Replaced(b) => {
                let u = out.update(j, Pattern::Builtin(b));
                assert forall|i: int| 0 <= i < u.len() implies !(#[trigger] u[i] is Alternative) && normal(u[i]) by {
                    if i != j {
                        assert(u[i] == out[i]);
                    }
                }
            },
            MergeStep::Unrelated => {
                lemma_alt_insert_ok(out, new, j + 1);
            },
        }
    }
}

proof fn lemma_alt_merge_ok(s: Seq<Pattern>)
    requires
        alternatives_ok(s),
    ensures
        alternatives_ok(alt_merge_spec(s)),
    decreases s.len(),
{
    if s.len() > 0 {
        assert(alternatives_ok(s.drop_last())) by {
            assert forall|i: int| 0 <= i < s.drop_last().len() implies !(#[trigger] s.drop_last()[i] is Alternative)
                && normal(s.drop_last()[i]) by {
                assert(s.drop_last()[i] == s[i]);
            }
        }
        lemma_alt_merge_ok(s.drop_last());
        assert(s.last() == s[s.len() - 1]);
        lemma_alt_insert_ok(alt_merge_spec(s.drop_last()), s.last(), 0);
    }
}

proof fn lemma_without_nothing(s: Seq<Pattern>)
    requires
        alternatives_ok(s),
    ensures
        alternatives_ok(without_nothing(s)),
        forall|i: int| 0 <= i < without_nothing(s).len() ==> !(#[trigger] without_nothing(s)[i] is Nothing),
    decreases s.len(),
{
    if s.len() > 0 {
        assert(alternatives_ok(s.drop_last())) by {
            assert forall|i: int| 0 <= i < s.drop_last().len() implies !(#[trigger] s.drop_last()[i] is Alternative)
                && normal(s.drop_last()[i]) by {
                assert(s.drop_last()[i] == s[i]);
            }
        }
        lemma_without_nothing(s.drop_last());
        let pre = without_nothing(s.drop_last());
        if s.last() != Pattern::Nothing {
            assert(s.last() == s[s.len() - 1]);
            assert forall|i: int| 0 <= i < pre.push(s.last()).len() implies !(#[trigger] pre.push(
                s.last(),
            )[i] is Alternative) && normal(pre.push(s.last())[i]) && !(pre.push(s.last())[i] is Nothing) by {
                if i < pre.len() {
                    assert(pre.push(s.last())[i] == pre[i]);
                }
            }
        }
    }
}

proof fn lemma_finish_alternative(clean: Seq<Pattern>)
    requires
        alternatives_ok(clean),
    ensures
        normal(finish_alternative(clean)),
{
    if clean.len() == 1 {
        assert(normal(clean[0]));
    } else if clean.contains(Pattern::Nothing) {
        let rest = without_nothing(clean);
        lemma_without_nothing(clean);
        let inner = if rest.len() == 1 {
            rest[0]
        } else {
            Pattern::Alternative(rest)
        };
        if rest.len() == 1 {
            assert(normal(rest[0]));
        } else {
            assert(normal(Pattern::Alternative(rest)));
        }
        lemma_wraps_normal(inner);
    } else {
        assert forall|i: int| 0 <= i < clean.len() implies !(#[trigger] clean[i] is Nothing) by {
            if clean[i] is Nothing {
                assert(clean[i] == Pattern::Nothing);
                assert(clean.contains(Pattern::Nothing));
            }
        }
        assert(normal(Pattern::Alternative(clean)));
    }
}

proof fn lemma_splice_joins(s: Seq<Pattern>)
    requires
        forall|i: int| 0 <= i < s.len() ==> normal(#[trigger] s[i]),
    ensures
        parts_ok(splice_joins(s)),
    decreases s.len(),
{
    if s.len() > 0 {
        lemma_splice_joins(s.drop_last());
        let pre = splice_joins(s.drop_last());
        let piece = match s.last() {
            Pattern::Joined(w) => w,
            x => seq![x],
        };
        assert(normal(s.last()));
        assert(parts_ok(piece));
        assert(splice_joins(s) == pre + piece);
        assert forall|i: int| 0 <= i < (pre + piece).len() implies !(#[trigger] (pre + piece)[i] is Joined)
            && normal((pre + piece)[i]) by {
            if i < pre.len() {
                assert((pre + piece)[i] == pre[i]);
            } else {
                assert((pre + piece)[i] == piece[i - pre.len()]);
            }
        }
    }
}

/// The state of `join_merge` after a prefix of simplified parts.
pub open spec fn join_state_ok(st: (Seq<Pattern>, Pending)) -> bool {
    let out = st.0;
    &&& forall|i: int|
        0 <= i < out.len() ==> !(#[trigger] out[i] is Joined) && !(out[i] is Nothing) && normal(out[i])
    &&& forall|i: int| 0 <= i < out.len() - 1 ==> !(is_text(#[trigger] out[i]) && is_text(out[i + 1]))
    &&& (out.len() == 0 || !is_text(out.last()))
    &&& (st.1 matches Pending::Text(s) ==> kept_literal(s))
}

/// The parts after the gathered text is emitted: no `Nothing`, no
/// concatenation, no two neighbouring texts.
pub open spec fn joined_parts_ok(out: Seq<Pattern>) -> bool {
    &&& forall|i: int|
        0 <= i < out.len() ==> !(#[trigger] out[i] is Joined) && !(out[i] is Nothing) && normal(out[i])
    &&& forall|i: int| 0 <= i < out.len() - 1 ==> !(is_text(#[trigger] out[i]) && is_text(out[i + 1]))
}

proof fn lemma_flush_ok(st: (Seq<Pattern>, Pending))
    requires
        join_state_ok(st),
    ensures
        joined_parts_ok(flush(st.0, st.1)),
{
    let out = st.0;
    let f = flush(st.0, st.1);
    match st.1 {
        Pending::Empty => {},
        _ => {
            assert forall|i: int| 0 <= i < f.len() implies !(#[trigger] f[i] is Joined) && !(f[i] is Nothing)
                && normal(f[i]) by {
                if i < out.len() {
                    assert(f[i] == out[i]);
                }
            }
            assert forall|i: int| 0 <= i < f.len() - 1 implies !(is_text(#[trigger] f[i]) && is_text(f[i + 1])) by {
                assert(f[i] == out[i]);
                if i + 1 < out.len() {
                    assert(f[i + 1] == out[i + 1]);
                } else {
                    assert(out.last() == out[i]);
                }
            }
        },
    }
}

proof fn lemma_join_step_ok(st: (Seq<Pattern>, Pending), item: Pattern)
    requires
        join_state_ok(st),
        !(item is Joined),
        normal(item),
    ensures
        join_state_ok(join_step(st, item)),
{
    match item {
        Pattern::Nothing => {},
        Pattern::Literal(l) => {},
        Pattern::Char(c) => {},
        _ => {
            lemma_flush_ok(st);
            let f = flush(st.0, st.1);
            let g = f.push(item);
            assert forall|i: int| 0 <= i < g.len() implies !(#[trigger] g[i] is Joined) && !(g[i] is Nothing)
                && normal(g[i]) by {
                if i < f.len() {
                    assert(g[i] == f[i]);
                }
            }
            assert forall|i: int| 0 <= i < g.len() - 1 implies !(is_text(#[trigger] g[i]) && is_text(g[i + 1])) by {
                assert(g[i] == f[i]);
                if i + 1 < f.len() {
                    assert(g[i + 1] == f[i + 1]);
                }
            }
        },
    }
}

proof fn lemma_join_state_ok(s: Seq<Pattern>)
    requires
        parts_ok(s),
    ensures
        join_state_ok(join_state(s)),
    decreases s.len(),
{
    if s.len() > 0 {
        assert(parts_ok(s.drop_last())) by {
            assert forall|i: int| 0 <= i < s.drop_last().len() implies !(#[trigger] s.drop_last()[i] is Joined)
                && normal(s.drop_last()[i]) by {
                assert(s.drop_last()[i] == s[i]);
            }
        }
        lemma_join_state_ok(s.drop_last());
        assert(s.last() == s[s.len() - 1]);
        lemma_join_step_ok(join_state(s.drop_last()), s.last());
    }
}

proof fn lemma_finish_join(s: Seq<Pattern>)
    requires
        parts_ok(s),
    ensures
        normal(finish_join(join_merge_spec(s))),
{
    lemma_join_state_ok(s);
    lemma_flush_ok(join_state(s));
    let clean = join_merge_spec(s);
    if clean.len() == 1 {
        assert(normal(clean[0]));
    } else if clean.len() >= 2 {
        assert(normal(Pattern::Joined(clean)));
    }
}

/// Simplification always ends in the simplified shape: whatever the input,
/// `optimize` leaves no repetition operator directly around another, no
/// alternative or concatenation nested in one of its own kind, and no
/// `Nothing` inside an alternative or a concatenation.
pub proof fn lemma_optimize_normal(p: Pattern)
    ensures
        normal(optimize_spec(p)),
    decreases p,
{
    match p {
        Pattern::Literal(l) => {},
        Pattern::Optional(inner) => {
            lemma_optimize_normal(*inner);
            lemma_wraps_normal(optimize_spec(*inner));
        },
        Pattern::Multiple(inner) => {
            lemma_optimize_normal(*inner);
            lemma_wraps_normal(optimize_spec(*inner));
        },
        Pattern::ZeroOrMore(inner) => {
            lemma_optimize_normal(*inner);
            lemma_wraps_normal(optimize_spec(*inner));
        },
        Pattern::Alternative(v) => {
            let o = optimize_each(v);
            assert forall|i: int| 0 <= i < o.len() implies normal(#[trigger] o[i]) by {
                lemma_optimize_normal(v[i]);
            }
            lemma_splice_alternatives(o);
            lemma_alt_merge_ok(splice_alternatives(o));
            lemma_finish_alternative(alt_merge_spec(splice_alternatives(o)));
        },
        Pattern::Joined(v) => {
            let o = optimize_each(v);
            assert forall|i: int| 0 <= i < o.len() implies normal(#[trigger] o[i]) by {
                lemma_optimize_normal(v[i]);
            }
            lemma_splice_joins(o);
            lemma_finish_join(splice_joins(o));
        },
        _ => {},
    }
}


/// No repetition operator stands directly around another, at any depth.
pub open spec fn collapsed(p: Pattern) -> bool
    decreases p,
{
    match p {
        Pattern::Optional(x) => !is_quantifier(*x) && collapsed(*x),
        Pattern::Multiple(x) => !is_quantifier(*x) && collapsed(*x),
        Pattern::ZeroOrMore(x) => !is_quantifier(*x) && collapsed(*x),
        Pattern::Alternative(v) => forall|i: int| 0 <= i < v.len() ==> collapsed(#[trigger] v[i]),
        Pattern::Joined(v) => forall|i: int| 0 <= i < v.len() ==> collapsed(#[trigger] v[i]),
        _ => true,
    }
}

pub open spec fn all_collapsed(s: Seq<Pattern>) -> bool {
    forall|i: int| 0 <= i < s.len() ==> collapsed(#[trigger] s[i])
}

proof fn lemma_merge_insert_collapsed(out: Seq<Pattern>, new: Pattern, j: int)
    requires
        all_collapsed(out),
        collapsed(new),
    ensures
        all_collapsed(merge_insert(out, new, j)),
    decreases out.len() - j,
{
    if j < 0 || j >= out.len() {
        assert forall|i: int| 0 <= i < out.push(new).len() implies collapsed(#[trigger] out.push(new)[i]) by {
            if i < out.len() {
                assert(out.push(new)[i] == out[i]);
            }
        }
    } else {
        match crate::optimizer::merge_step(out[j], new) {
            MergeStep::Absorbed => {},
            MergeStep::Replaced(b) => {
                let u = out.update(j, Pattern::Builtin(b));
                assert forall|i: int| 0 <= i < u.len() implies collapsed(#[trigger] u[i]) by {
                    if i != j {
                        assert(u[i] == out[i]);
                    }
                }
            },
            MergeStep::Unrelated => {
                lemma_merge_insert_collapsed(out, new, j + 1);
            },
        }
    }
}

proof fn lemma_merge_insert_all_collapsed(out: Seq<Pattern>, items: Seq<Pattern>)
    requires
        all_collapsed(out),
        all_collapsed(items),
    ensures
        all_collapsed(merge_insert_all(out, items)),
    decreases items.len(),
{
    if items.len() > 0 {
        assert(all_collapsed(items.drop_last())) by {
            assert forall|i: int| 0 <= i < items.drop_last().len() implies collapsed(
                #[trigger] items.drop_last()[i],
            ) by {
                assert(items.drop_last()[i] == items[i]);
            }
        }
        lemma_merge_insert_all_collapsed(out, items.drop_last());
        assert(collapsed(items[items.len() - 1]));
        lemma_merge_insert_collapsed(merge_insert_all(out, items.drop_last()), items.last(), 0);
    }
}

proof fn lemma_merged_collapsed(fs: Seq<Pattern>)
    requires
        all_collapsed(fs),
    ensures
        all_collapsed(merged(fs)),
    decreases fs.len(),
{
    if fs.len() > 0 {
        assert(all_collapsed(fs.drop_last())) by {
            assert forall|i: int| 0 <= i < fs.drop_last().len() implies collapsed(
                #[trigger] fs.drop_last()[i],
            ) by {
                assert(fs.drop_last()[i] == fs[i]);
            }
        }
        lemma_merged_collapsed(fs.drop_last());
        assert(collapsed(fs[fs.len() - 1]));
        match fs.last() {
            Pattern::Alternative(inner) => {
                lemma_merge_insert_all_collapsed(merged(fs.drop_last()), inner);
            },
            other => {
                lemma_merge_insert_collapsed(merged(fs.drop_last()), other, 0);
            },
        }
    }
}

/// Flattening leaves no repetition operator directly around another, at
/// any depth, whatever the input.
pub proof fn lemma_flatten_collapsed(p: Pattern)
    ensures
        collapsed(flatten_spec(p)),
    decreases p,
{
    match p {
        Pattern::Optional(v) => {
            lemma_flatten_collapsed(*v);
        },
        Pattern::Multiple(v) => {
            lemma_flatten_collapsed(*v);
        },
        Pattern::ZeroOrMore(v) => {
            lemma_flatten_collapsed(*v);
        },
        Pattern::Alternative(v) => {
            let fs = flatten_each(v);
            assert forall|i: int| 0 <= i < fs.len() implies collapsed(#[trigger] fs[i]) by {
                lemma_flatten_collapsed(v[i]);
            }
            lemma_merged_collapsed(fs);
            let m = merged(fs);
            if m.len() == 1 {
                assert(collapsed(m[0]));
            }
        },
        Pattern::Joined(v) => {
            let fs = flatten_each(v);
            assert forall|i: int| 0 <= i < fs.len() implies collapsed(#[trigger] fs[i]) by {
                lemma_flatten_collapsed(v[i]);
            }
        },
        _ => {},
    }
}


/// `y` matches everything that `x` matches, as far as merging can tell:
/// they are equal, or `y` is a class that includes the class or the
/// character `x`.
pub open spec fn covers(y: Pattern, x: Pattern) -> bool {
    y == x || match (y, x) {
        (Pattern::Builtin(b), Pattern::Builtin(e)) => b.spec_contains_builtin(e),
        (Pattern::Builtin(b), Pattern::Char(c)) => b.spec_contains(c),
        _ => false,
    }
}

/// Covering is transitive.
pub proof fn lemma_covers_transitive(z: Pattern, y: Pattern, x: Pattern)
    requires
        covers(z, y),
        covers(y, x),
    ensures
        covers(z, x),
{
    match (z, y, x) {
        (Pattern::Builtin(b), Pattern::Builtin(e), Pattern::Builtin(f)) => {
            lemma_contains_builtin_preorder(b, e, f);
        },
        (Pattern::Builtin(b), Pattern::Builtin(e), Pattern::Char(c)) => {
            if z != y && y != x {
                lemma_contains_builtin_sound(b, e, c);
            }
        },
        _ => {},
    }
}

/// Some kept alternative covers `x`.
pub open spec fn covered(out: Seq<Pattern>, x: Pattern) -> bool {
    exists|k: int| 0 <= k < out.len() && covers(#[trigger] out[k], x)
}

proof fn lemma_alt_insert_covers(out: Seq<Pattern>, new: Pattern, j: int)
    requires
        0 <= j,
    ensures
        covered(alt_insert(out, new, j), new),
        forall|k: int| 0 <= k < out.len() ==> covered(alt_insert(out, new, j), #[trigger] out[k]),
        forall|k: int|
            0 <= k < alt_insert(out, new, j).len() ==> out.contains(#[trigger] alt_insert(out, new, j)[k])
                || alt_insert(out, new, j)[k] == new,
    decreases out.len() - j,
{
    let r = alt_insert(out, new, j);
    if j >= out.len() {
        assert(r[out.len() as int] == new);
        assert forall|k: int| 0 <= k < out.len() implies covered(r, #[trigger] out[k]) by {
            assert(r[k] == out[k]);
        }
        assert forall|k: int| 0 <= k < r.len() implies out.contains(#[trigger] r[k]) || r[k] == new by {
            if k < out.len() {
                assert(r[k] == out[k]);
            }
        }
    } else {
        match crate::processor::alt_step(out[j], new) {
            MergeStep::Absorbed => {
                assert(covers(out[j], new));
                assert forall|k: int| 0 <= k < out.len() implies covered(r, #[trigger] out[k]) by {
                    assert(covers(r[k], out[k]));
                }
                assert forall|k: int| 0 <= k < r.len() implies out.contains(#[trigger] r[k]) || r[k] == new by {
                    assert(out[k] == r[k]);
                }
            },
            MergeStep::Replaced(b) => {
                assert(new == Pattern::Builtin(b));
                assert(r[j] == new);
                assert(covers(r[j], out[j]));
                assert forall|k: int| 0 <= k < out.len() implies covered(r, #[trigger] out[k]) by {
                    if k != j {
                        assert(r[k] == out[k]);
                    }
                    assert(covers(r[k], out[k]));
                }
                assert forall|k: int| 0 <= k < r.len() implies out.contains(#[trigger] r[k]) || r[k] == new by {
                    if k != j {
                        assert(r[k] == out[k]);
                    }
                }
            },
            MergeStep::Unrelated => {
                lemma_alt_insert_covers(out, new, j + 1);
            },
        }
    }
}

/// Merging alternatives loses nothing and invents nothing: every
/// alternative of the input is covered by one that `alt_merge` keeps, and
/// every kept one is one of the input's.
pub proof fn lemma_alt_merge_covers(input: Seq<Pattern>)
    ensures
        forall|i: int| 0 <= i < input.len() ==> covered(alt_merge_spec(input), #[trigger] input[i]),
        forall|k: int|
            0 <= k < alt_merge_spec(input).len() ==> input.contains(#[trigger] alt_merge_spec(input)[k]),
    decreases input.len(),
{
    if input.len() > 0 {
        let pre = input.drop_last();
        let out = alt_merge_spec(pre);
        let new = input.last();
        let r = alt_merge_spec(input);
        lemma_alt_merge_covers(pre);
        lemma_alt_insert_covers(out, new, 0);
        assert(r == alt_insert(out, new, 0));
        assert forall|i: int| 0 <= i < input.len() implies covered(r, #[trigger] input[i]) by {
            if i < input.len() - 1 {
                assert(pre[i] == input[i]);
                assert(covered(out, pre[i]));
                let k = choose|k: int| 0 <= k < out.len() && covers(#[trigger] out[k], pre[i]);
                assert(covered(r, out[k]));
                let m = choose|m: int| 0 <= m < r.len() && covers(#[trigger] r[m], out[k]);
                lemma_covers_transitive(r[m], out[k], input[i]);
            } else {
                assert(input[i] == new);
            }
        }
        assert forall|k: int| 0 <= k < r.len() implies input.contains(#[trigger] r[k]) by {
            if r[k] == new {
                assert(input[input.len() - 1] == new);
            } else {
                assert(out.contains(r[k]));
                let m = choose|m: int| 0 <= m < out.len() && out[m] == r[k];
                assert(pre.contains(out[m]));
                let q = choose|q: int| 0 <= q < pre.len() && pre[q] == out[m];
                assert(input[q] == pre[q]);
            }
        }
    }
}

} // verus!
