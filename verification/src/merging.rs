//! What the merging steps keep apart: the alternatives they keep are
//! different from one another and no later one covers an earlier one, and
//! merging the parts of a concatenation a second time changes nothing.

use vstd::prelude::*;

use crate::lexer::{lemma_contains_builtin_preorder, lemma_contains_builtin_sound};
use crate::optimizer::{flatten_each, merge_insert, merge_insert_all, merge_spec, merge_step, merged, single_ascii};
use crate::processor::{
    alt_insert, alt_merge_spec, alt_step, flush, join_merge_spec, join_state, splice_alternatives,
    MergeStep, Pattern, Pending,
};
use crate::properties::{covers, is_text, lemma_covers_transitive};

verus! {

/// No kept alternative is covered by a later one; in particular, no two
/// are equal.
pub open spec fn kept_apart(out: Seq<Pattern>) -> bool {
    forall|j: int, k: int| 0 <= j < k < out.len() ==> !covers(#[trigger] out[k], #[trigger] out[j])
}

/// No two items are equal.
pub open spec fn all_different(out: Seq<Pattern>) -> bool {
    forall|j: int, k: int| 0 <= j < k < out.len() ==> #[trigger] out[j] != #[trigger] out[k]
}

proof fn lemma_kept_apart_different(out: Seq<Pattern>)
    requires
        kept_apart(out),
    ensures
        all_different(out),
{
    assert forall|j: int, k: int| 0 <= j < k < out.len() implies #[trigger] out[j] != #[trigger] out[k] by {
        assert(!covers(out[k], out[j]));
    }
}

/// What a step of `alt_merge` says of two alternatives in terms of `covers`.
proof fn lemma_alt_step_covers(existing: Pattern, new: Pattern)
    ensures
        alt_step(existing, new) is Absorbed ==> covers(existing, new),
        alt_step(existing, new) matches MergeStep::Replaced(b) ==> new == Pattern::Builtin(b) && covers(
            new,
            existing,
        ),
        alt_step(existing, new) is Unrelated ==> !covers(existing, new) && !covers(new, existing),
{
}

proof fn lemma_alt_insert_apart(out: Seq<Pattern>, new: Pattern, j: int)
    requires
        0 <= j,
        kept_apart(out),
        forall|k: int| 0 <= k < j && k < out.len() ==> !covers(#[trigger] out[k], new) && !covers(new, out[k]),
    ensures
        kept_apart(alt_insert(out, new, j)),
        alt_insert(out, new, j).len() <= out.len() + 1,
    decreases out.len() - j,
{
    if j < out.len() {
        lemma_alt_step_covers(out[j], new);
        match alt_step(out[j], new) {
            MergeStep::Absorbed => {},
            MergeStep::Replaced(b) => {
                let r = out.update(j, new);
                assert forall|a: int, c: int| 0 <= a < c < r.len() implies !covers(#[trigger] r[c], #[trigger] r[a]) by {
                    if a == j {
                        if covers(out[c], new) {
                            lemma_covers_transitive(out[c], new, out[j]);
                        }
                    } else if c == j {
                    } else {
                        assert(r[a] == out[a] && r[c] == out[c]);
                    }
                }
            },
            MergeStep::Unrelated => {
                lemma_alt_insert_apart(out, new, j + 1);
            },
        }
    } else {
        let r = out.push(new);
        assert forall|a: int, c: int| 0 <= a < c < r.len() implies !covers(#[trigger] r[c], #[trigger] r[a]) by {
            assert(r[a] == out[a]);
            if c < out.len() {
                assert(r[c] == out[c]);
            }
        }
    }
}

/// `alt_merge` keeps no more alternatives than it is given, no two of them
/// equal, and none covered by a later one.
pub proof fn lemma_alt_merge_apart(input: Seq<Pattern>)
    ensures
        alt_merge_spec(input).len() <= input.len(),
        all_different(alt_merge_spec(input)),
        kept_apart(alt_merge_spec(input)),
    decreases input.len(),
{
    if input.len() > 0 {
        lemma_alt_merge_apart(input.drop_last());
        lemma_alt_insert_apart(alt_merge_spec(input.drop_last()), input.last(), 0);
    }
    lemma_kept_apart_different(alt_merge_spec(input));
}

// ---------------------------------------------------------------------------
// The merge of the flattening pass
// ---------------------------------------------------------------------------

/// `y` covers `x` as the flattening pass's merge tells: they are equal, or
/// `y` is a class that includes the class `x` or the one-byte literal `x`.
pub open spec fn covers_text(y: Pattern, x: Pattern) -> bool {
    y == x || match (y, x) {
        (Pattern::Builtin(b), Pattern::Builtin(e)) => b.spec_contains_builtin(e),
        (Pattern::Builtin(b), Pattern::Literal(l)) => single_ascii(l) matches Some(c) && b.spec_contains(c),
        _ => false,
    }
}

/// No kept alternative is covered by a later one, as the merge tells.
pub open spec fn kept_apart_text(out: Seq<Pattern>) -> bool {
    forall|j: int, k: int| 0 <= j < k < out.len() ==> !covers_text(#[trigger] out[k], #[trigger] out[j])
}

proof fn lemma_covers_text_transitive(z: Pattern, y: Pattern, x: Pattern)
    requires
        covers_text(z, y),
        covers_text(y, x),
    ensures
        covers_text(z, x),
{
    match (z, y, x) {
        (Pattern::Builtin(b), Pattern::Builtin(e), Pattern::Builtin(f)) => {
            lemma_contains_builtin_preorder(b, e, f);
        },
        (Pattern::Builtin(b), Pattern::Builtin(e), Pattern::Literal(l)) => {
            if z != y && y != x {
                lemma_contains_builtin_sound(b, e, l[0]);
            }
        },
        _ => {},
    }
}

proof fn lemma_merge_step_covers(existing: Pattern, new: Pattern)
    ensures
        merge_step(existing, new) is Absorbed ==> covers_text(existing, new),
        merge_step(existing, new) matches MergeStep::Replaced(b) ==> new == Pattern::Builtin(b)
            && covers_text(new, existing),
        merge_step(existing, new) is Unrelated ==> !covers_text(existing, new) && !covers_text(
            new,
            existing,
        ),
{
}

proof fn lemma_merge_insert_apart(out: Seq<Pattern>, new: Pattern, j: int)
    requires
        0 <= j,
        kept_apart_text(out),
        forall|k: int|
            0 <= k < j && k < out.len() ==> !covers_text(#[trigger] out[k], new) && !covers_text(new, out[k]),
    ensures
        kept_apart_text(merge_insert(out, new, j)),
        merge_insert(out, new, j).len() <= out.len() + 1,
        forall|k: int|
            0 <= k < merge_insert(out, new, j).len() ==> out.contains(#[trigger] merge_insert(out, new, j)[k])
                || merge_insert(out, new, j)[k] == new,
    decreases out.len() - j,
{
    let r = merge_insert(out, new, j);
    if j < out.len() {
        lemma_merge_step_covers(out[j], new);
        match merge_step(out[j], new) {
            MergeStep::Absorbed => {
                assert forall|k: int| 0 <= k < r.len() implies out.contains(#[trigger] r[k]) || r[k] == new by {
                    assert(out[k] == r[k]);
                }
            },
            MergeStep::Replaced(b) => {
                assert forall|a: int, c: int| 0 <= a < c < r.len() implies !covers_text(#[trigger] r[c], #[trigger] r[a]) by {
                    if a == j {
                        if covers_text(out[c], new) {
                            lemma_covers_text_transitive(out[c], new, out[j]);
                        }
                    } else if c == j {
                    } else {
                        assert(r[a] == out[a] && r[c] == out[c]);
                    }
                }
                assert forall|k: int| 0 <= k < r.len() implies out.contains(#[trigger] r[k]) || r[k] == new by {
                    if k != j {
                        assert(r[k] == out[k]);
                    }
                }
            },
            MergeStep::Unrelated => {
                lemma_merge_insert_apart(out, new, j + 1);
            },
        }
    } else {
        assert forall|a: int, c: int| 0 <= a < c < r.len() implies !covers_text(#[trigger] r[c], #[trigger] r[a]) by {
            assert(r[a] == out[a]);
            if c < out.len() {
                assert(r[c] == out[c]);
            }
        }
        assert forall|k: int| 0 <= k < r.len() implies out.contains(#[trigger] r[k]) || r[k] == new by {
            if k < out.len() {
                assert(r[k] == out[k]);
            }
        }
    }
}

/// Adding items one by one keeps what is kept apart, adds at most one item
/// each, and adds only items it was given.
proof fn lemma_merge_insert_all_apart(out: Seq<Pattern>, items: Seq<Pattern>)
    requires
        kept_apart_text(out),
    ensures
        kept_apart_text(merge_insert_all(out, items)),
        merge_insert_all(out, items).len() <= out.len() + items.len(),
        forall|k: int|
            0 <= k < merge_insert_all(out, items).len() ==> out.contains(
                #[trigger] merge_insert_all(out, items)[k],
            ) || items.contains(merge_insert_all(out, items)[k]),
    decreases items.len(),
{
    if items.len() > 0 {
        let pre = items.drop_last();
        let m = merge_insert_all(out, pre);
        lemma_merge_insert_all_apart(out, pre);
        lemma_merge_insert_apart(m, items.last(), 0);
        let r = merge_insert_all(out, items);
        assert forall|k: int| 0 <= k < r.len() implies out.contains(#[trigger] r[k]) || items.contains(r[k]) by {
            if r[k] == items.last() {
                assert(items[items.len() - 1] == r[k]);
            } else {
                let q = choose|q: int| 0 <= q < m.len() && m[q] == r[k];
                if !out.contains(m[q]) {
                    let p = choose|p: int| 0 <= p < pre.len() && pre[p] == m[q];
                    assert(items[p] == pre[p]);
                }
            }
        }
    }
}

proof fn lemma_merge_insert_all_append(out: Seq<Pattern>, a: Seq<Pattern>, b: Seq<Pattern>)
    ensures
        merge_insert_all(out, a + b) == merge_insert_all(merge_insert_all(out, a), b),
    decreases b.len(),
{
    if b.len() == 0 {
        assert(a + b =~= a);
    } else {
        lemma_merge_insert_all_append(out, a, b.drop_last());
        assert((a + b).drop_last() =~= a + b.drop_last());
        assert((a + b).last() == b.last());
    }
}

/// The merge adds the alternatives one by one, a nested alternative's own
/// alternatives in its place.
proof fn lemma_merged_spliced(fs: Seq<Pattern>)
    ensures
        merged(fs) == merge_insert_all(seq![], splice_alternatives(fs)),
    decreases fs.len(),
{
    if fs.len() > 0 {
        let pre = fs.drop_last();
        let x = fs.last();
        lemma_merged_spliced(pre);
        let piece = match x {
            Pattern::Alternative(w) => w,
            _ => seq![x],
        };
        assert(splice_alternatives(fs) == splice_alternatives(pre) + piece);
        lemma_merge_insert_all_append(seq![], splice_alternatives(pre), piece);
        let m = merged(pre);
        match x {
            Pattern::Alternative(w) => {
                assert(merged(fs) == merge_insert_all(m, w));
            },
            _ => {
                assert(piece.drop_last() =~= Seq::<Pattern>::empty());
                assert(piece.last() == x);
                assert(merge_insert_all(m, Seq::<Pattern>::empty()) == m);
                assert(merge_insert_all(m, piece) == merge_insert(m, x, 0));
                assert(merged(fs) == merge_insert(m, x, 0));
            },
        }
    } else {
        assert(splice_alternatives(fs) =~= Seq::<Pattern>::empty());
    }
}

/// `merge` keeps only the flattened alternatives it is given, with those of
/// a nested alternative opened up; it keeps no more of them than there are,
/// no two equal, and none covered by a later one.
pub proof fn lemma_merge_apart(input: Seq<Pattern>)
    ensures
        merge_spec(input).len() <= splice_alternatives(flatten_each(input)).len(),
        all_different(merge_spec(input)),
        kept_apart_text(merge_spec(input)),
        forall|k: int|
            0 <= k < merge_spec(input).len() ==> splice_alternatives(flatten_each(input)).contains(
                #[trigger] merge_spec(input)[k],
            ),
{
    let fs = flatten_each(input);
    let items = splice_alternatives(fs);
    let r = merge_spec(input);
    lemma_merged_spliced(fs);
    assert(kept_apart_text(Seq::<Pattern>::empty()));
    lemma_merge_insert_all_apart(seq![], items);
    assert forall|j: int, k: int| 0 <= j < k < r.len() implies #[trigger] r[j] != #[trigger] r[k] by {
        assert(!covers_text(r[k], r[j]));
    }
}

// ---------------------------------------------------------------------------
// Merging the parts of a concatenation twice
// ---------------------------------------------------------------------------

/// Parts as `join_merge` leaves them: no `NOTHING`, and no two neighbouring
/// texts.
pub open spec fn merged_parts(w: Seq<Pattern>) -> bool {
    &&& forall|i: int| 0 <= i < w.len() ==> !(#[trigger] w[i] is Nothing)
    &&& forall|i: int| 0 <= i < w.len() - 1 ==> !(is_text(#[trigger] w[i]) && is_text(w[i + 1]))
}

/// The text that a part stands for while it is gathered.
pub open spec fn pending_of(x: Pattern) -> Pending {
    match x {
        Pattern::Literal(l) => Pending::Text(l),
        Pattern::Char(c) => Pending::One(c),
        _ => Pending::Empty,
    }
}

/// The state after reading merged parts: all but a last text are kept, and
/// a last text is gathered.
pub open spec fn split_last_text(w: Seq<Pattern>) -> (Seq<Pattern>, Pending) {
    if w.len() > 0 && is_text(w.last()) {
        (w.drop_last(), pending_of(w.last()))
    } else {
        (w, Pending::Empty)
    }
}

proof fn lemma_flush_split(w: Seq<Pattern>)
    ensures
        flush(split_last_text(w).0, split_last_text(w).1) == w,
{
    if w.len() > 0 && is_text(w.last()) {
        assert(w.drop_last().push(w.last()) =~= w);
    }
}

proof fn lemma_join_state_merged(w: Seq<Pattern>)
    requires
        merged_parts(w),
    ensures
        join_state(w) == split_last_text(w),
    decreases w.len(),
{
    if w.len() > 0 {
        let pre = w.drop_last();
        let x = w.last();
        assert(merged_parts(pre)) by {
            assert forall|i: int| 0 <= i < pre.len() implies !(#[trigger] pre[i] is Nothing) by {
                assert(pre[i] == w[i]);
            }
            assert forall|i: int| 0 <= i < pre.len() - 1 implies !(is_text(#[trigger] pre[i]) && is_text(
                pre[i + 1],
            )) by {
                assert(pre[i] == w[i] && pre[i + 1] == w[i + 1]);
            }
        }
        lemma_join_state_merged(pre);
        assert(!(x is Nothing)) by {
            assert(w[w.len() - 1] == x);
        }
        if is_text(x) {
            if pre.len() > 0 {
                assert(w[w.len() - 2] == pre.last());
                assert(!is_text(pre.last()));
            }
            match x {
                Pattern::Literal(l) => {
                    assert(Seq::<char>::empty() + l =~= l);
                },
                _ => {},
            }
        } else {
            lemma_flush_split(pre);
            assert(pre.push(x) =~= w);
        }
    }
}

/// Parts that `join_merge` left come back from it unchanged.
proof fn lemma_join_merge_merged(w: Seq<Pattern>)
    requires
        merged_parts(w),
    ensures
        join_merge_spec(w) == w,
{
    lemma_join_state_merged(w);
    lemma_flush_split(w);
}

proof fn lemma_join_state_shape(v: Seq<Pattern>)
    ensures
        merged_parts(join_state(v).0),
        join_state(v).0.len() == 0 || !is_text(join_state(v).0.last()),
    decreases v.len(),
{
    if v.len() > 0 {
        let pre = v.drop_last();
        let x = v.last();
        lemma_join_state_shape(pre);
        let st = join_state(pre);
        match x {
            Pattern::Nothing | Pattern::Literal(_) | Pattern::Char(_) => {},
            _ => {
                let f = flush(st.0, st.1);
                lemma_flush_shape(st.0, st.1);
                let r = f.push(x);
                assert(join_state(v).0 == r);
                assert forall|i: int| 0 <= i < r.len() implies !(#[trigger] r[i] is Nothing) by {
                    if i < f.len() {
                        assert(r[i] == f[i]);
                    }
                }
                assert forall|i: int| 0 <= i < r.len() - 1 implies !(is_text(#[trigger] r[i]) && is_text(
                    r[i + 1],
                )) by {
                    assert(r[i] == f[i]);
                    if i + 1 < f.len() {
                        assert(r[i + 1] == f[i + 1]);
                    }
                }
            },
        }
    }
}

proof fn lemma_flush_shape(out: Seq<Pattern>, p: Pending)
    requires
        merged_parts(out),
        out.len() == 0 || !is_text(out.last()),
    ensures
        merged_parts(flush(out, p)),
{
    let f = flush(out, p);
    match p {
        Pending::Empty => {},
        _ => {
            assert forall|i: int| 0 <= i < f.len() implies !(#[trigger] f[i] is Nothing) by {
                if i < out.len() {
                    assert(f[i] == out[i]);
                }
            }
            assert forall|i: int| 0 <= i < f.len() - 1 implies !(is_text(#[trigger] f[i]) && is_text(
                f[i + 1],
            )) by {
                assert(f[i] == out[i]);
                if i + 1 < out.len() {
                    assert(f[i + 1] == out[i + 1]);
                } else {
                    assert(out[i] == out.last());
                }
            }
        },
    }
}

/// `join_merge` leaves no `NOTHING` and no two neighbouring texts, so
/// merging the parts a second time changes nothing.
pub proof fn lemma_join_merge_twice(v: Seq<Pattern>)
    ensures
        merged_parts(join_merge_spec(v)),
        join_merge_spec(join_merge_spec(v)) == join_merge_spec(v),
{
    lemma_join_state_shape(v);
    lemma_flush_shape(join_state(v).0, join_state(v).1);
    lemma_join_merge_merged(join_merge_spec(v));
}

} // verus!
