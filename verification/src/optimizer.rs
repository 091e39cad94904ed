//! A structural simplification pass over inlined expressions: nested
//! repetition operators collapse and alternatives are merged.

use vstd::prelude::*;

use crate::lexer::Builtin;
use crate::processor::{lemma_models_alternative, models, InlinedExpression, MergeStep, Pattern, same};

verus! {

/// The character of a literal that is one byte long: a single ASCII
/// character.
pub open spec fn single_ascii(l: Seq<char>) -> Option<char> {
    if l.len() == 1 && (l[0] as u32) < 0x80 {
        Some(l[0])
    } else {
        None
    }
}

/// What becomes of a new alternative when it meets a kept one, where single
/// characters are written as one-byte literals.
pub open spec fn merge_step(existing: Pattern, new: Pattern) -> MergeStep {
    if new == existing {
        MergeStep::Absorbed
    } else {
        match (new, existing) {
            (Pattern::Builtin(n), Pattern::Builtin(e)) => if e.spec_contains_builtin(n) {
                MergeStep::Absorbed
            } else if n.spec_contains_builtin(e) {
                MergeStep::Replaced(n)
            } else {
                MergeStep::Unrelated
            },
            (Pattern::Builtin(n), Pattern::Literal(e)) => match single_ascii(e) {
                Some(c) => if n.spec_contains(c) {
                    MergeStep::Replaced(n)
                } else {
                    MergeStep::Unrelated
                },
                None => MergeStep::Unrelated,
            },
            (Pattern::Literal(n), Pattern::Builtin(e)) => match single_ascii(n) {
                Some(c) => if e.spec_contains(c) {
                    MergeStep::Absorbed
                } else {
                    MergeStep::Unrelated
                },
                None => MergeStep::Unrelated,
            },
            _ => MergeStep::Unrelated,
        }
    }
}

/// Adds `new` to the kept alternatives, looking from position `j` on.
pub open spec fn merge_insert(out: Seq<Pattern>, new: Pattern, j: int) -> Seq<Pattern>
    decreases out.len() - j,
{
    if j < 0 || j >= out.len() {
        out.push(new)
    } else {
        match merge_step(out[j], new) {
            MergeStep::Absorbed => out,
            MergeStep::Replaced(b) => out.update(j, Pattern::Builtin(b)),
            MergeStep::Unrelated => merge_insert(out, new, j + 1),
        }
    }
}

/// Adds each of `items`, in order.
pub open spec fn merge_insert_all(out: Seq<Pattern>, items: Seq<Pattern>) -> Seq<Pattern>
    decreases items.len(),
{
    if items.len() == 0 {
        out
    } else {
        merge_insert(merge_insert_all(out, items.drop_last()), items.last(), 0)
    }
}

/// Merges flattened alternatives; the alternatives of a nested alternative
/// are merged one by one.
pub open spec fn merged(fs: Seq<Pattern>) -> Seq<Pattern>
    decreases fs.len(),
{
    if fs.len() == 0 {
        seq![]
    } else {
        match fs.last() {
            Pattern::Alternative(inner) => merge_insert_all(merged(fs.drop_last()), inner),
            other => merge_insert(merged(fs.drop_last()), other, 0),
        }
    }
}

/// The flattened form of a pattern.
pub open spec fn flatten_spec(p: Pattern) -> Pattern
    decreases p,
{
    match p {
        Pattern::Optional(v) => match flatten_spec(*v) {
            Pattern::Optional(i) => Pattern::Optional(i),
            Pattern::Multiple(i) => Pattern::ZeroOrMore(i),
            Pattern::ZeroOrMore(i) => Pattern::ZeroOrMore(i),
            other => Pattern::Optional(Box::new(other)),
        },
        Pattern::Multiple(v) => match flatten_spec(*v) {
            Pattern::Multiple(i) => Pattern::Multiple(i),
            Pattern::Optional(i) => Pattern::ZeroOrMore(i),
            Pattern::ZeroOrMore(i) => Pattern::ZeroOrMore(i),
            other => Pattern::Multiple(Box::new(other)),
        },
        Pattern::ZeroOrMore(v) => match flatten_spec(*v) {
            Pattern::Optional(i) => Pattern::ZeroOrMore(i),
            Pattern::Multiple(i) => Pattern::ZeroOrMore(i),
            Pattern::ZeroOrMore(i) => Pattern::ZeroOrMore(i),
            other => Pattern::ZeroOrMore(Box::new(other)),
        },
        Pattern::Alternative(v) => {
            let m = merged(flatten_each(v));
            if m.len() == 1 {
                m[0]
            } else {
                Pattern::Alternative(m)
            }
        },
        Pattern::Joined(v) => Pattern::Joined(flatten_each(v)),
        other => other,
    }
}

/// Each pattern flattened.
pub open spec fn flatten_each(v: Seq<Pattern>) -> Seq<Pattern>
    decreases v,
{
    Seq::new(
        v.len(),
        |i: int|
            if 0 <= i < v.len() {
                flatten_spec(v[i])
            } else {
                Pattern::Nothing
            },
    )
}

/// What `merge` keeps of a list of alternatives.
pub open spec fn merge_spec(input: Seq<Pattern>) -> Seq<Pattern> {
    merged(flatten_each(input))
}

fn single_ascii_of(l: &String) -> (r: Option<char>)
    ensures
        r == single_ascii(l@),
{
    if l.as_str().unicode_len() == 1 {
        let c = l.as_str().get_char(0);
        if c <= '\x7f' {
            return Some(c);
        }
    }
    None
}

fn merge_step_of(existing: &InlinedExpression, new: &InlinedExpression) -> (r: MergeStep)
    ensures
        r == merge_step(existing@, new@),
{
    if same(new, existing) {
        return MergeStep::Absorbed;
    }
    match new {
        InlinedExpression::Builtin(n) => match existing {
            InlinedExpression::Builtin(e) => {
                if e.contains_builtin(*n) {
                    MergeStep::Absorbed
                } else if n.contains_builtin(*e) {
                    MergeStep::Replaced(*n)
                } else {
                    MergeStep::Unrelated
                }
            },
            InlinedExpression::Literal(e) => match single_ascii_of(e) {
                Some(c) => {
                    if n.contains(c) {
                        MergeStep::Replaced(*n)
                    } else {
                        MergeStep::Unrelated
                    }
                },
                None => MergeStep::Unrelated,
            },
            _ => MergeStep::Unrelated,
        },
        InlinedExpression::Literal(n) => match existing {
            InlinedExpression::Builtin(e) => match single_ascii_of(n) {
                Some(c) => {
                    if e.contains(c) {
                        MergeStep::Absorbed
                    } else {
                        MergeStep::Unrelated
                    }
                },
                None => MergeStep::Unrelated,
            },
            _ => MergeStep::Unrelated,
        },
        _ => MergeStep::Unrelated,
    }
}

fn merge_insert_into(output: &mut Vec<InlinedExpression>, new: InlinedExpression)
    ensures
        models(final(output)@) == merge_insert(models(old(output)@), new@, 0),
{
    let mut j: usize = 0;
    while j < output.len()
        invariant
            j <= output.len(),
            output@ == old(output)@,
            merge_insert(models(output@), new@, 0) == merge_insert(models(output@), new@, j as int),
        decreases output.len() - j,
    {
        let step = merge_step_of(&output[j], &new);
        match step {
            MergeStep::Absorbed => {
                return;
            },
            MergeStep::Replaced(b) => {
                let ghost before = models(output@);
                output.set(j, InlinedExpression::Builtin(b));
                assert(models(output@) =~= before.update(j as int, Pattern::Builtin(b)));
                return;
            },
            MergeStep::Unrelated => {
                j = j + 1;
            },
        }
    }
    let ghost before = models(output@);
    output.push(new);
    assert(models(output@) =~= before.push(new@));
}

/// Merges a list of alternatives, each flattened first: the alternatives of
/// a nested alternative are merged one by one, an alternative equal to one
/// already kept is dropped, and of two related classes or a class and a
/// one-character literal, the wider one is kept in the place of the first.
#[verifier::loop_isolation(false)]
pub fn merge(input: Vec<InlinedExpression>) -> (output: Vec<InlinedExpression>)
    ensures
        models(output@) == merge_spec(models(input@)),
    decreases input,
{
    let ghost whole = input;
    let ghost kids = input@;
    let ghost fs = flatten_each(models(kids));
    let mut input = input;
    let mut output: Vec<InlinedExpression> = Vec::new();
    let ghost mut done: int = 0;
    assert(fs.take(0) =~= seq![]);
    while input.len() > 0
        invariant
            0 <= done <= kids.len(),
            kids.len() == done + input@.len(),
            input@ == kids.skip(done),
            kids == whole@,
            fs == flatten_each(models(kids)),
            models(output@) == merged(fs.take(done)),
        decreases input.len(),
    {
        let x = input.remove(0);
        assert(x == kids[done]);
        assert(input@ =~= kids.skip(done + 1));
        assert(decreases_to!(whole => x));
        let f = flatten(x);
        assert(f@ == fs[done]);
        assert(fs.take(done + 1).drop_last() =~= fs.take(done));
        let ghost out0 = models(output@);
        match f {
            InlinedExpression::Alternative(inner) => {
                proof {
                    lemma_models_alternative(inner);
                }
                let ghost items = models(inner@);
                let mut inner = inner;
                let ghost mut k: int = 0;
                assert(items.take(0) =~= seq![]);
                while inner.len() > 0
                    invariant
                        0 <= k <= items.len(),
                        items.len() == k + inner@.len(),
                        models(inner@) == items.skip(k),
                        models(output@) == merge_insert_all(out0, items.take(k)),
                    decreases inner.len(),
                {
                    let ghost before = inner@;
                    let item = inner.remove(0);
                    assert(models(before)[0] == item@);
                    assert(items.skip(k)[0] == items[k]);
                    assert(models(inner@) =~= models(before).skip(1));
                    assert(items.skip(k).skip(1) =~= items.skip(k + 1));
                    assert(items.take(k + 1).drop_last() =~= items.take(k));
                    merge_insert_into(&mut output, item);
                    proof {
                        k = k + 1;
                    }
                }
                assert(items.take(k) =~= items);
            },
            other => {
                merge_insert_into(&mut output, other);
            },
        }
        proof {
            done = done + 1;
        }
    }
    assert(fs.take(done) =~= fs);
    output
}

/// Flattens an expression: a repetition operator directly around another
/// collapses into one, and alternatives are merged.
pub fn flatten(expr: InlinedExpression) -> (r: InlinedExpression)
    ensures
        r@ == flatten_spec(expr@),
    decreases expr,
{
    match expr {
        InlinedExpression::Optional(v) => match flatten(*v) {
            InlinedExpression::Optional(i) => InlinedExpression::Optional(i),
            InlinedExpression::Multiple(i) => InlinedExpression::ZeroOrMore(i),
            InlinedExpression::ZeroOrMore(i) => InlinedExpression::ZeroOrMore(i),
            other => InlinedExpression::Optional(Box::new(other)),
        },
        InlinedExpression::Multiple(v) => match flatten(*v) {
            InlinedExpression::Multiple(i) => InlinedExpression::Multiple(i),
            InlinedExpression::Optional(i) => InlinedExpression::ZeroOrMore(i),
            InlinedExpression::ZeroOrMore(i) => InlinedExpression::ZeroOrMore(i),
            other => InlinedExpression::Multiple(Box::new(other)),
        },
        InlinedExpression::ZeroOrMore(v) => match flatten(*v) {
            InlinedExpression::Optional(i) => InlinedExpression::ZeroOrMore(i),
            InlinedExpression::Multiple(i) => InlinedExpression::ZeroOrMore(i),
            InlinedExpression::ZeroOrMore(i) => InlinedExpression::ZeroOrMore(i),
            other => InlinedExpression::ZeroOrMore(Box::new(other)),
        },
        InlinedExpression::Alternative(v) => {
            proof {
                lemma_models_alternative(v);
            }
            let mut m = merge(v);
            if m.len() == 1 {
                m.remove(0)
            } else {
                proof {
                    lemma_models_alternative(m);
                }
                InlinedExpression::Alternative(m)
            }
        },
        InlinedExpression::Joined(v) => {
            proof {
                lemma_models_alternative(v);
            }
            let r = flatten_all(v);
            proof {
                lemma_models_alternative(r);
            }
            InlinedExpression::Joined(r)
        },
        other => other,
    }
}

#[verifier::loop_isolation(false)]
fn flatten_all(v: Vec<InlinedExpression>) -> (r: Vec<InlinedExpression>)
    ensures
        models(r@) == flatten_each(models(v@)),
    decreases v,
{
    let ghost whole = v;
    let ghost kids = v@;
    let ghost fs = flatten_each(models(kids));
    let mut v = v;
    let mut out: Vec<InlinedExpression> = Vec::new();
    let ghost mut done: int = 0;
    assert(fs.take(0) =~= seq![]);
    while v.len() > 0
        invariant
            0 <= done <= kids.len(),
            kids.len() == done + v@.len(),
            v@ == kids.skip(done),
            kids == whole@,
            fs == flatten_each(models(kids)),
            models(out@) == fs.take(done),
        decreases v.len(),
    {
        let x = v.remove(0);
        assert(x == kids[done]);
        assert(v@ =~= kids.skip(done + 1));
        assert(decreases_to!(whole => x));
        let f = flatten(x);
        let ghost before = models(out@);
        out.push(f);
        assert(models(out@) =~= fs.take(done + 1));
        proof {
            done = done + 1;
        }
    }
    assert(fs.take(done) =~= fs);
    out
}

/// The optimization pass: flattening.
pub fn optimize(expr: InlinedExpression) -> (r: InlinedExpression)
    ensures
        r@ == flatten_spec(expr@),
{
    flatten(expr)
}

} // verus!
