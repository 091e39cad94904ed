//! Inlining of definitions with error reports that point into the source.
//!
//! As in `processor`, the definitions are kept as a list in file order and
//! looked up by name, so that every lookup is stated and proved.

use vstd::prelude::*;

use crate::diagnostic::{Diagnostic, Span};
use crate::parser::{def_models, Def, Definition};
use crate::processor::{
    expand,
    expand_spec,
    find_def,
    first_duplicate,
    models,
    name_seqs,
    process_spec,
    Pattern,
};
use crate::text::{char_string, push_str, str_eq};

verus! {

/// An expression with every definition inlined, in which a character is a
/// one-character literal and nothing is an empty concatenation.
///
/// `ZeroOrMore` is the Kleene star: an optional repetition.
#[derive(Debug, PartialEq, Eq)]
pub enum InlinedExpression {
    Literal(String),
    Builtin(crate::lexer::Builtin),
    Alternative(Vec<InlinedExpression>),
    Joined(Vec<InlinedExpression>),
    Optional(Box<InlinedExpression>),
    Multiple(Box<InlinedExpression>),
    ZeroOrMore(Box<InlinedExpression>),
}

impl View for InlinedExpression {
    type V = Pattern;

    open spec fn view(&self) -> Pattern {
        self.model()
    }
}

impl InlinedExpression {
    /// The value of the expression; also written `@`.
    pub open spec fn model(&self) -> Pattern
        decreases self,
    {
        match self {
            InlinedExpression::Literal(s) => Pattern::Literal(s@),
            InlinedExpression::Builtin(b) => Pattern::Builtin(*b),
            InlinedExpression::Alternative(v) => Pattern::Alternative(
                Seq::new(
                    v@.len(),
                    |i: int|
                        if 0 <= i < v@.len() {
                            v@[i].model()
                        } else {
                            Pattern::Nothing
                        },
                ),
            ),
            InlinedExpression::Joined(v) => Pattern::Joined(
                Seq::new(
                    v@.len(),
                    |i: int|
                        if 0 <= i < v@.len() {
                            v@[i].model()
                        } else {
                            Pattern::Nothing
                        },
                ),
            ),
            InlinedExpression::Optional(b) => Pattern::Optional(Box::new((**b).model())),
            InlinedExpression::Multiple(b) => Pattern::Multiple(Box::new((**b).model())),
            InlinedExpression::ZeroOrMore(b) => Pattern::ZeroOrMore(Box::new((**b).model())),
        }
    }
}

/// The values of a sequence of expressions.
pub open spec fn inlined_models(s: Seq<InlinedExpression>) -> Seq<Pattern> {
    s.map_values(|x: InlinedExpression| x@)
}

proof fn lemma_inlined_models(v: Vec<InlinedExpression>)
    ensures
        InlinedExpression::Alternative(v)@ == Pattern::Alternative(inlined_models(v@)),
        InlinedExpression::Joined(v)@ == Pattern::Joined(inlined_models(v@)),
{
    let a = InlinedExpression::Alternative(v);
    let j = InlinedExpression::Joined(v);
    assert(a@->Alternative_0 =~= inlined_models(v@));
    assert(j@->Joined_0 =~= inlined_models(v@));
}

/// A pattern in the form of this module: a character becomes a literal of
/// one character and nothing an empty concatenation.
pub open spec fn without_chars(p: Pattern) -> Pattern
    decreases p,
{
    match p {
        Pattern::Char(c) => Pattern::Literal(seq![c]),
        Pattern::Nothing => Pattern::Joined(seq![]),
        Pattern::Alternative(v) => Pattern::Alternative(without_chars_each(v)),
        Pattern::Joined(v) => Pattern::Joined(without_chars_each(v)),
        Pattern::Optional(x) => Pattern::Optional(Box::new(without_chars(*x))),
        Pattern::Multiple(x) => Pattern::Multiple(Box::new(without_chars(*x))),
        Pattern::ZeroOrMore(x) => Pattern::ZeroOrMore(Box::new(without_chars(*x))),
        other => other,
    }
}

pub open spec fn without_chars_each(v: Seq<Pattern>) -> Seq<Pattern>
    decreases v,
{
    Seq::new(
        v.len(),
        |i: int|
            if 0 <= i < v.len() {
                without_chars(v[i])
            } else {
                Pattern::Nothing
            },
    )
}

#[verifier::loop_isolation(false)]
fn convert(e: crate::processor::InlinedExpression) -> (r: InlinedExpression)
    ensures
        r@ == without_chars(e@),
    decreases e,
{
    let ghost me = e;
    match e {
        crate::processor::InlinedExpression::Literal(s) => InlinedExpression::Literal(s),
        crate::processor::InlinedExpression::Char(c) => InlinedExpression::Literal(char_string(c)),
        crate::processor::InlinedExpression::Builtin(b) => InlinedExpression::Builtin(b),
        crate::processor::InlinedExpression::Nothing => {
            let v: Vec<InlinedExpression> = Vec::new();
            proof {
                lemma_inlined_models(v);
            }
            assert(inlined_models(v@) =~= seq![]);
            InlinedExpression::Joined(v)
        },
        crate::processor::InlinedExpression::Optional(x) => InlinedExpression::Optional(Box::new(convert(*x))),
        crate::processor::InlinedExpression::Multiple(x) => InlinedExpression::Multiple(Box::new(convert(*x))),
        crate::processor::InlinedExpression::ZeroOrMore(x) => InlinedExpression::ZeroOrMore(Box::new(convert(*x))),
        crate::processor::InlinedExpression::Alternative(v) => {
            proof {
                crate::processor::lemma_models_alternative(v);
            }
            let r = convert_all(v);
            proof {
                lemma_inlined_models(r);
            }
            InlinedExpression::Alternative(r)
        },
        crate::processor::InlinedExpression::Joined(v) => {
            proof {
                crate::processor::lemma_models_alternative(v);
            }
            let r = convert_all(v);
            proof {
                lemma_inlined_models(r);
            }
            InlinedExpression::Joined(r)
        },
    }
}

#[verifier::loop_isolation(false)]
fn convert_all(v: Vec<crate::processor::InlinedExpression>) -> (r: Vec<InlinedExpression>)
    ensures
        inlined_models(r@) == without_chars_each(models(v@)),
    decreases v,
{
    let ghost whole = v;
    let ghost kids = v@;
    let ghost target = without_chars_each(models(kids));
    let mut v = v;
    let mut out: Vec<InlinedExpression> = Vec::new();
    let ghost mut done: int = 0;
    assert(target.take(0) =~= seq![]);
    assert(inlined_models(out@) =~= seq![]);
    while v.len() > 0
        invariant
            0 <= done <= kids.len(),
            kids.len() == done + v@.len(),
            v@ == kids.skip(done),
            kids == whole@,
            target == without_chars_each(models(kids)),
            inlined_models(out@) == target.take(done),
        decreases v.len(),
    {
        let x = v.remove(0);
        assert(x == kids[done]);
        assert(v@ =~= kids.skip(done + 1));
        assert(decreases_to!(whole => x));
        let c = convert(x);
        out.push(c);
        assert(inlined_models(out@) =~= target.take(done + 1));
        proof {
            done = done + 1;
        }
    }
    assert(target.take(done) =~= target);
    out
}

/// The definitions of a list with their spans.
pub open spec fn defs_of<'a>(expressions: Seq<(Definition<'a>, std::ops::Range<usize>)>) -> Seq<Def> {
    expressions.map_values(|e: (Definition<'a>, std::ops::Range<usize>)| e.0@)
}

/// The reports for the definitions whose name an earlier one already has:
/// their messages and spans, in order.
pub open spec fn redefinitions<'a>(expressions: Seq<(Definition<'a>, std::ops::Range<usize>)>) -> Seq<
    (Seq<char>, Option<(usize, usize)>),
>
    decreases expressions.len(),
{
    if expressions.len() == 0 {
        seq![]
    } else {
        let pre = expressions.drop_last();
        let last = expressions.last();
        if find_def(defs_of(pre), last.0.name@) is Some {
            redefinitions(pre).push(
                ("Redefinition of "@ + last.0.name@, Some((last.1.start, last.1.end))),
            )
        } else {
            redefinitions(pre)
        }
    }
}

/// What `inline` reports or gives: the messages and spans of its reports, or
/// the inlined pattern.
pub open spec fn inline_spec<'a>(
    root: Seq<char>,
    expressions: Seq<(Definition<'a>, std::ops::Range<usize>)>,
) -> Result<Pattern, Seq<(Seq<char>, Option<(usize, usize)>)>> {
    let defs = defs_of(expressions);
    if redefinitions(expressions).len() > 0 {
        Err(redefinitions(expressions))
    } else {
        match find_def(defs, root) {
            None => Err(seq![(root + " is not defined"@, None)]),
            Some(i) => match expand_spec(defs[i].value, defs, seq![], defs.len()) {
                Ok((p, _)) => Ok(without_chars(p)),
                Err(m) => Err(seq![(m, None)]),
            },
        }
    }
}

/// The message and span of a report.
pub open spec fn report<'a>(d: Diagnostic<'a>) -> (Seq<char>, Option<(usize, usize)>) {
    (
        d.error@,
        match d.span {
            Some(s) => Some((s.spec_start(), s.spec_end())),
            None => None,
        },
    )
}

/// The value of `inline`'s outcome: every report names the given file and
/// source.
pub open spec fn inline_outcome<'a>(
    r: Result<InlinedExpression, Vec<Diagnostic<'a>>>,
    path: &'a str,
    source: &'a str,
) -> Result<Pattern, Seq<(Seq<char>, Option<(usize, usize)>)>> {
    match r {
        Ok(e) => Ok(e@),
        Err(ds) => Err(ds@.map_values(|d: Diagnostic<'a>| report(d))),
    }
}

pub open spec fn reports_name<'a>(
    r: Result<InlinedExpression, Vec<Diagnostic<'a>>>,
    path: &'a str,
    source: &'a str,
) -> bool {
    r matches Err(ds) ==> forall|k: int|
        0 <= k < ds@.len() ==> #[trigger] ds@[k].path == path && ds@[k].source == source
}

fn span_of(range: std::ops::Range<usize>) -> (s: Span)
    ensures
        s.spec_start() == range.start,
        s.spec_end() == range.end,
{
    let s = Span::from(range);
    proof {
        crate::diagnostic::lemma_span_from_range(range);
    }
    s
}

/// Inlines the definition named `root`. Every definition whose name an
/// earlier one already has is reported with its span; else a missing root,
/// a name without definition and a recursive loop are reported without one.
pub fn inline<'a>(
    path: &'a str,
    source: &'a str,
    root: &'a str,
    expressions: Vec<(Definition<'a>, std::ops::Range<usize>)>,
) -> (r: Result<InlinedExpression, Vec<Diagnostic<'a>>>)
    ensures
        inline_outcome(r, path, source) == inline_spec(root@, expressions@),
        reports_name(r, path, source),
{
    let ghost all = expressions@;
    let mut expressions = expressions;
    let mut definitions: Vec<Definition<'a>> = Vec::new();
    let mut diagnostics: Vec<Diagnostic<'a>> = Vec::new();
    let ghost mut done: int = 0;
    assert(defs_of(all.take(0)) =~= def_models(definitions@));
    assert(diagnostics@.map_values(|d: Diagnostic<'a>| report(d)) =~= redefinitions(all.take(0)));
    while expressions.len() > 0
        invariant
            0 <= done <= all.len(),
            all.len() == done + expressions@.len(),
            expressions@ == all.skip(done),
            def_models(definitions@) == defs_of(all.take(done)),
            diagnostics@.map_values(|d: Diagnostic<'a>| report(d)) == redefinitions(all.take(done)),
            forall|k: int|
                0 <= k < diagnostics@.len() ==> #[trigger] diagnostics@[k].path == path
                    && diagnostics@[k].source == source,
        decreases expressions.len(),
    {
        let (definition, span) = expressions.remove(0);
        assert(all[done] == (definition, span));
        assert(expressions@ =~= all.skip(done + 1));
        let ghost pre = all.take(done);
        assert(all.take(done + 1).drop_last() =~= pre);
        assert(all.take(done + 1).last() == all[done]);
        let ghost dprev = def_models(definitions@);
        let mut seen = false;
        let mut j: usize = 0;
        while j < definitions.len() && !seen
            invariant
                j <= definitions.len(),
                def_models(definitions@) == dprev,
                dprev == defs_of(pre),
                seen ==> j < definitions.len() && find_def(dprev.take(j + 1), definition.name@) is Some,
                !seen ==> find_def(dprev.take(j as int), definition.name@) is None,
            decreases definitions.len() - j, if seen { 0int } else { 1int },
        {
            assert(dprev.take(j + 1).drop_last() =~= dprev.take(j as int));
            if str_eq(definitions[j].name, definition.name) {
                assert(find_def(dprev.take(j + 1), definition.name@) is Some);
                seen = true;
            } else {
                j = j + 1;
            }
        }
        proof {
            if seen {
                crate::processor::lemma_find_def_prefix(dprev, j + 1, definition.name@);
            } else {
                assert(dprev.take(j as int) =~= dprev);
            }
        }
        let ghost reports0 = diagnostics@.map_values(|d: Diagnostic<'a>| report(d));
        if seen {
            let mut error = String::from_str("Redefinition of ");
            push_str(&mut error, definition.name);
            let d = Diagnostic { path, source, error, span: Some(span_of(span)) };
            let ghost dg0 = diagnostics@;
            diagnostics.push(d);
            assert forall|k: int| 0 <= k < diagnostics@.len() implies #[trigger] diagnostics@[k].path
                == path && diagnostics@[k].source == source by {
                if k < dg0.len() {
                    assert(diagnostics@[k] == dg0[k]);
                }
            }
            assert(diagnostics@.map_values(|d: Diagnostic<'a>| report(d)) =~= reports0.push(
                ("Redefinition of "@ + definition.name@, Some((span.start, span.end))),
            ));
        }
        assert(forall|k: int|
            0 <= k < diagnostics@.len() ==> #[trigger] diagnostics@[k].path == path
                && diagnostics@[k].source == source);
        let ghost dm0 = def_models(definitions@);
        definitions.push(definition);
        assert(def_models(definitions@) =~= dm0.push(definition@));
        assert(defs_of(all.take(done + 1)) =~= defs_of(pre).push(definition@));
        proof {
            done = done + 1;
        }
    }
    assert(all.take(done) =~= all);
    if diagnostics.len() > 0 {
        return Err(diagnostics);
    }
    let ghost defs = def_models(definitions@);
    let mut k: usize = 0;
    let mut found = false;
    while k < definitions.len() && !found
        invariant
            k <= definitions.len(),
            defs == def_models(definitions@),
            found ==> k < definitions.len() && find_def(defs, root@) == Some(k as int),
            !found ==> find_def(defs.take(k as int), root@) is None,
        decreases definitions.len() - k, if found { 0int } else { 1int },
    {
        assert(defs.take(k + 1).drop_last() =~= defs.take(k as int));
        if str_eq(definitions[k].name, root) {
            assert(find_def(defs.take(k + 1), root@) == Some(k as int));
            proof {
                crate::processor::lemma_find_def_prefix(defs, k + 1, root@);
            }
            found = true;
        } else {
            k = k + 1;
        }
    }
    if !found {
        assert(defs.take(k as int) =~= defs);
        let mut error = String::from_str(root);
        push_str(&mut error, " is not defined");
        let mut ds: Vec<Diagnostic<'a>> = Vec::new();
        ds.push(Diagnostic { path, source, error, span: None });
        assert(ds@.map_values(|d: Diagnostic<'a>| report(d)) =~= seq![(root@ + " is not defined"@, None)]);
        return Err(ds);
    }
    let mut rec: Vec<&'a str> = Vec::new();
    assert(name_seqs(rec@) =~= seq![]);
    match expand(&definitions[k].value, &definitions, &mut rec, definitions.len()) {
        Ok(x) => Ok(convert(x)),
        Err(error) => {
            let mut ds: Vec<Diagnostic<'a>> = Vec::new();
            let ghost m = error@;
            ds.push(Diagnostic { path, source, error, span: None });
            assert(ds@.map_values(|d: Diagnostic<'a>| report(d)) =~= seq![(m, None)]);
            Err(ds)
        },
    }
}

/// A name that an earlier definition already has is reported exactly when
/// `first_duplicate` finds one.
proof fn lemma_redefinitions_found<'a>(expressions: Seq<(Definition<'a>, std::ops::Range<usize>)>)
    ensures
        (redefinitions(expressions).len() > 0) == (first_duplicate(defs_of(expressions)) is Some),
    decreases expressions.len(),
{
    if expressions.len() > 0 {
        let pre = expressions.drop_last();
        lemma_redefinitions_found(pre);
        assert(defs_of(expressions).drop_last() =~= defs_of(pre));
        assert(defs_of(expressions).last() == expressions.last().0@);
    }
}

/// Inlining the root `EXPORT` agrees with `process`: both reject the same
/// lists for a repeated name, and otherwise `inline` gives what `process`
/// gives (in the form of this module) or reports, without a span, the
/// message of its error.
pub proof fn lemma_inline_agrees_with_process<'a>(
    expressions: Seq<(Definition<'a>, std::ops::Range<usize>)>,
)
    ensures
        (inline_spec("EXPORT"@, expressions) matches Err(r) && r.len() > 0 && r[0].1 is Some)
            == (first_duplicate(defs_of(expressions)) is Some),
        first_duplicate(defs_of(expressions)) is None ==> inline_spec("EXPORT"@, expressions)
            == match process_spec(defs_of(expressions)) {
            Ok(p) => Ok(without_chars(p)),
            Err(m) => Err(seq![(m, None::<(usize, usize)>)]),
        },
{
    lemma_redefinitions_found(expressions);
    reveal_strlit("EXPORT");
    reveal_strlit(" is not defined");
    reveal_strlit("EXPORT is not defined");
    assert("EXPORT"@ + " is not defined"@ =~= "EXPORT is not defined"@);
    let r = redefinitions(expressions);
    if r.len() > 0 {
        lemma_redefinitions_spans(expressions);
    }
}

/// Every report of a repeated name carries the span of its definition.
proof fn lemma_redefinitions_spans<'a>(expressions: Seq<(Definition<'a>, std::ops::Range<usize>)>)
    ensures
        forall|k: int|
            0 <= k < redefinitions(expressions).len() ==> (#[trigger] redefinitions(expressions)[k]).1 is Some,
    decreases expressions.len(),
{
    if expressions.len() > 0 {
        lemma_redefinitions_spans(expressions.drop_last());
    }
}

} // verus!
