//! A direct printer of parsed expressions, for expressions made of literals,
//! classes, concatenations and alternatives only.

use vstd::prelude::*;

use std::collections::HashMap;

use crate::generator::{join_strings, literal_regex, literal_text};
use crate::parser::{expr_models, lemma_expr_models, Expr, Expression};
use crate::text::{concat_all, join_with, push_str};
use crate::RegexKind;

verus! {

/// An expression that `compile` handles: literals and classes, joined and
/// separated by alternatives.
pub open spec fn plain(e: Expr) -> bool
    decreases e,
{
    match e {
        Expr::Literal(_) | Expr::Builtin(_) => true,
        Expr::Alternative(v) => forall|i: int| 0 <= i < v.len() ==> plain(#[trigger] v[i]),
        Expr::Joined(v) => forall|i: int| 0 <= i < v.len() ==> plain(#[trigger] v[i]),
        _ => false,
    }
}

/// The RE2 text of a plain expression.
pub open spec fn compile_expr(e: Expr) -> Seq<char>
    decreases e,
{
    match e {
        Expr::Literal(l) => literal_text(l),
        Expr::Builtin(b) => b.spec_build(),
        Expr::Joined(v) => concat_all(compile_each(v)),
        Expr::Alternative(v) => "(?:"@ + join_with(compile_each(v), "|"@) + ")"@,
        _ => seq![],
    }
}

proof fn lemma_plain_parts(e: Expr)
    requires
        plain(e),
    ensures
        e is Joined ==> forall|k: int| 0 <= k < e->Joined_0.len() ==> plain(#[trigger] e->Joined_0[k]),
        e is Alternative ==> forall|k: int|
            0 <= k < e->Alternative_0.len() ==> plain(#[trigger] e->Alternative_0[k]),
{
}

pub open spec fn compile_each(v: Seq<Expr>) -> Seq<Seq<char>>
    decreases v,
{
    Seq::new(
        v.len(),
        |i: int|
            if 0 <= i < v.len() {
                compile_expr(v[i])
            } else {
                seq![]
            },
    )
}

/// Prints a plain expression as an RE2 regex; only RE2 is supported.
#[verifier::loop_isolation(false)]
pub fn compile<'a>(
    expression: &'a Expression,
    definitions: &'a HashMap<&'a str, Expression>,
    regex_kind: RegexKind,
) -> (r: String)
    requires
        regex_kind == RegexKind::Re2,
        plain(expression@),
    ensures
        r@ == compile_expr(expression@),
    decreases expression,
{
    match expression {
        Expression::Literal(literal) => literal_regex(literal.as_str()),
        Expression::Joined(v) => {
            proof {
                lemma_expr_models(*v);
            }
            let ghost ts = compile_each(expr_models(v@));
            proof {
                lemma_plain_parts(expression@);
                assert forall|k: int| 0 <= k < v@.len() implies plain(#[trigger] v@[k]@) by {
                    assert(expr_models(v@)[k] == v@[k]@);
                }
            }
            let mut out = String::new();
            let mut i: usize = 0;
            assert(ts.take(0) =~= seq![]);
            while i < v.len()
                invariant
                    i <= v.len(),
                    ts == compile_each(expr_models(v@)),
                    forall|k: int| 0 <= k < v@.len() ==> plain(#[trigger] v@[k]@),
                    out@ == concat_all(ts.take(i as int)),
                    regex_kind == RegexKind::Re2,
                decreases v.len() - i,
            {
                assert(expr_models(v@)[i as int] == v@[i as int]@);
                assert(decreases_to!(expression => v@[i as int]));
                let part = compile(&v[i], definitions, regex_kind);
                assert(ts.take(i + 1).drop_last() =~= ts.take(i as int));
                push_str(&mut out, part.as_str());
                i = i + 1;
            }
            assert(ts.take(i as int) =~= ts);
            out
        },
        Expression::Alternative(v) => {
            proof {
                lemma_expr_models(*v);
            }
            let ghost ts = compile_each(expr_models(v@));
            proof {
                lemma_plain_parts(expression@);
                assert forall|k: int| 0 <= k < v@.len() implies plain(#[trigger] v@[k]@) by {
                    assert(expression@->Alternative_0 == expr_models(v@));
                    assert(expr_models(v@)[k] == v@[k]@);
                }
            }
            let mut parts: Vec<String> = Vec::new();
            let mut i: usize = 0;
            assert(ts.take(0) =~= parts@.map_values(|p: String| p@));
            while i < v.len()
                invariant
                    i <= v.len(),
                    ts == compile_each(expr_models(v@)),
                    forall|k: int| 0 <= k < v@.len() ==> plain(#[trigger] v@[k]@),
                    parts@.map_values(|p: String| p@) == ts.take(i as int),
                    regex_kind == RegexKind::Re2,
                decreases v.len() - i,
            {
                assert(expr_models(v@)[i as int] == v@[i as int]@);
                assert(decreases_to!(expression => v@[i as int]));
                let part = compile(&v[i], definitions, regex_kind);
                let ghost before = parts@.map_values(|p: String| p@);
                parts.push(part);
                assert(parts@.map_values(|p: String| p@) =~= ts.take(i + 1));
                i = i + 1;
            }
            assert(ts.take(i as int) =~= ts);
            let joined = join_strings(&parts, "|");
            let mut out = String::from_str("(?:");
            push_str(&mut out, joined.as_str());
            push_str(&mut out, ")");
            out
        },
        Expression::Builtin(b) => {
            let mut out = String::new();
            push_str(&mut out, b.build());
            out
        },
        _ => String::new(),
    }
}

} // verus!
