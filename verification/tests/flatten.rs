use regdef::lexer::Builtin;
use regdef::optimizer::{flatten, merge, optimize};
use regdef::processor::InlinedExpression;

fn lit() -> InlinedExpression {
    InlinedExpression::Literal("x".to_owned())
}

fn lit_d(s: &str) -> InlinedExpression {
    InlinedExpression::Literal(s.to_owned())
}

fn opt(x: InlinedExpression) -> InlinedExpression {
    InlinedExpression::Optional(Box::new(x))
}

fn mul(x: InlinedExpression) -> InlinedExpression {
    InlinedExpression::Multiple(Box::new(x))
}

fn some(x: InlinedExpression) -> InlinedExpression {
    InlinedExpression::ZeroOrMore(Box::new(x))
}

fn alt(x: Vec<InlinedExpression>) -> InlinedExpression {
    InlinedExpression::Alternative(x)
}

fn join(x: Vec<InlinedExpression>) -> InlinedExpression {
    InlinedExpression::Joined(x)
}

#[test]
fn flatten_opt_opt() {
    assert_eq!(flatten(opt(opt(lit()))), opt(lit()));
}

#[test]
fn flatten_opt_mul() {
    assert_eq!(flatten(opt(mul(lit()))), some(lit()));
}

#[test]
fn flatten_opt_some() {
    assert_eq!(flatten(opt(some(lit()))), some(lit()));
}

#[test]
fn flatten_mul_opt() {
    assert_eq!(flatten(mul(opt(lit()))), some(lit()));
}

#[test]
fn flatten_mul_mul() {
    assert_eq!(flatten(mul(mul(lit()))), mul(lit()));
}

#[test]
fn flatten_mul_some() {
    assert_eq!(flatten(mul(some(lit()))), some(lit()));
}

#[test]
fn flatten_some_opt() {
    assert_eq!(flatten(some(opt(lit()))), some(lit()));
}

#[test]
fn flatten_some_mul() {
    assert_eq!(flatten(some(mul(lit()))), some(lit()));
}

#[test]
fn flatten_some_some() {
    assert_eq!(flatten(some(some(lit()))), some(lit()));
}

#[test]
fn flatten_opt_opt_mul() {
    assert_eq!(flatten(opt(opt(mul(lit())))), some(lit()));
}

#[test]
fn flatten_opt_mul_opt() {
    assert_eq!(flatten(opt(mul(opt(lit())))), some(lit()));
}

#[test]
fn flatten_mul_mul_opt() {
    assert_eq!(flatten(mul(mul(opt(lit())))), some(lit()));
}

#[test]
fn flatten_mul_opt_mul() {
    assert_eq!(flatten(mul(opt(mul(lit())))), some(lit()));
}

#[test]
fn flatten_opt_mul_mul_opt() {
    assert_eq!(flatten(opt(mul(mul(opt(lit()))))), some(lit()));
}

#[test]
fn flatten_alt_opt_mul() {
    assert_eq!(flatten(alt(vec![opt(mul(lit()))])), some(lit()));
}

#[test]
fn flatten_join_mul_opt() {
    assert_eq!(flatten(join(vec![mul(opt(lit()))])), join(vec![some(lit())]));
}

#[test]
fn flatten_alt3() {
    assert_eq!(
        flatten(alt(vec![alt(vec![lit_d("a"), lit_d("b")]), lit_d("c")])),
        alt(vec![lit_d("a"), lit_d("b"), lit_d("c")])
    );
}

#[test]
fn optimize_is_flatten() {
    assert_eq!(optimize(mul(opt(lit()))), some(lit()));
}

#[test]
fn merge_rules() {
    let out = merge(vec![
        lit_d("5"),
        lit_d("ab"),
        InlinedExpression::Builtin(Builtin::Digit),
        lit_d("7"),
        lit_d("ab"),
        opt(opt(lit_d("z"))),
    ]);
    assert_eq!(
        out,
        vec![InlinedExpression::Builtin(Builtin::Digit), lit_d("ab"), opt(lit_d("z"))]
    );
}

#[test]
fn merge_keeps_apart() {
    let out = merge(vec![
        alt(vec![lit_d("a"), InlinedExpression::Builtin(Builtin::Digit)]),
        lit_d("a"),
        InlinedExpression::Builtin(Builtin::WordChar),
        InlinedExpression::Builtin(Builtin::Digit),
        lit_d("5"),
    ]);
    assert_eq!(out, vec![InlinedExpression::Builtin(Builtin::WordChar), InlinedExpression::Builtin(Builtin::Digit)]);
    for j in 0..out.len() {
        for k in j + 1..out.len() {
            assert_ne!(out[j], out[k]);
        }
    }
}

#[test]
fn merge_class_after_one_char_literal() {
    let out = merge(vec![
        lit_d("a"),
        InlinedExpression::Builtin(Builtin::WordChar),
        InlinedExpression::Builtin(Builtin::WordChar),
    ]);
    assert_eq!(out, vec![InlinedExpression::Builtin(Builtin::WordChar)]);
}
