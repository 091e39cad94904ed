use regdef::lexer::Builtin;
use regdef::processor::{alt_merge, join_merge, InlinedExpression};

fn lit() -> InlinedExpression {
    InlinedExpression::Char('x')
}

fn lit_d(c: char) -> InlinedExpression {
    InlinedExpression::Char(c)
}

fn opt(x: InlinedExpression) -> InlinedExpression {
    InlinedExpression::Optional(Box::new(x))
}

fn mul(x: InlinedExpression) -> InlinedExpression {
    InlinedExpression::Multiple(Box::new(x))
}

fn some(x: InlinedExpression) -> InlinedExpression {
    InlinedExpression::ZeroOrMore(Box::new(x))
}

fn alt(x: Vec<InlinedExpression>) -> InlinedExpression {
    InlinedExpression::Alternative(x)
}

fn join(x: Vec<InlinedExpression>) -> InlinedExpression {
    InlinedExpression::Joined(x)
}

fn text(s: &str) -> InlinedExpression {
    InlinedExpression::Literal(s.to_owned())
}

#[test]
fn opt_opt() {
    assert_eq!(opt(opt(lit())).optimize(), opt(lit()));
}

#[test]
fn opt_mul() {
    assert_eq!(opt(mul(lit())).optimize(), some(lit()));
}

#[test]
fn opt_some() {
    assert_eq!(opt(some(lit())).optimize(), some(lit()));
}

#[test]
fn mul_opt() {
    assert_eq!(mul(opt(lit())).optimize(), some(lit()));
}

#[test]
fn mul_mul() {
    assert_eq!(mul(mul(lit())).optimize(), mul(lit()));
}

#[test]
fn mul_some() {
    assert_eq!(mul(some(lit())).optimize(), some(lit()));
}

#[test]
fn some_opt() {
    assert_eq!(some(opt(lit())).optimize(), some(lit()));
}

#[test]
fn some_mul() {
    assert_eq!(some(mul(lit())).optimize(), some(lit()));
}

#[test]
fn some_some() {
    assert_eq!(some(some(lit())).optimize(), some(lit()));
}

#[test]
fn opt_opt_mul() {
    assert_eq!(opt(opt(mul(lit()))).optimize(), some(lit()));
}

#[test]
fn opt_mul_opt() {
    assert_eq!(opt(mul(opt(lit()))).optimize(), some(lit()));
}

#[test]
fn mul_mul_opt() {
    assert_eq!(mul(mul(opt(lit()))).optimize(), some(lit()));
}

#[test]
fn mul_opt_mul() {
    assert_eq!(mul(opt(mul(lit()))).optimize(), some(lit()));
}

#[test]
fn opt_mul_mul_opt() {
    assert_eq!(opt(mul(mul(opt(lit())))).optimize(), some(lit()));
}

#[test]
fn alt_opt_mul() {
    assert_eq!(alt(vec![opt(mul(lit()))]).optimize(), some(lit()));
}

#[test]
fn join_mul_opt() {
    assert_eq!(join(vec![mul(opt(lit()))]).optimize(), some(lit()));
}

#[test]
fn alt3() {
    assert_eq!(
        alt(vec![alt(vec![lit_d('a'), lit_d('b')]), lit_d('c')]).optimize(),
        alt(vec![lit_d('a'), lit_d('b'), lit_d('c')])
    );
}

#[test]
fn optimize_literal_shapes() {
    assert_eq!(text("").optimize(), InlinedExpression::Nothing);
    assert_eq!(text("a").optimize(), lit_d('a'));
    assert_eq!(text("é").optimize(), text("é"));
    assert_eq!(text("ab").optimize(), text("ab"));
}

#[test]
fn optimize_alternative_with_nothing() {
    assert_eq!(
        alt(vec![lit_d('a'), InlinedExpression::Nothing]).optimize(),
        opt(lit_d('a'))
    );
    assert_eq!(
        alt(vec![mul(lit_d('a')), InlinedExpression::Nothing]).optimize(),
        some(lit_d('a'))
    );
    assert_eq!(
        alt(vec![InlinedExpression::Nothing, InlinedExpression::Nothing]).optimize(),
        InlinedExpression::Nothing
    );
}

#[test]
fn optimize_join_texts() {
    assert_eq!(
        join(vec![text("ab"), lit_d('c'), InlinedExpression::Nothing, text("de")]).optimize(),
        text("abcde")
    );
    assert_eq!(
        join(vec![lit_d('a'), InlinedExpression::Builtin(Builtin::Digit), join(vec![text("bc"), lit_d('d')])])
            .optimize(),
        join(vec![lit_d('a'), InlinedExpression::Builtin(Builtin::Digit), text("bcd")])
    );
    assert_eq!(join(vec![]).optimize(), InlinedExpression::Nothing);
}

#[test]
fn optimize_merges_classes() {
    let d = InlinedExpression::Builtin(Builtin::Digit);
    let w = InlinedExpression::Builtin(Builtin::WordChar);
    assert_eq!(alt(vec![lit_d('a'), d, w]).optimize(), alt(vec![InlinedExpression::Builtin(Builtin::WordChar), InlinedExpression::Builtin(Builtin::Digit)]));
}

#[test]
fn alt_merge_rules() {
    let out = alt_merge(vec![
        lit_d('a'),
        lit_d('a'),
        lit_d('5'),
        InlinedExpression::Builtin(Builtin::Digit),
        lit_d('7'),
        InlinedExpression::Builtin(Builtin::Space),
        InlinedExpression::Builtin(Builtin::WhiteSpace),
        lit_d('\t'),
    ]);
    assert_eq!(
        out,
        vec![
            lit_d('a'),
            InlinedExpression::Builtin(Builtin::Digit),
            InlinedExpression::Builtin(Builtin::WhiteSpace),
        ]
    );
}

#[test]
fn alt_merge_keeps_unrelated() {
    let out = alt_merge(vec![text("ab"), lit_d('_'), InlinedExpression::Builtin(Builtin::WordChar)]);
    assert_eq!(
        out,
        vec![text("ab"), lit_d('_'), InlinedExpression::Builtin(Builtin::WordChar)]
    );
}

#[test]
fn join_merge_rules() {
    let out = join_merge(vec![
        lit_d('a'),
        InlinedExpression::Nothing,
        lit_d('b'),
        InlinedExpression::Builtin(Builtin::Tab),
        text("cd"),
        lit_d('e'),
        opt(lit_d('f')),
        lit_d('g'),
    ]);
    assert_eq!(
        out,
        vec![
            text("ab"),
            InlinedExpression::Builtin(Builtin::Tab),
            text("cde"),
            opt(lit_d('f')),
            lit_d('g'),
        ]
    );
}

#[test]
fn join_merge_empty_literal_keeps_text() {
    assert_eq!(join_merge(vec![lit_d('a'), text("")]), vec![text("a")]);
}

#[test]
fn alt_merge_keeps_apart() {
    let input = || {
        vec![
            lit_d('a'),
            InlinedExpression::Builtin(Builtin::Digit),
            lit_d('a'),
            InlinedExpression::Builtin(Builtin::WordChar),
            lit_d('b'),
            InlinedExpression::Builtin(Builtin::Digit),
        ]
    };
    let out = alt_merge(input());
    assert!(out.len() <= input().len());
    assert_eq!(out, vec![InlinedExpression::Builtin(Builtin::WordChar), InlinedExpression::Builtin(Builtin::Digit)]);
    for j in 0..out.len() {
        for k in j + 1..out.len() {
            assert_ne!(out[j], out[k]);
        }
    }
}

#[test]
fn join_merge_twice() {
    let input = || {
        vec![
            lit_d('a'),
            InlinedExpression::Nothing,
            text("bc"),
            InlinedExpression::Builtin(Builtin::Digit),
            lit_d('d'),
            opt(lit_d('e')),
            text(""),
        ]
    };
    let once = join_merge(input());
    assert_eq!(join_merge(join_merge(input())), once);
    assert_eq!(
        once,
        vec![text("abc"), InlinedExpression::Builtin(Builtin::Digit), lit_d('d'), opt(lit_d('e')), text("")]
    );
}
