use regdef::lexer::Builtin;
use regdef::optimizer::flatten;
use regdef::processor::InlinedExpression;

fn ch(c: char) -> InlinedExpression {
    InlinedExpression::Char(c)
}

fn text(s: &str) -> InlinedExpression {
    InlinedExpression::Literal(s.to_owned())
}

fn opt(x: InlinedExpression) -> InlinedExpression {
    InlinedExpression::Optional(Box::new(x))
}

fn mul(x: InlinedExpression) -> InlinedExpression {
    InlinedExpression::Multiple(Box::new(x))
}

fn some(x: InlinedExpression) -> InlinedExpression {
    InlinedExpression::ZeroOrMore(Box::new(x))
}

fn alt(x: Vec<InlinedExpression>) -> InlinedExpression {
    InlinedExpression::Alternative(x)
}

fn join(x: Vec<InlinedExpression>) -> InlinedExpression {
    InlinedExpression::Joined(x)
}

fn samples() -> Vec<&'static str> {
    vec![
        "", "a", "aa", "aaa", "b", "5", "7", "c", "cd", "d", "x", "xy", "x ", "xyx ", "xx", "ab",
        "ba", "aab", "abab", "y", " ", "5b", "cdcd",
    ]
}

/// A plain rendering, with every operand grouped, to check matches with.
fn render(e: &InlinedExpression) -> String {
    match e {
        InlinedExpression::Literal(s) => regex::escape(s),
        InlinedExpression::Char(c) => regex::escape(&c.to_string()),
        InlinedExpression::Builtin(b) => match b {
            Builtin::Digit => "[0-9]".to_owned(),
            Builtin::Space => " ".to_owned(),
            Builtin::Tab => "\\t".to_owned(),
            _ => panic!("class not used here"),
        },
        InlinedExpression::Alternative(v) => {
            format!("(?:{})", v.iter().map(render).collect::<Vec<_>>().join("|"))
        }
        InlinedExpression::Joined(v) => v.iter().map(|p| format!("(?:{})", render(p))).collect(),
        InlinedExpression::Optional(x) => format!("(?:{})?", render(x)),
        InlinedExpression::Multiple(x) => format!("(?:{})+", render(x)),
        InlinedExpression::ZeroOrMore(x) => format!("(?:{})*", render(x)),
        InlinedExpression::Nothing => String::new(),
    }
}

fn whole(expr: InlinedExpression) -> regex::Regex {
    regex::Regex::new(&format!("^(?:{})$", render(&expr))).unwrap()
}

fn shapes() -> Vec<fn() -> InlinedExpression> {
    vec![
        || {
            alt(vec![
                opt(mul(ch('a'))),
                ch('b'),
                InlinedExpression::Builtin(Builtin::Digit),
                ch('5'),
                join(vec![text("c"), InlinedExpression::Nothing, ch('d')]),
            ])
        },
        || mul(opt(join(vec![ch('x'), alt(vec![ch('y'), InlinedExpression::Builtin(Builtin::Space)])]))),
        || some(alt(vec![alt(vec![ch('a'), ch('b')]), text("cd")])),
        || join(vec![join(vec![text("a"), text("")]), mul(mul(ch('b')))]),
    ]
}

#[test]
fn optimize_keeps_matches() {
    for shape in shapes() {
        let before = whole(shape());
        let after = whole(shape().optimize());
        for s in samples() {
            assert_eq!(before.is_match(s), after.is_match(s), "{s:?}");
        }
    }
}

#[test]
fn flatten_keeps_matches() {
    for shape in shapes() {
        let before = whole(shape());
        let after = whole(flatten(shape()));
        for s in samples() {
            assert_eq!(before.is_match(s), after.is_match(s), "{s:?}");
        }
    }
}
