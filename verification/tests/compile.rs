use regdef::{compile, RegexKind};

fn re2(input: &str) -> String {
    compile(input, RegexKind::Re2).expect("Failed to compile")
}

#[test]
fn lit() {
    assert_eq!(re2(r#"EXPORT := "abc""#), r"abc");
}

#[test]
fn lit_escape_newline() {
    assert_eq!(re2(r#"EXPORT := "\n""#), r"\n");
}

#[test]
fn lit_escape_tab() {
    // The literal holds one tab character.
    assert_eq!(re2("EXPORT := \"\t\""), r"\t");
}

#[test]
fn lit_escape_dot() {
    assert_eq!(re2(r#"EXPORT := ".""#), r"\.");
}

#[test]
fn lit_join() {
    assert_eq!(re2(r#"EXPORT := "a" + DIGIT"#), r"a\d");
}

#[test]
fn alt_chars_chain() {
    assert_eq!(re2(r#"EXPORT := "a" / "b" / DIGIT"#), r"[ab\d]");
}

#[test]
fn alt_chars_hyphen() {
    // Both literals are closed; an unclosed literal is a lexer error.
    assert_eq!(re2(r#"EXPORT := "-" / "b""#), r"[-b]");
}

#[test]
fn alt_chars_hyphen_escape() {
    // All three literals are closed; an unclosed literal is a lexer error.
    assert_eq!(re2(r#"EXPORT := "a" / "-" / "b""#), r"[-ab]");
}

#[test]
fn alt_with_join_a() {
    assert_eq!(re2(r#"EXPORT := "a" + "bc" / "cd""#), r"a(?:bc|cd)");
}

#[test]
fn alt_with_join_b() {
    assert_eq!(re2(r#"EXPORT := "ab" / "bc" + "c""#), r"(?:ab|bc)c");
}

#[test]
fn alt_merge() {
    assert_eq!(re2(r#"EXPORT := "a" / "a""#), r"a");
}

#[test]
fn alt_complex_merge() {
    assert_eq!(re2(r#"EXPORT := "a" / "0" / DIGIT"#), r"[a\d]");
}

#[test]
fn oneof_basic() {
    assert_eq!(re2(r#"EXPORT := ONEOF "abc""#), r"[abc]");
}

#[test]
fn oneof_single() {
    assert_eq!(re2(r#"EXPORT := ONEOF "a""#), r"a");
}

#[test]
fn oneof_escaped() {
    assert_eq!(re2(r#"EXPORT := ONEOF ".-""#), r"[-\.]");
}

#[test]
fn oneof_join() {
    assert_eq!(re2(r#"EXPORT := ONEOF "ab" + "c""#), r"[ab]c");
}

#[test]
fn opt_literal() {
    assert_eq!(re2(r#"EXPORT := OPTIONAL "a""#), r"a?");
}

#[test]
fn opt_oneof() {
    assert_eq!(re2(r#"EXPORT := OPTIONAL ONEOF "ab""#), r"[ab]?");
}

#[test]
fn opt_digit() {
    assert_eq!(re2(r"EXPORT := OPTIONAL DIGIT"), r"\d?");
}

#[test]
fn opt_join() {
    assert_eq!(re2(r#"EXPORT := "a" + OPTIONAL "b""#), r"ab?");
}

#[test]
fn opt_group() {
    assert_eq!(
        re2(r#"
        def := "a" / "b" / "cd"
        EXPORT := OPTIONAL def
        "#),
        r"(?:[ab]|cd)?"
    );
}

#[test]
fn mul_literal() {
    assert_eq!(re2(r#"EXPORT := MULTIPLE "a""#), r"a+");
}

#[test]
fn mul_oneof() {
    assert_eq!(re2(r#"EXPORT := MULTIPLE ONEOF "ab""#), r"[ab]+");
}

#[test]
fn mul_digit() {
    assert_eq!(re2(r"EXPORT := MULTIPLE DIGIT"), r"\d+");
}

#[test]
fn mul_join() {
    assert_eq!(re2(r#"EXPORT := MULTIPLE "a" + "b""#), r"a+b");
}

#[test]
fn opt_mul_char() {
    assert_eq!(re2(r#"EXPORT := OPTIONAL MULTIPLE "a""#), r"a*");
}

#[test]
fn opt_mul_literal() {
    assert_eq!(re2(r#"EXPORT := OPTIONAL MULTIPLE "ab""#), r"(?:ab)*");
}

#[test]
fn opt_mul_oneof() {
    assert_eq!(re2(r#"EXPORT := OPTIONAL MULTIPLE ONEOF "ab""#), r"[ab]*");
}

#[test]
fn nothing_alt() {
    assert_eq!(re2(r#"EXPORT := "a" / NOTHING"#), r"a?");
}

#[test]
fn nothing_alt_chain() {
    // The class made optional, with nothing around it.
    assert_eq!(re2(r#"EXPORT := "a" / "b" / NOTHING"#), r"[ab]?");
}

#[test]
fn nothing_join() {
    assert_eq!(re2(r#"EXPORT := "a" + NOTHING"#), r"a");
}

#[test]
fn named_class_in_repetition() {
    let input = "digit_or_x := DIGIT / \"x\"\nEXPORT := \"id-\" + MULTIPLE digit_or_x";
    assert_eq!(re2(input), r"id\-[\dx]+");
}
