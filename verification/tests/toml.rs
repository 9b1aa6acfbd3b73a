use lib::toml::{quote, unquote, unquote_prefix};

#[test]
fn quoting_escapes_what_toml_requires_and_nothing_else() {
    assert_eq!(
        quote("C:\\Program Files\\\"x\""),
        r#""C:\\Program Files\\\"x\"""#
    );
    assert_eq!(quote("a\tb\nc\rd\u{8}\u{c}"), r#""a\tb\nc\rd\b\f""#);
    assert_eq!(quote("\u{0}\u{1f}\u{7f}"), r#""\u0000\u001F\u007F""#);
    assert_eq!(
        quote("é\u{a0}\u{85}\u{1f600}"),
        "\"é\u{a0}\u{85}\u{1f600}\""
    );
}

#[test]
fn every_character_reads_back_as_itself() {
    let every: String = (0..=0x2100u32)
        .chain([0x1_f600, 0x10_ffff])
        .filter_map(char::from_u32)
        .collect();
    assert_eq!(unquote(&quote(&every)).expect("reads back"), every);
}

#[test]
fn a_prefix_leaves_what_follows() {
    let (key, rest) = unquote_prefix(r#""a = b" = "v""#).expect("reads");
    assert_eq!((key.as_str(), rest), ("a = b", r#" = "v""#));
    assert_eq!(
        unquote(r#""\U0001F600\u00E9""#).expect("reads"),
        "\u{1f600}é"
    );
}

#[test]
fn what_toml_refuses_is_refused() {
    for bad in [
        "plain",
        "\"open",
        "\"a\"b\"",
        "\"\\q\"",
        "\"\\u12\"",
        "\"\\uD800\"",
        "\"\\UFFFFFFFF\"",
        "\"a\nb\"",
        "\"\u{7f}\"",
        "\"\\",
    ] {
        assert!(unquote(bad).is_err(), "{bad:?} should be refused");
    }
    assert_eq!(unquote("\"a\tb\"").expect("a raw tab is allowed"), "a\tb");
}

#[test]
fn a_quoted_text_with_what_follows_reads_back_and_leaves_it() {
    let literal = format!("{} tail", quote("x\"\\\u{1}"));
    let (text, rest) = unquote_prefix(&literal).expect("reads");
    assert_eq!((text.as_str(), rest), ("x\"\\\u{1}", " tail"));
}

#[test]
fn each_refusal_says_exactly_what_is_wrong() {
    let refused = |text: &str| unquote_prefix(text).expect_err("refused").message;
    assert_eq!(refused("plain"), "\"plain\" is not a basic string");
    assert_eq!(refused("\"open"), "\"\\\"open\" never closes");
    assert_eq!(
        refused("\"a\u{1}b\""),
        "an unescaped control character U+0001 in \"\\\"a\\u{1}b\\\"\""
    );
    assert_eq!(refused("\"\\q\""), "an unknown escape \\q");
    assert_eq!(refused("\"\\"), "a backslash ends the text");
    assert_eq!(refused("\"\\u12x4\""), "\\u12 is not 4 hexadecimal digits");
    assert_eq!(refused("\"\\U0000d8\""), "\\u0000d8 is not 8 hexadecimal digits");
    assert_eq!(refused("\"\\uD800\""), "\\uD800 is not a character");
    assert_eq!(
        unquote("\"a\" b").expect_err("trailing").message,
        "\" b\" follows the basic string in \"\\\"a\\\" b\""
    );
}
