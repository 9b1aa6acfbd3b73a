use lib::xml::{escape, unescape};

#[test]
fn escaped_text_reads_back_whole() {
    let text = r#"in/<a> & "b" 'c'"#;
    let escaped = escape(text);
    assert_eq!(escaped, "in/&lt;a&gt; &amp; &quot;b&quot; 'c'");
    assert_eq!(unescape(&escaped).expect("read"), text);
}

#[test]
fn character_references_are_read_in_both_radixes() {
    assert_eq!(unescape("jane&#64;corp").expect("read"), "jane@corp");
    assert_eq!(unescape("jane&#x40;corp").expect("read"), "jane@corp");
    assert_eq!(unescape("&apos;&#X41;&amp;").expect("read"), "'A&");
    assert_eq!(unescape("plain").expect("read"), "plain");
}

#[test]
fn what_is_not_an_entity_is_refused_saying_which() {
    let refused = |text: &str| unescape(text).expect_err("refused").message;
    assert!(refused("a &nbsp; b").contains("&nbsp;"));
    assert!(refused("a & b").contains("not terminated"));
    assert!(refused("&#xD800;").contains("names no character"));
    assert!(refused("&#;").contains("names no character"));
}

#[test]
fn every_special_character_escapes_and_reads_back() {
    for text in ["", "<>&\"", "Zoë \u{1f600} & co", "a&b<c"] {
        assert_eq!(unescape(&escape(text)).expect("read"), text);
    }
    assert_eq!(unescape("&#1114111;").expect("max"), "\u{10ffff}");
    assert!(unescape("&#1114112;").is_err(), "past U+10FFFF");
}

#[test]
fn a_signed_character_reference_names_no_character() {
    for text in ["&#+64;", "&#x+40;", "&#-1;"] {
        let refused = unescape(text).expect_err("signed");
        assert_eq!(
            refused.message,
            format!("the XML character reference '{text}' names no character")
        );
    }
}

#[test]
fn an_undefined_entity_is_refused_with_its_name() {
    assert_eq!(
        unescape("a &nbsp; b").expect_err("nbsp").message,
        "the XML holds the entity '&nbsp;', which XML does not predefine"
    );
    assert_eq!(
        unescape("tail &amp").expect_err("open").message,
        "an XML entity is not terminated"
    );
}
