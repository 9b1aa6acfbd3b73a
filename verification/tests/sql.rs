use lib::char_reader::CharReader;
use lib::sql::Delimiter;

#[test]
fn quoting_doubles_the_closing_delimiter_and_nothing_else() {
    assert_eq!(Delimiter::string().quote("it's"), "'it''s'");
    assert_eq!(Delimiter::string().quote("back\\slash"), "'back\\slash'");
    assert_eq!(Delimiter::string().quote(""), "''");
    assert_eq!(Delimiter::identifier().quote("in\"box"), "\"in\"\"box\"");
    assert_eq!(Delimiter::bracket().quote("[in]box]"), "[[in]]box]]]");
    assert_eq!(Delimiter::backtick().quote("in`box"), "`in``box`");
}

#[test]
fn every_quoted_text_reads_back_as_itself_with_what_follows() {
    let texts = [
        "",
        "it's",
        "''",
        "a ]] b",
        "Zoë 名前\u{a0}\u{1f600}",
        "`\"[]'",
    ];
    for delimiter in [
        Delimiter::string(),
        Delimiter::identifier(),
        Delimiter::bracket(),
        Delimiter::backtick(),
    ] {
        for text in texts {
            let quoted = format!("{}, rest", delimiter.quote(text));
            let (back, after) = delimiter.unquote_prefix(&quoted).expect(text);
            assert_eq!((back.as_str(), after), (text, ", rest"), "{delimiter:?}");
        }
    }
}

#[test]
fn a_run_that_does_not_open_or_never_closes_is_refused_without_panic() {
    assert!(Delimiter::string().unquote_prefix("x'").is_err());
    let quoted = Delimiter::string().quote("Zoë's 名前");
    for cut in (1..quoted.len()).filter(|&at| quoted.is_char_boundary(at)) {
        // A cut between a doubled quote reads as a shorter literal.
        match Delimiter::string().unquote_prefix(&quoted[..cut]) {
            Ok((text, after)) => assert_eq!((text.as_str(), after), ("Zoë", "")),
            Err(refused) => assert!(refused.message.contains("not terminated")),
        }
    }
    let failure = Delimiter::bracket()
        .unquote_prefix("[open")
        .expect_err("open");
    assert!(failure.message.contains("not terminated"), "{}", failure.message);
}

#[test]
fn a_reader_is_left_just_past_the_closing_delimiter() {
    let mut reader = CharReader::new("'a''b' tail");
    let text = Delimiter::string().read(&mut reader).expect("reads");
    assert_eq!(text, "a'b");
    assert_eq!(reader.rest(), " tail");
    let custom = Delimiter::new('<', '>');
    assert_eq!(custom.quote("a>b"), "<a>>b>");
}

#[test]
fn a_refused_run_leaves_the_reader_where_the_refusal_says() {
    let mut unopened = CharReader::new("x'");
    assert!(Delimiter::string().read(&mut unopened).is_err());
    assert_eq!(unopened.offset(), 0);
    assert_eq!(unopened.rest(), "x'");
    let mut unclosed = CharReader::new("'open");
    let refused = Delimiter::string().read(&mut unclosed).expect_err("open");
    assert!(refused.message.contains("not terminated"));
    assert!(unclosed.is_done());
    assert_eq!(unclosed.rest(), "");
}

#[test]
fn a_refusal_names_the_opening_delimiter() {
    assert_eq!(
        Delimiter::string().unquote_prefix("x'").expect_err("unopened").message,
        "no ' opens the text"
    );
    assert_eq!(
        Delimiter::bracket().unquote_prefix("[open").expect_err("open").message,
        "the text opened with [ is not terminated"
    );
}

#[test]
fn what_a_read_consumes_is_the_quote_of_what_it_gives() {
    for text in ["", "it's", "a ]] b", "''"] {
        for d in [Delimiter::string(), Delimiter::bracket()] {
            let quoted = d.quote(text) + " tail";
            let mut reader = CharReader::new(&quoted);
            let start = reader.offset();
            let read = d.read(&mut reader).expect("reads");
            assert_eq!(reader.since(start), d.quote(&read));
            assert_eq!(read, text);
        }
    }
}
