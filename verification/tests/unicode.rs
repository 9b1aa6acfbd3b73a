use lib::unicode::Form;

#[test]
fn every_form_round_trips_text_and_is_named_by_its_word() {
    for form in Form::all() {
        for text in ["", "orders", "Jürgen", "\u{1F600}"] {
            assert_eq!(form.decode(&form.encode(text)).expect("round"), text);
        }
        assert_eq!(Form::named(form.word()).expect("named"), form);
    }
    assert_eq!(Form::default(), Form::Utf8);
    assert_eq!(Form::Utf32Be.encode("A"), [0, 0, 0, 0x41]);
    assert_eq!(Form::Utf32Le.encode("A"), [0x41, 0, 0, 0]);
}

#[test]
fn bytes_that_are_not_the_form_are_refused_never_repaired() {
    let refused = Form::Utf8.decode(&[0xff, 0xfe]).expect_err("not UTF-8");
    assert!(refused.message.contains("UTF-8"), "{}", refused.message);
    assert!(Form::Utf16Le.decode(&[0x41]).is_err());
    assert!(Form::Utf32Le.decode(&[0x41, 0, 0]).is_err(), "not four");
    assert!(
        Form::Utf32Be.decode(&[0, 0, 0xd8, 0]).is_err(),
        "a surrogate"
    );
    assert!(
        Form::Utf32Le.decode(&[0, 0, 0x11, 0]).is_err(),
        "past U+10FFFF"
    );
    assert!(Form::named("latin-1").is_err());
}

#[test]
fn a_refusal_says_what_was_wrong() {
    let unknown = Form::named("latin-1").expect_err("no form");
    assert_eq!(
        unknown.message,
        "\"latin-1\" is not a Unicode encoding form: one of utf-8, utf-16le, utf-16be, utf-32le, utf-32be"
    );
    let short = Form::Utf32Le.decode(&[0x41, 0, 0]).expect_err("short");
    assert_eq!(short.message, "3 bytes are not UTF-32: a code unit is four");
    let surrogate = Form::Utf32Be.decode(&[0, 0, 0xd8, 0]).expect_err("surrogate");
    assert_eq!(surrogate.message, "not UTF-32: 0xd800 is not a scalar value");
    assert_eq!(Form::Utf16Be.encode("A"), [0, 0x41]);
    assert_eq!(Form::Utf8.encode("é"), [0xc3, 0xa9]);
    assert_eq!(Form::Utf32Le.decode(&[0x00, 0xf6, 0x01, 0x00]).expect("emoji"), "\u{1F600}");
}

#[test]
fn the_words_list_every_form_in_order_and_each_names_its_form() {
    assert_eq!(
        Form::words(),
        ["utf-8", "utf-16le", "utf-16be", "utf-32le", "utf-32be"]
    );
    for (word, form) in Form::words().into_iter().zip(Form::all()) {
        assert_eq!(Form::named(word), Ok(form));
        assert_eq!(form.word(), word);
    }
}

#[test]
fn a_word_that_names_no_form_is_refused_with_the_choices() {
    assert_eq!(
        Form::named("latin-1").expect_err("unknown").message,
        "\"latin-1\" is not a Unicode encoding form: one of utf-8, utf-16le, utf-16be, utf-32le, utf-32be"
    );
}

#[test]
fn a_utf_32_refusal_names_the_length_or_the_first_code_point() {
    assert_eq!(
        Form::Utf32Le.decode(&[0x41, 0, 0]).expect_err("three").message,
        "3 bytes are not UTF-32: a code unit is four"
    );
    assert_eq!(
        Form::Utf32Be
            .decode(&[0, 0, 0, 0x41, 0, 0, 0xd8, 0, 0, 0x11, 0, 0])
            .expect_err("surrogate")
            .message,
        "not UTF-32: 0xd800 is not a scalar value"
    );
    assert_eq!(
        Form::Utf16Le.decode(&[0, 0xd8]).expect_err("unpaired").message,
        lib::utf16::decode(&[0, 0xd8]).expect_err("unpaired").message
    );
    assert!(Form::Utf8.decode(&[0xff]).expect_err("utf-8").message.starts_with("not UTF-8: "));
}
