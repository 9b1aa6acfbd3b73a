use lib::char_reader::CharReader;

#[test]
fn multibyte_characters_are_one_step_each() {
    let mut reader = CharReader::new("a\u{a0}\u{3000}é\u{1f600}b");
    assert_eq!(reader.bump(), Some('a'));
    assert!(reader.skip_whitespace());
    assert_eq!(reader.offset(), 1 + 2 + 3);
    assert_eq!(reader.column(), 4);
    assert_eq!(reader.take_while(char::is_alphabetic), "é");
    assert_eq!(reader.peek(), Some('\u{1f600}'));
    assert_eq!(reader.peek_nth(1), Some('b'));
    assert_eq!(reader.bump(), Some('\u{1f600}'));
    assert_eq!(reader.rest(), "b");
    assert_eq!(reader.since(1), "\u{a0}\u{3000}é\u{1f600}");
    assert_eq!(reader.bump(), Some('b'));
    assert!(reader.is_done());
    assert_eq!(reader.bump(), None);
    assert_eq!(reader.peek(), None);
}

#[test]
fn lines_and_columns_follow_the_newlines() {
    let mut reader = CharReader::new("ab\n\u{a0}c");
    assert!(reader.eat_str("ab\n"));
    assert_eq!((reader.line(), reader.column()), (2, 1));
    reader.skip_whitespace();
    assert_eq!((reader.line(), reader.column()), (2, 2));
    assert!(!reader.eat('x'));
    assert!(reader.eat('c'));
}

#[test]
fn peeking_takes_nothing_and_skipping_finds_its_end() {
    let mut reader = CharReader::new("12.5x /* c\u{a0} */ y");
    assert_eq!(
        reader.peek_while(|c| c.is_ascii_digit() || c == '.'),
        "12.5"
    );
    assert_eq!(reader.offset(), 0);
    assert!(reader.starts_with("12"));
    reader.take_while(|c| c != ' ');
    reader.skip_whitespace();
    assert!(reader.eat_str("/*"));
    assert!(reader.skip_past("*/"));
    assert_eq!(reader.rest(), " y");
    assert!(!reader.skip_past("*/"));
    assert!(reader.is_done());
    assert_eq!(reader.since(usize::MAX), "");
}

#[test]
fn every_offset_the_reader_gives_slices_its_text() {
    let text = "x\u{e9}\u{1f600}\n y";
    let mut reader = CharReader::new(text);
    let mut offsets = vec![reader.offset()];
    while reader.bump().is_some() {
        offsets.push(reader.offset());
    }
    for offset in offsets {
        assert!(text.is_char_boundary(offset), "{offset}");
    }
    assert_eq!(reader.text(), text);
    assert_eq!((reader.line(), reader.column()), (2, 3));
}
