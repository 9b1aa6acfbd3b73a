use lib::cursor::Cursor;

#[test]
fn fields_are_read_in_order_and_what_remains_is_what_was_not_read() {
    let mut cursor = Cursor::new(&[1, 0, 2, 3, 4, 5]);
    assert_eq!(cursor.byte().expect("a byte"), 1);
    assert_eq!(cursor.u16_be().expect("two"), 2);
    cursor.skip(1).expect("one more");
    assert_eq!(cursor.position(), 4);
    assert_eq!(cursor.peek(), Some(4));
    assert_eq!(cursor.remaining(), &[4, 5]);
    assert_eq!(cursor.take(2).expect("the rest"), &[4, 5]);
    assert!(cursor.is_empty());
    assert_eq!(cursor.peek(), None);
}

#[test]
fn a_number_reads_in_the_byte_order_asked_for() {
    let bytes = [0x01, 0x02, 0x03, 0x04, 0x05, 0x06, 0x07, 0x08];
    assert_eq!(Cursor::new(&bytes).u32_be().expect("be"), 0x0102_0304);
    assert_eq!(Cursor::new(&bytes).u32_le().expect("le"), 0x0403_0201);
    assert_eq!(
        Cursor::new(&bytes).u64_be().expect("be"),
        0x0102_0304_0506_0708
    );
    assert_eq!(Cursor::new(&bytes).u16_le().expect("le"), 0x0201);
    assert_eq!(Cursor::new(&[0xff, 0xfe]).i16_be().expect("be"), -2);
    assert_eq!(
        Cursor::new(&[0xfe, 0xff, 0xff, 0xff]).i32_le().expect("le"),
        -2
    );
    assert_eq!(Cursor::new(&[0x80]).i8().expect("i8"), i8::MIN);
    // A float is its eight bytes in the order asked for.
    let half = 0.5f64.to_le_bytes();
    let read = f64::from_le_bytes(Cursor::new(&half).take_array::<8>().expect("le"));
    assert!((read - 0.5).abs() < f64::EPSILON);
    let mut short = Cursor::new(&bytes[..3]);
    assert!(short.u32_be().is_err());
    assert_eq!(short.position(), 0, "a refused read moves nothing");
}

#[test]
fn a_field_past_the_end_is_refused_and_moves_nothing() {
    let mut cursor = Cursor::new(&[1, 2]);
    let error = cursor.take(3).expect_err("past the end");
    assert!(error.message.contains("runs past"), "{}", error.message);
    assert!(error.message.contains("2 remain"), "{}", error.message);
    assert_eq!(cursor.remaining(), &[1, 2]);
    assert!(cursor.take(usize::MAX).is_err());
    assert_eq!(cursor.take_rest(), &[1, 2]);
    assert!(cursor.is_empty());
    assert!(cursor.byte().is_err());
}

#[test]
fn a_delimited_field_is_taken_with_its_delimiter() {
    let mut cursor = Cursor::new(b"user\0db\0rest");
    assert_eq!(cursor.take_until(0).expect("user"), b"user");
    assert_eq!(cursor.take_until(0).expect("db"), b"db");
    assert!(cursor.take_until(0).is_err(), "no NUL ends it");
    assert_eq!(cursor.remaining(), b"rest");
}

#[test]
fn a_varint_is_read_where_the_cursor_is() {
    let mut cursor = Cursor::new(&[7, 0xac, 0x02, 0x80]);
    cursor.skip(1).expect("skip");
    assert_eq!(cursor.varint().expect("varint"), 300);
    let error = cursor.varint().expect_err("cut off");
    assert_eq!(error.message, "the bytes end inside a varint");
    assert_eq!(cursor.position(), 3);
}

#[test]
fn signed_and_wide_numbers_read_in_either_order() {
    let bytes = [0x80, 0, 0, 0, 0, 0, 0, 0];
    assert_eq!(Cursor::new(&bytes).i64_be().expect("be"), i64::MIN);
    assert_eq!(Cursor::new(&bytes).i64_le().expect("le"), 0x80);
    assert_eq!(Cursor::new(&bytes).u64_le().expect("le"), 0x80);
    assert_eq!(Cursor::new(&[0xfe, 0xff]).i16_le().expect("le"), -2);
    assert_eq!(Cursor::new(&[0xff, 0xff, 0xff, 0xfe]).i32_be().expect("be"), -2);
    assert_eq!(Cursor::new(&[1, 2, 3]).take_array::<2>().expect("two"), [1, 2]);
    assert!(Cursor::new(&[1]).take_array::<2>().is_err());
}
