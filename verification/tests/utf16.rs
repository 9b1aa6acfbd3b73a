use lib::utf16::{decode, decode_be, decode_lossy, encode, encode_be};

#[test]
fn text_is_written_low_byte_first_and_read_back() {
    assert_eq!(encode("Az"), [0x41, 0, 0x7a, 0]);
    assert_eq!(encode("\u{1F600}"), [0x3d, 0xd8, 0x00, 0xde]);
    for text in ["", "orders.edi", "Jürgen", "\u{3000}", "\u{1F600}"] {
        assert_eq!(decode(&encode(text)).expect("UTF-16"), text);
        assert_eq!(decode_lossy(&encode(text)), text);
    }
}

#[test]
fn the_strict_reading_refuses_what_the_lossy_one_repairs() {
    let odd = [0x41, 0x00, 0x42];
    assert!(decode(&odd).expect_err("odd").message.contains("two"));
    assert_eq!(decode_lossy(&odd), "A");

    let unpaired = [0x00, 0xd8, 0x41, 0x00];
    let refused = decode(&unpaired).expect_err("unpaired");
    assert!(refused.message.contains("0xd800"), "{}", refused.message);
    assert_eq!(decode_lossy(&unpaired), "\u{FFFD}A");
}

#[test]
fn big_endian_is_written_high_byte_first_and_read_back_strictly() {
    assert_eq!(encode_be("Az"), [0, 0x41, 0, 0x7a]);
    for text in ["", "Jürgen", "\u{1F600}"] {
        assert_eq!(decode_be(&encode_be(text)).expect("UTF-16BE"), text);
    }
    assert!(decode_be(&[0xd8, 0x00, 0x00, 0x41]).is_err(), "unpaired");
    assert!(decode_be(&[0x00]).is_err(), "odd");
}

#[test]
fn a_pair_in_big_endian_and_a_lone_low_surrogate() {
    assert_eq!(encode_be("\u{1F600}"), [0xd8, 0x3d, 0xde, 0x00]);
    assert!(decode(&[0x00, 0xdc]).is_err(), "a low surrogate first");
    assert_eq!(decode_lossy(&[0x00, 0xdc, 0x41, 0x00]), "\u{FFFD}A");
}
