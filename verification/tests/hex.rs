use lib::hex::{decode, encode};

/// RFC 4648 section 10, which writes base 16 in upper case.
const VECTORS: [(&str, &str); 7] = [
    ("", ""),
    ("f", "66"),
    ("fo", "666F"),
    ("foo", "666F6F"),
    ("foob", "666F6F62"),
    ("fooba", "666F6F6261"),
    ("foobar", "666F6F626172"),
];

#[test]
fn the_rfc_4648_vectors_encode_in_lower_case_and_decode_in_either() {
    for (text, digits) in VECTORS {
        assert_eq!(encode(text.as_bytes()), digits.to_lowercase(), "{text}");
        assert_eq!(decode(digits).expect("upper"), text.as_bytes(), "{text}");
        assert_eq!(
            decode(&digits.to_lowercase()).expect("lower"),
            text.as_bytes()
        );
    }
}

#[test]
fn hex_every_byte_comes_back() {
    let every: Vec<u8> = (0..=255).collect();
    assert_eq!(decode(&encode(&every)).expect("round"), every);
    assert_eq!(encode(&[0, 0x7f, 0xff]), "007fff");
}

#[test]
fn what_is_not_two_hex_digits_a_byte_is_refused_by_reason() {
    assert!(decode("abc").expect_err("odd").message.contains("odd"));
    for bad in ["zz", "+f", "-1", " f", "0x", "é0"] {
        let error = decode(bad).expect_err(bad);
        assert!(error.message.contains("hex"), "{bad}: {}", error.message);
    }
}

#[test]
fn hex_decoding_inverts_encoding_on_mixed_case() {
    assert_eq!(decode("DeAdBeEf").expect("mixed"), [0xde, 0xad, 0xbe, 0xef]);
    assert_eq!(encode(&[0xde, 0xad, 0xbe, 0xef]), "deadbeef");
}

#[test]
fn digits_read_and_written_again_come_back_lower_case() {
    for digits in ["", "00", "DeadBEEF", "0aF9", "ffFF"] {
        let bytes = decode(digits).expect("hex");
        assert_eq!(encode(&bytes), digits.to_ascii_lowercase());
    }
}

#[test]
fn a_refusal_quotes_the_digits() {
    assert_eq!(decode("abc").expect_err("odd").message, "an odd number of hex digits: \"abc\"");
    assert_eq!(decode("zz").expect_err("not hex").message, "not hex: \"zz\"");
}
