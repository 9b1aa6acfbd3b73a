use lib::base64::{decode, decode_url, encode, encode_unpadded, encode_url, encode_url_unpadded};

/// RFC 4648 section 10.
const VECTORS: [(&str, &str); 7] = [
    ("", ""),
    ("f", "Zg=="),
    ("fo", "Zm8="),
    ("foo", "Zm9v"),
    ("foob", "Zm9vYg=="),
    ("fooba", "Zm9vYmE="),
    ("foobar", "Zm9vYmFy"),
];

#[test]
fn the_rfc_4648_vectors_encode_and_decode_padded_or_not() {
    for (text, encoded) in VECTORS {
        let bare = encoded.trim_end_matches('=');
        assert_eq!(encode(text.as_bytes()), encoded, "{text}");
        assert_eq!(encode_unpadded(text.as_bytes()), bare, "{text}");
        assert_eq!(decode(encoded).expect("padded"), text.as_bytes(), "{text}");
        assert_eq!(decode(bare).expect("unpadded"), text.as_bytes(), "{text}");
        // The alphabets differ only past `9`, which none of these reach.
        assert_eq!(encode_url(text.as_bytes()), encoded, "{text}");
        assert_eq!(encode_url_unpadded(text.as_bytes()), bare, "{text}");
        assert_eq!(decode_url(bare).expect("url"), text.as_bytes(), "{text}");
    }
}

#[test]
fn the_url_alphabet_spells_62_and_63_as_minus_and_underscore() {
    // RFC 4648 section 5: 0xfb 0xff is `-_8` where section 4 has `+/8`.
    assert_eq!(encode(&[0xfb, 0xff]), "+/8=");
    assert_eq!(encode_url(&[0xfb, 0xff]), "-_8=");
    assert_eq!(encode_url_unpadded(&[0xfb, 0xff]), "-_8");
    assert_eq!(decode_url("-_8").expect("url"), [0xfb, 0xff]);
    assert!(
        decode_url("+/8=").is_err(),
        "the standard alphabet is not url"
    );
    assert!(decode("-_8=").is_err(), "the url alphabet is not standard");
}

#[test]
fn base64_every_byte_comes_back() {
    let every: Vec<u8> = (0..=255).collect();
    assert_eq!(decode(&encode(&every)).expect("round"), every);
    assert_eq!(
        decode_url(&encode_url_unpadded(&every)).expect("round"),
        every
    );
    assert!(encode(&every).contains('+') && encode(&every).contains('/'));
}

#[test]
fn what_is_not_base_64_is_refused_by_reason() {
    for (bad, why) in [
        ("not base64!", "alphabet"),
        ("Zm9v\r\nYmFy", "alphabet"),
        ("Zm=9", "alphabet"),
        ("Zg===", "padding"),
        ("Zm8==", "padding"),
        ("Zm9vY", "length"),
        ("Zh==", "bits"),
        ("Zm9=", "bits"),
    ] {
        let error = decode(bad).expect_err(bad);
        assert!(error.message.contains(why), "{bad}: {}", error.message);
        let error = decode_url(bad).expect_err(bad);
        assert!(error.message.contains(why), "{bad}: {}", error.message);
    }
}

#[test]
fn every_padding_and_alphabet_choice_reads_back() {
    let bytes = [0u8, 0xfb, 0xff, 0x10, 0x7f];
    for length in 0..=bytes.len() {
        let piece = &bytes[..length];
        assert_eq!(decode(&encode(piece)).expect("padded"), piece);
        assert_eq!(decode(&encode_unpadded(piece)).expect("unpadded"), piece);
        assert_eq!(decode_url(&encode_url(piece)).expect("url"), piece);
        assert_eq!(decode_url(&encode_url_unpadded(piece)).expect("url"), piece);
    }
}

#[test]
fn the_url_alphabet_differs_only_in_two_digits() {
    let every: Vec<u8> = (0..=255).rev().collect();
    for length in [0, 1, 2, 3, 64, 255, 256] {
        let bytes = &every[..length];
        let standard = encode(bytes);
        assert_eq!(encode_url(bytes), standard.replace('+', "-").replace('/', "_"));
        assert_eq!(encode_unpadded(bytes).len(), (4 * length + 2) / 3);
        assert_eq!(standard.len() % 4, 0);
        assert_eq!(standard.trim_end_matches('='), encode_unpadded(bytes));
    }
    assert!(decode_url("ab+/").is_err());
    assert!(decode("ab-_").is_err());
}

#[test]
fn an_accepted_text_is_the_encoding_of_what_it_spells() {
    for text in ["", "Zg", "Zg==", "Zm8", "Zm8=", "Zm9v", "+/8=", "+/8", "AAECAwQF"] {
        let bytes = decode(text).expect("canonical");
        assert!(text == encode(&bytes) || text == encode_unpadded(&bytes), "{text}");
    }
    for text in ["Zh==", "Zm9=", "Zg=", "Zg===", "Z", "Zm 9v"] {
        assert!(decode(text).is_err(), "{text}");
    }
}

#[test]
fn a_refusal_names_the_alphabet_the_reason_and_the_text() {
    assert_eq!(
        decode("Zg=").expect_err("padding").message,
        "not base 64 (the padding does not fit the length): \"Zg=\""
    );
    assert_eq!(
        decode_url("Zh").expect_err("bits").message,
        "not base64url (bits set past the last byte): \"Zh\""
    );
    let long = "!".repeat(82);
    assert_eq!(
        decode(&long).expect_err("long").message,
        "not base 64 (a character outside the alphabet): 82 characters"
    );
}
