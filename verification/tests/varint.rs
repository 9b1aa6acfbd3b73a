use lib::varint::{decode, encode, encode_into, unzigzag, zigzag, VarintError, MAX_LENGTH};
use lib::CodecError;

#[test]
fn a_varint_is_base_128_little_endian() {
    assert_eq!(decode(&[0x96, 0x01]), Ok((150, 2)));
    assert_eq!(decode(&[0xac, 0x02, 0xff]), Ok((300, 2)));
    assert_eq!(decode(&[0x00]), Ok((0, 1)));
    let largest = [0xff, 0xff, 0xff, 0xff, 0xff, 0xff, 0xff, 0xff, 0xff, 0x01];
    assert_eq!(decode(&largest), Ok((u64::MAX, 10)));
    assert_eq!(encode(300), [0xac, 0x02]);
    assert_eq!(encode(u64::MAX), largest);
}

#[test]
fn a_varint_that_cannot_end_is_refused_by_why() {
    assert_eq!(decode(&[]), Err(VarintError::Unterminated));
    assert_eq!(decode(&[0x80]), Err(VarintError::Unterminated));
    assert_eq!(decode(&[0x80; 11]), Err(VarintError::Overlong));
    assert_eq!(
        CodecError::from(VarintError::Overlong).message,
        "a varint runs past ten bytes"
    );
}

#[test]
fn every_width_reads_back_as_itself() {
    for shift in 0..64 {
        let value = 1u64 << shift;
        for value in [value - 1, value, value | 1] {
            let bytes = encode(value);
            assert_eq!(decode(&bytes), Ok((value, bytes.len())), "{value}");
        }
    }
}

#[test]
fn zigzag_interleaves_the_signs_and_comes_back() {
    let pairs = [(0, 0), (-1, 1), (1, 2), (-2, 3), (2, 4)];
    for (signed, unsigned) in pairs {
        assert_eq!(zigzag(signed), unsigned);
        assert_eq!(unzigzag(unsigned), signed);
    }
    assert_eq!(zigzag(i64::MAX), u64::MAX - 1);
    assert_eq!(zigzag(i64::MIN), u64::MAX);
    for value in [i64::MIN, -300, -1, 0, 1, 300, i64::MAX] {
        assert_eq!(unzigzag(zigzag(value)), value);
    }
}

#[test]
fn a_varint_appended_leaves_what_came_before_and_what_follows_is_left() {
    let mut out = vec![9];
    encode_into(&mut out, 300);
    assert_eq!(out, [9, 0xac, 0x02]);
    out.push(7);
    assert_eq!(decode(&out[1..]), Ok((300, 2)));
    assert_eq!(encode(u64::MAX).len(), MAX_LENGTH);
    assert_eq!(VarintError::Unterminated.as_str(), "the bytes end inside a varint");
}

#[test]
fn a_varint_takes_one_byte_for_every_seven_bits_begun() {
    let lengths = [
        (0, 1),
        (1, 1),
        (127, 1),
        (128, 2),
        (16_383, 2),
        (16_384, 3),
        (u32::MAX as u64, 5),
        (1 << 56, 9),
        (1 << 63, 10),
        (u64::MAX, 10),
    ];
    for (value, length) in lengths {
        assert_eq!(encode(value).len(), length, "{value}");
        assert!(encode(value).len() <= MAX_LENGTH);
    }
}

#[test]
fn the_length_is_the_bits_begun_in_sevens() {
    for value in [0u64, 1, 127, 128, 300, 1 << 20, u32::MAX as u64, 1 << 62, u64::MAX] {
        let length = encode(value).len();
        let bits = 64 - value.leading_zeros() as usize;
        assert_eq!(length, std::cmp::max(1, (bits + 6) / 7), "{value}");
        assert_eq!(decode(&encode(value)), Ok((value, length)));
    }
}
