use lib::hex;
use lib::sha1::{digest, DIGEST_LENGTH};

#[test]
fn the_fips_180_examples_digest_to_their_published_values() {
    let cases: [(&[u8], &str); 3] = [
        (b"", "da39a3ee5e6b4b0d3255bfef95601890afd80709"),
        (b"abc", "a9993e364706816aba3e25717850c26c9cd0d89d"),
        (
            b"abcdbcdecdefdefgefghfghighijhijkijkljklmklmnlmnomnopnopq",
            "84983e441c3bd26ebaae4aa1f95129e5e54670f1",
        ),
    ];
    for (message, expected) in cases {
        assert_eq!(hex::encode(&digest(message)), expected);
    }
}

#[test]
fn a_million_times_a_spans_many_blocks_and_digests_as_published() {
    let million = vec![b'a'; 1_000_000];
    assert_eq!(
        hex::encode(&digest(&million)),
        "34aa973cd4c4daa4f61eeb2bdbad27316534016f"
    );
}

#[test]
fn a_message_at_every_padding_boundary_digests_to_twenty_bytes() {
    for length in [55, 56, 63, 64, 65] {
        assert_eq!(digest(&vec![0; length]).len(), DIGEST_LENGTH);
    }
    assert_ne!(digest(&[0; 55]), digest(&[0; 56]));
}

#[test]
fn the_quick_brown_fox_digests_as_published() {
    assert_eq!(
        hex::encode(&digest(b"The quick brown fox jumps over the lazy dog")),
        "2fd4e1c67a2d28fced849ee1bb76e7391b93eb12"
    );
}
