use lib::crc::{
    crc_16_dnp, crc_16_en_13757, crc_16_kermit, crc_32_iscsi, crc_8_ts_27_010, reflect_u64, Crc,
};

const CHECK: &[u8] = b"123456789";

#[test]
fn every_named_crc_gives_its_catalogued_check_value() {
    for crc in [crc_16_kermit(), crc_16_dnp(), crc_16_en_13757()] {
        assert_eq!(crc.checksum(CHECK), crc.check, "{crc:?}");
    }
    assert_eq!(crc_32_iscsi().checksum(CHECK), crc_32_iscsi().check);
    assert_eq!(crc_8_ts_27_010().checksum(CHECK), crc_8_ts_27_010().check);
}

#[test]
fn the_model_reproduces_catalogue_crcs_nobody_frames_with_yet() {
    // CRC-8/ROHC, CRC-16/ARC (reflected), CRC-16/XMODEM (not),
    // CRC-32/ISO-HDLC and CRC-64/XZ, each with its catalogue check.
    let rohc = Crc {
        xor_out: 0,
        check: 0xd0,
        ..crc_8_ts_27_010()
    };
    assert_eq!(rohc.checksum(CHECK), rohc.check);
    let arc = Crc {
        polynomial: 0x8005,
        check: 0xbb3d,
        ..crc_16_kermit()
    };
    assert_eq!(arc.checksum(CHECK), arc.check);
    let xmodem = Crc {
        polynomial: 0x1021,
        xor_out: 0,
        check: 0x31c3,
        ..crc_16_en_13757()
    };
    assert_eq!(xmodem.checksum(CHECK), xmodem.check);
    let iso_hdlc = Crc {
        polynomial: 0x04c1_1db7,
        check: 0xcbf4_3926,
        ..crc_32_iscsi()
    };
    assert_eq!(iso_hdlc.checksum(CHECK), iso_hdlc.check);
    let xz: Crc<u64> = Crc {
        polynomial: 0x42f0_e1eb_a9ea_3693,
        initial: u64::MAX,
        reflect_in: true,
        reflect_out: true,
        xor_out: u64::MAX,
        check: 0x995d_c9bb_df19_39fa,
    };
    assert_eq!(xz.checksum(CHECK), xz.check);
}

#[test]
fn reflection_out_alone_reflects_the_result() {
    // No CRC named here reflects out without reflecting in, so this
    // holds that branch to its definition.
    let out_only = Crc {
        reflect_out: true,
        ..crc_16_en_13757()
    };
    let plain = crc_16_en_13757().checksum(CHECK) ^ crc_16_en_13757().xor_out;
    assert_eq!(out_only.checksum(CHECK), plain.reverse_bits() ^ 0xffff);
}

#[test]
fn nothing_checks_to_the_initial_value_through_the_final_xor() {
    assert_eq!(crc_16_kermit().checksum(b""), 0);
    assert_eq!(crc_16_dnp().checksum(b""), 0xffff);
    assert_eq!(crc_32_iscsi().checksum(b""), 0);
}

#[test]
fn reflecting_reverses_the_low_bits() {
    assert_eq!(reflect_u64(0b0001, 4), 0b1000);
    assert_eq!(reflect_u64(0x8005, 16), 0xa001);
    assert_eq!(reflect_u64(reflect_u64(0x1234, 16), 16), 0x1234);
}

#[test]
fn reflecting_twice_gives_the_low_bits_back() {
    for width in [1u64, 4, 8, 16, 32, 63, 64] {
        for value in [0u64, 1, 0x5a, 0x8005, 0x1edc_6f41, u64::MAX] {
            let low = if width == 64 { value } else { value & ((1 << width) - 1) };
            assert_eq!(reflect_u64(reflect_u64(value, width), width), low, "{value:#x} {width}");
        }
    }
}

#[test]
fn an_empty_message_checks_to_the_initial_value_reflected_as_asked() {
    let in_only = Crc {
        reflect_in: true,
        reflect_out: false,
        ..crc_16_en_13757()
    };
    assert_eq!(in_only.checksum(b""), in_only.initial ^ in_only.xor_out);
    let out_only = Crc {
        reflect_in: false,
        reflect_out: true,
        initial: 0x1234,
        ..crc_16_en_13757()
    };
    assert_eq!(out_only.checksum(b""), 0x2c48 ^ out_only.xor_out);
}

#[test]
fn crcs_with_the_same_parameters_are_equal() {
    assert_eq!(crc_16_kermit(), crc_16_kermit());
    assert_ne!(crc_16_kermit(), Crc { xor_out: 1, ..crc_16_kermit() });
}
