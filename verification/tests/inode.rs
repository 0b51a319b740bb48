use fs_ext4::inode::{decode_extra_time, encode_extra_time as encode, join16, join32, Inode};
use fs_ext4::Error;

#[test]
fn without_an_extra_field_the_base_is_used_as_is() {
    assert_eq!(decode_extra_time(0, 0), 0);
    assert_eq!(decode_extra_time(946_684_800, 0), 946_684_800);
}

#[test]
fn a_pre_1970_timestamp_stays_negative() {
    assert_eq!(decode_extra_time(0xFFFF_FFFF, 0), -1);
    assert_eq!(decode_extra_time(0x8000_0000, 0), i32::MIN as i64);
}

#[test]
fn the_epoch_bits_extend_the_range_past_2038() {
    assert_eq!(decode_extra_time(0, 0b01), 1i64 << 32);
    assert_eq!(decode_extra_time(0, 0b10), 2i64 << 32);
    assert_eq!(decode_extra_time(0, 0b11), 3i64 << 32);
}

#[test]
fn the_nanosecond_bits_do_not_affect_the_seconds() {
    let nsec_only = 0xFFFF_FFFCu32;
    assert_eq!(
        decode_extra_time(1_000, nsec_only),
        1_000,
        "nanoseconds must not be added to the seconds"
    );
}

#[test]
fn a_date_in_2100_decodes_correctly() {
    const SECS_2100: i64 = 4_102_444_800;
    let (base, epoch) = encode(SECS_2100);
    assert_eq!(epoch, 1, "2100 needs the epoch extension");
    assert_eq!(
        decode_extra_time(base, epoch),
        SECS_2100,
        "a date in 2100 must not come back 136 years early"
    );
}

#[test]
fn timestamps_round_trip_across_the_2038_boundary() {
    for secs in [
        i32::MIN as i64,
        -1,
        0,
        946_684_800,
        i32::MAX as i64,
        i32::MAX as i64 + 1,
        4_102_444_800,
        (1i64 << 33) + 12_345,
    ] {
        let (base, epoch) = encode(secs);
        assert_eq!(
            decode_extra_time(base, epoch),
            secs,
            "round trip for {secs}"
        );
    }
}

#[test]
fn join16_combines_halves() {
    assert_eq!(join16(0x0001, 0x0002), 0x0001_0002);
    assert_eq!(join16(0xFFFF, 0x0000), 0xFFFF_0000);
    assert_eq!(join16(0x0000, 0xFFFF), 0x0000_FFFF);
    assert_eq!(join16(0, 0), 0);
}

#[test]
fn join32_combines_halves_u16_hi() {
    assert_eq!(join32(u32::from(0x0001u16), 0x0000_0002), 0x0000_0001_0000_0002);
    assert_eq!(join32(u32::from(0xFFFFu16), 0x0000_0000), 0x0000_FFFF_0000_0000);
    assert_eq!(join32(u32::from(0x0000u16), 0xFFFF_FFFF), 0x0000_0000_FFFF_FFFF);
}

#[test]
fn join32_combines_halves_u32_hi() {
    assert_eq!(join32(0x0000_0001u32, 0x0000_0002), 0x0000_0001_0000_0002);
    assert_eq!(join32(0xFFFF_FFFFu32, 0x0000_0000), 0xFFFF_FFFF_0000_0000);
}

#[test]
fn parse_rejects_short_buffer() {
    let short = vec![0u8; 64];
    assert!(matches!(
        Inode::parse(&short),
        Err(Error::Corrupt(_))
    ));
}

#[test]
fn parse_rejects_invalid_extra_isize() {
    let mut raw = vec![0u8; 160];
    raw[0x80] = 200;
    raw[0x81] = 0;
    assert!(matches!(
        Inode::parse(&raw),
        Err(Error::Corrupt(_))
    ));
}

#[test]
fn parse_mode_and_links_roundtrip() {
    let mut raw = vec![0u8; 128];
    raw[0x00..0x02].copy_from_slice(&0x81A4u16.to_le_bytes());
    raw[0x1A..0x1C].copy_from_slice(&3u16.to_le_bytes());
    let inode = Inode::parse(&raw).unwrap();
    assert_eq!(inode.mode, 0x81A4);
    assert_eq!(inode.links_count, 3);
    assert!(inode.is_file());
}
