use fs_ext4::features::{check_mountable, FsFlavor, READ_BREAKING_RO_COMPAT, RO_COMPAT_BIGALLOC, SUPPORTED_RO_COMPAT};
use fs_ext4::Error;

#[test]
fn a_bigalloc_filesystem_is_refused() {
    let err = check_mountable(0, RO_COMPAT_BIGALLOC)
        .expect_err("bigalloc changes the allocation unit and must not be mounted blind");
    match err {
        Error::UnsupportedRoCompat(bits) => {
            assert_eq!(bits, RO_COMPAT_BIGALLOC);
        }
        other => panic!("expected UnsupportedRoCompat, got {other:?}"),
    }
}

#[test]
fn the_other_ro_compat_bits_still_mount() {
    let tolerated = SUPPORTED_RO_COMPAT & !READ_BREAKING_RO_COMPAT;
    assert_ne!(tolerated, 0, "nothing to check - the masks are wrong");
    for shift in 0..32 {
        let bit = 1u32 << shift;
        if tolerated & bit == 0 {
            continue;
        }
        check_mountable(0, bit)
            .unwrap_or_else(|e| panic!("ro_compat {bit:#x} should mount read-only, got {e:?}"));
    }
}

#[test]
fn an_unknown_ro_compat_bit_still_mounts() {
    check_mountable(0, 0x8000_0000).expect("unknown RO_COMPAT is safe on a read-only mount");
}

#[test]
fn the_supported_and_breaking_masks_are_disjoint() {
    assert_eq!(
        SUPPORTED_RO_COMPAT & READ_BREAKING_RO_COMPAT,
        0,
        "a bit cannot be both tolerated and refused"
    );
}

#[test]
fn an_unsupported_incompat_bit_is_still_refused() {
    assert!(check_mountable(0x8000_0000, 0).is_err());
}

#[test]
fn each_flavor_has_its_geometry() {
    assert_eq!(FsFlavor::Ext4.geometry(), (256, 64, true, 12));
    assert_eq!(FsFlavor::Ext3.geometry(), (128, 32, false, 0));
    assert_eq!(FsFlavor::Ext2.geometry(), (128, 32, false, 0));
}
