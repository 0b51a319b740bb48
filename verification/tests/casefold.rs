use fs_ext4::casefold::{casefold_name_hash, fold_name, siphash_2_4};

#[test]
fn fold_ascii_uppercase() {
    assert_eq!(fold_name(b"HELLO"), b"hello".to_vec());
    assert_eq!(fold_name(b"Hello"), b"hello".to_vec());
}

#[test]
fn fold_preserves_non_ascii() {
    assert_eq!(fold_name(&[0xC3, 0x9F]), vec![0xC3, 0x9F]);
}

#[test]
fn fold_empty_name() {
    assert_eq!(fold_name(b""), Vec::<u8>::new());
}

#[test]
fn casefold_hash_is_case_insensitive() {
    let seed = [1u32, 2, 3, 4];
    let a = casefold_name_hash(b"README", &seed);
    let b = casefold_name_hash(b"readme", &seed);
    let c = casefold_name_hash(b"ReadMe", &seed);
    assert_eq!(a.major, b.major);
    assert_eq!(a.major, c.major);
}

#[test]
fn casefold_hash_differs_on_different_names() {
    let seed = [1u32, 2, 3, 4];
    let a = casefold_name_hash(b"hello", &seed);
    let b = casefold_name_hash(b"hellw", &seed);
    assert_ne!(a.major, b.major);
}

#[test]
fn siphash_empty_input() {
    let key = [0u8; 16];
    let a = siphash_2_4(b"", &key);
    let b = siphash_2_4(b"", &key);
    assert_eq!(a, b);
}

#[test]
fn siphash_rfc_zero_key_empty_matches_impl_specific() {
    let key = [0u8; 16];
    let h = siphash_2_4(b"abc", &key);
    assert_ne!(h, 0);
}

#[test]
fn casefold_low_bit_is_zero() {
    let seed = [0xdeadbeefu32, 0, 0, 0];
    for name in [b"foo".as_slice(), b"BAR", b"mixedCase"] {
        let h = casefold_name_hash(name, &seed);
        assert_eq!(h.major & 1, 0);
    }
}
