use fs_ext4::block_io::Bytes;
use fs_ext4::ea_inode::read_value_inode;
use fs_ext4::inode::{
    FL_EA_INODE, FL_INLINE_DATA, OFF_BLOCK, OFF_FLAGS, OFF_LINKS_COUNT, OFF_MODE, OFF_SIZE_LO,
};
use fs_ext4::mkfs::format_filesystem;
use fs_ext4::{Error, Filesystem};

const BS: u32 = 1024;
const VOL: u64 = 4 * 1024 * 1024;
const EA_INO: u32 = 12;
const VALUE: &[u8] = b"deadbeef";
const UUID: [u8; 16] = [7; 16];

#[test]
fn ea_inode_flag_bit_value() {
    assert_eq!(FL_EA_INODE, 0x0020_0000);
}

/// A formatted volume holding one EA inode of `size` bytes whose body is
/// [`VALUE`], whatever the size says.
fn volume_with_ea_inode(size: u64) -> Filesystem<Bytes> {
    let mut dev = Bytes { data: vec![0u8; VOL as usize], read_only: false };
    format_filesystem(&mut dev, None, UUID, VOL, BS).expect("format");
    let mut fs = Filesystem::mount(dev, 1000).expect("mount");

    let mut raw = fs.read_inode_raw(EA_INO).expect("the inode to borrow");
    raw.fill(0);
    raw[OFF_MODE..OFF_MODE + 2].copy_from_slice(&0o100_644u16.to_le_bytes());
    raw[OFF_LINKS_COUNT..OFF_LINKS_COUNT + 2].copy_from_slice(&1u16.to_le_bytes());
    let flags = FL_EA_INODE | FL_INLINE_DATA;
    raw[OFF_FLAGS..OFF_FLAGS + 4].copy_from_slice(&flags.to_le_bytes());
    raw[OFF_SIZE_LO..OFF_SIZE_LO + 4].copy_from_slice(&(size as u32).to_le_bytes());
    raw[OFF_BLOCK..OFF_BLOCK + VALUE.len()].copy_from_slice(VALUE);
    let generation = u32::from_le_bytes(raw[0x64..0x68].try_into().expect("4 bytes"));
    fs.finalize_inode_raw(EA_INO, generation, &mut raw);
    fs.write_inode_raw(EA_INO, &raw).expect("write the EA inode");
    fs
}

#[test]
fn a_value_the_entry_asked_for_is_returned() {
    let fs = volume_with_ea_inode(VALUE.len() as u64);
    let value = read_value_inode(&fs, EA_INO, VALUE.len() as u32).expect("the value");
    assert_eq!(value, VALUE, "the entry's own bytes");
}

#[test]
fn an_ea_inode_longer_than_the_entry_declared_is_refused() {
    let fs = volume_with_ea_inode(60);
    match read_value_inode(&fs, EA_INO, VALUE.len() as u32) {
        Err(Error::Corrupt(why)) => assert!(
            why.contains("e_value_size"),
            "refused, but not for the length it disagreed about: {why}"
        ),
        Err(other) => panic!("refused for the wrong reason: {other:?}"),
        Ok(value) => panic!(
            "an entry declaring {} bytes was answered with {}",
            VALUE.len(),
            value.len()
        ),
    }
}

#[test]
fn an_ea_inode_shorter_than_the_entry_declared_is_refused() {
    let fs = volume_with_ea_inode(4);
    assert!(
        read_value_inode(&fs, EA_INO, VALUE.len() as u32).is_err(),
        "an entry declaring more than the inode holds is a disagreement too"
    );
}

#[test]
fn zero_inode_is_rejected() {
    let fs = volume_with_ea_inode(8);
    match read_value_inode(&fs, 0, 8) {
        Err(Error::InvalidInode(n)) => assert_eq!(n, 0),
        _ => panic!(),
    }
}
