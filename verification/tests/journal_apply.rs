use fs_ext4::jbd2::{
    JournalSuperblock, JBD2_SUPERBLOCK_V2, JBD_INCOMPAT_BIT64, JBD_INCOMPAT_CSUM_V3, JBD_INCOMPAT_REVOKE,
};
use fs_ext4::journal::{ReplayEntry, ReplayPlan};
use fs_ext4::journal_apply::ReplaySummary;

#[test]
fn empty_plan_applies_zero_blocks() {
    let plan = ReplayPlan::default();
    assert!(plan.writes.is_empty());
}

#[test]
fn replay_summary_mirrors_jsb() {
    let jsb = JournalSuperblock {
        block_type: JBD2_SUPERBLOCK_V2,
        header_sequence: 1,
        block_size: 4096,
        max_len: 8192,
        first: 1,
        sequence: 42,
        start: 100,
        errno: 0,
        feature_compat: 0,
        feature_incompat: JBD_INCOMPAT_REVOKE | JBD_INCOMPAT_BIT64 | JBD_INCOMPAT_CSUM_V3,
        feature_ro_compat: 0,
        uuid: [0; 16],
        nr_users: 1,
        checksum_type: 4,
        num_fc_blocks: 0,
        checksum: 0,
    };
    let s = ReplaySummary::from(&jsb);
    assert!(!s.clean);
    assert_eq!(s.sequence, 42);
    assert_eq!(s.start, 100);
    assert!(s.has_revoke);
    assert!(s.uses_64bit);
    assert!(s.uses_csum_v2_or_v3);
}

#[test]
fn clean_summary() {
    let mut jsb = JournalSuperblock {
        block_type: JBD2_SUPERBLOCK_V2,
        header_sequence: 1,
        block_size: 4096,
        max_len: 8192,
        first: 1,
        sequence: 1,
        start: 0,
        errno: 0,
        feature_compat: 0,
        feature_incompat: 0,
        feature_ro_compat: 0,
        uuid: [0; 16],
        nr_users: 1,
        checksum_type: 0,
        num_fc_blocks: 0,
        checksum: 0,
    };
    jsb.start = 0;
    let s = ReplaySummary::from(&jsb);
    assert!(s.clean);
}

#[test]
fn replay_entry_structure_stable() {
    let e = ReplayEntry {
        transaction: 1,
        fs_block: 100,
        journal_block: 5,
        flags: 0,
    };
    assert_eq!(e.transaction, 1);
    assert_eq!(e.fs_block, 100);
    assert_eq!(e.journal_block, 5);
}
