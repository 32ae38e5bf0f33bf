use raid_rs::raid0::RAID0;
use raid_rs::array::Array;
use raid_rs::table_fs::{
    data_start, find_entry_named, find_unused_slot, header_bytes, index_for_inode, inode_for,
    is_valid_name, parse_header, plan_entry_read, plan_entry_write, Entry, FsState, Header,
    CTL_INO, ENTRY_SIZE, FILE_ID_BASE, HEADER_SIZE, MAX_FILES, TABLE_SIZE, VERSION,
};
use raid_rs::volume::Volume;

#[test]
fn table_size_is_consistent() {
    assert_eq!(TABLE_SIZE, HEADER_SIZE + (ENTRY_SIZE * MAX_FILES));
}

#[test]
fn ctl_inode_is_after_file_range() {
    assert_eq!(CTL_INO, FILE_ID_BASE + (MAX_FILES as u64) + 1);
}

#[test]
fn entry_round_trip_preserves_fields() {
    let entry = Entry {
        name: "alpha".to_string(),
        offset: 10,
        size: 20,
        used: true,
    };

    let bytes = entry.to_bytes();
    let decoded = Entry::from_bytes(&bytes);

    assert_eq!(decoded.name, "alpha");
    assert_eq!(decoded.offset, 10);
    assert_eq!(decoded.size, 20);
    assert!(decoded.used);
}

#[test]
fn entry_truncates_long_names() {
    let entry = Entry {
        name: "a".repeat(64 + 10),
        offset: 0,
        size: 0,
        used: true,
    };
    let bytes = entry.to_bytes();
    let decoded = Entry::from_bytes(&bytes);
    assert_eq!(decoded.name.len(), 64);
}

#[test]
fn header_bytes_round_trip() {
    let header = Header { next_free: 123 };
    let bytes = header_bytes(&header);
    let parsed = parse_header(&bytes).expect("parse header");
    assert_eq!(parsed.next_free, 123);
}

#[test]
fn header_parse_rejects_bad_magic() {
    let mut bytes = vec![0u8; HEADER_SIZE];
    bytes[0..8].copy_from_slice(b"BADMAGIC");
    assert!(parse_header(&bytes).is_none());
}

#[test]
fn header_parse_rejects_bad_version() {
    let mut bytes = header_bytes(&Header { next_free: 0 });
    bytes[8] = VERSION.saturating_add(1);
    assert!(parse_header(&bytes).is_none());
}

#[test]
fn header_parse_rejects_bad_max_files() {
    let mut bytes = header_bytes(&Header { next_free: 0 });
    let wrong = (MAX_FILES as u32 + 1).to_le_bytes();
    bytes[24..28].copy_from_slice(&wrong);
    assert!(parse_header(&bytes).is_none());
}

#[test]
fn header_parse_rejects_short_buffer() {
    let bytes = vec![0u8; HEADER_SIZE - 1];
    assert!(parse_header(&bytes).is_none());
}

#[test]
fn inode_mapping_round_trips() {
    let ino = inode_for(5);
    assert_eq!(index_for_inode(ino), Some(5));
    assert_eq!(index_for_inode(FILE_ID_BASE - 1), None);
}

#[test]
fn valid_name_rejects_paths() {
    assert!(!is_valid_name(""));
    assert!(!is_valid_name("."));
    assert!(!is_valid_name(".."));
    assert!(!is_valid_name("a/b"));
    assert!(is_valid_name("file.txt"));
}

#[test]
fn fs_state_can_be_built() {
    let array = Array::<1, 4>::create(20_000).expect("array");
    let volume = Volume::new(array, RAID0::<1, 4>::zero());
    let header = Header { next_free: data_start() };
    let entries = vec![Entry::empty(); MAX_FILES];
    let state = FsState { volume, header, entries };
    assert!(state.entries.iter().all(|entry| !entry.used));
}

#[test]
fn write_plan_grows_only_the_last_allocation() {
    // Last allocation: grows and advances the free pointer.
    let plan = plan_entry_write(100, 4, 104, 1_000, 2, 10).expect("fits");
    assert_eq!(plan.abs_offset, 102);
    assert_eq!(plan.gap_len, 0);
    assert_eq!(plan.new_size, 12);
    assert_eq!(plan.new_next_free, Some(112));

    // Overwrite inside an older allocation: size may not grow.
    assert!(plan_entry_write(100, 4, 300, 1_000, 0, 4).is_some());
    assert!(plan_entry_write(100, 4, 300, 1_000, 2, 10).is_none());

    // Nothing may grow past the capacity.
    assert!(plan_entry_write(100, 4, 104, 105, 0, 10).is_none());

    // A sparse write zero-fills the gap first.
    let plan = plan_entry_write(100, 4, 104, 1_000, 8, 2).expect("fits");
    assert_eq!(plan.gap_offset, 104);
    assert_eq!(plan.gap_len, 4);
    assert_eq!(plan.abs_offset, 108);
}

#[test]
fn read_plan_clips_to_the_file() {
    assert_eq!(plan_entry_read(100, 10, 0, 4), (100, 4));
    assert_eq!(plan_entry_read(100, 10, 8, 4), (108, 2));
    let (_, n) = plan_entry_read(100, 10, 10, 4);
    assert_eq!(n, 0);
}

#[test]
fn entry_scans_respect_used_flags() {
    let mut entries = vec![Entry::empty(); 3];
    entries[1] = Entry { name: "a".to_string(), offset: 0, size: 1, used: true };

    assert_eq!(find_entry_named(&entries, &"a".to_string()), Some(1));
    assert_eq!(find_entry_named(&entries, &"b".to_string()), None);
    assert_eq!(find_unused_slot(&entries), Some(0));
}
