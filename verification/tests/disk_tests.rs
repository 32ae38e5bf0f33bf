use raid_rs::disk::Disk;
use raid_rs::metrics::bump_backoff;

#[test]
fn fresh_disk_reads_zeros_and_roundtrips_writes() {
    let mut d = Disk::create(64).expect("disk");
    assert_eq!(d.len(), 64);
    assert!(d.is_operational());
    assert!(d.needs_rebuild);

    let mut buf = [0xAAu8; 8];
    assert_eq!(d.read_at(0, &mut buf), 8);
    assert_eq!(buf, [0u8; 8]);

    assert_eq!(d.write_at(3, &[9, 8, 7]), 3);
    let mut back = [0u8; 5];
    assert_eq!(d.read_at(2, &mut back), 5);
    assert_eq!(back, [0, 9, 8, 7, 0]);
}

#[test]
fn read_and_write_past_end_are_truncated() {
    let mut d = Disk::create(10).expect("disk");
    assert_eq!(d.write_at(8, &[1, 2, 3, 4]), 2);
    assert_eq!(d.write_at(10, &[5]), 0);
    assert_eq!(d.write_at(100, &[5]), 0);

    let mut buf = [0u8; 4];
    assert_eq!(d.read_at(8, &mut buf), 2);
    assert_eq!(buf, [1, 2, 0, 0]);
    assert_eq!(d.read_at(10, &mut buf), 0);
}

#[test]
fn failed_disk_transfers_nothing_until_replaced() {
    let mut d = Disk::create(16).expect("disk");
    d.write_at(0, &[1, 2, 3, 4]);
    d.fail();
    assert!(d.is_missing());
    assert!(!d.is_operational());

    let mut buf = [7u8; 4];
    assert_eq!(d.read_at(0, &mut buf), 0);
    assert_eq!(buf, [7u8; 4]);
    assert_eq!(d.write_at(0, &[9]), 0);

    d.replace().expect("replace");
    assert!(d.is_operational());
    assert!(d.needs_rebuild);
    let mut buf2 = [7u8; 4];
    assert_eq!(d.read_at(0, &mut buf2), 4);
    assert_eq!(buf2, [0u8; 4]);
}

#[test]
fn backoff_doubles_and_caps() {
    assert_eq!(bump_backoff(100, 30_000), 200);
    assert_eq!(bump_backoff(0, 30_000), 1);
    assert_eq!(bump_backoff(20_000, 30_000), 30_000);
    assert_eq!(bump_backoff(u64::MAX, u64::MAX), u64::MAX);
}
