use raid_rs::array::Array;
use raid_rs::raid0::RAID0;
use raid_rs::raid1::RAID1;
use raid_rs::raid3::RAID3;
use raid_rs::volume::Volume;

fn raid0_volume(len: u64) -> Volume<3, 4, RAID0<3, 4>> {
    let array = Array::<3, 4>::create(len).expect("array");
    Volume::new(array, RAID0::zero())
}

#[test]
fn write_and_read_across_multiple_stripes() {
    let mut volume = raid0_volume(1024);
    let payload: Vec<u8> = (0..40).map(|i| i as u8).collect();
    volume.write_bytes(0, &payload);

    let (array, _) = volume.into_parts();
    let mut volume = Volume::new(array, RAID0::<3, 4>::zero());
    let mut out = vec![0u8; 40];
    volume.read_bytes(0, &mut out);

    let expected: Vec<u8> = (0..40).map(|i| i as u8).collect();
    assert_eq!(out, expected);
}

#[test]
fn partial_write_preserves_unrelated_bytes() {
    let initial: Vec<u8> = (0..30).map(|i| (i + 1) as u8).collect();

    let mut volume = raid0_volume(1024);
    volume.write_bytes(0, &initial);

    let patch_offset = 5u64;
    let patch: Vec<u8> = (0..20).map(|i| (i + 200) as u8).collect();

    let (array, _) = volume.into_parts();
    let mut volume = Volume::new(array, RAID0::<3, 4>::zero());
    volume.write_bytes(patch_offset, &patch);

    let (array, _) = volume.into_parts();
    let mut volume = Volume::new(array, RAID0::<3, 4>::zero());
    let mut out = vec![0u8; initial.len()];
    volume.read_bytes(0, &mut out);

    let mut expected = initial.clone();
    expected[patch_offset as usize..patch_offset as usize + patch.len()].copy_from_slice(&patch);
    assert_eq!(out, expected);
}

#[test]
fn raid0_roundtrip_across_reopen() {
    let mut volume = raid0_volume(1024);
    let payload: Vec<u8> = (0..40).map(|i| i as u8).collect();
    volume.write_bytes(0, &payload);

    let (array, layout) = volume.into_parts();
    let mut volume = Volume::new(array, layout);
    let mut out = vec![0u8; 40];
    volume.read_bytes(0, &mut out);
    assert_eq!(out, payload);
}

#[test]
fn raid0_partial_overwrite_merges_payloads() {
    let mut volume = raid0_volume(1024);
    let first: Vec<u8> = (1..31).collect();
    volume.write_bytes(0, &first);

    let second: Vec<u8> = (200..220).map(|i| i as u8).collect();
    volume.write_bytes(5, &second);

    let mut out = vec![0u8; 30];
    volume.read_bytes(0, &mut out);

    let mut expected: Vec<u8> = vec![1, 2, 3, 4, 5];
    expected.extend((200..220).map(|i| i as u8));
    expected.extend([26, 27, 28, 29, 30]);
    assert_eq!(out, expected);
}

#[test]
fn raid1_restore_after_disk_failure() {
    let array = Array::<3, 4>::create(1024).expect("array");
    let mut volume = Volume::new(array, RAID1::<3, 4>::zero());

    let payload = b"hello-raid1-mirror";
    volume.write_bytes(0, payload);

    volume.fail_disk(1).unwrap();
    let mut out = vec![0u8; 18];
    volume.read_bytes(0, &mut out);
    assert_eq!(&out, payload);

    volume.replace_disk(1).unwrap();
    volume.rebuild_disk_upto(1, 18).unwrap();

    let mut d0 = [0u8; 4];
    let mut d1 = [0u8; 4];
    assert_eq!(volume.array.0[0].read_at(0, &mut d0), 4);
    assert_eq!(volume.array.0[1].read_at(0, &mut d1), 4);
    assert_eq!(d0, d1);
}

#[test]
fn raid3_single_disk_loss_and_recovery() {
    let array = Array::<4, 4>::create(4096).expect("array");
    let mut volume = Volume::new(array, RAID3::<4, 4>::zero());

    let payload: Vec<u8> = (0..48).collect();
    volume.write_bytes(0, &payload);

    volume.fail_disk(2).unwrap();
    let mut out = vec![0u8; 48];
    volume.read_bytes(0, &mut out);
    assert_eq!(out, payload);

    volume.replace_disk(2).unwrap();
    volume.rebuild_disk_upto(2, 48).unwrap();

    volume.fail_disk(0).unwrap();
    let mut out2 = vec![0u8; 48];
    volume.read_bytes(0, &mut out2);
    assert_eq!(out2, payload);
}

#[test]
fn raid3_scrub_repairs_parity_corruption() {
    let array = Array::<4, 4>::create(4096).expect("array");
    let mut volume = Volume::new(array, RAID3::<4, 4>::zero());

    let payload: Vec<u8> = (0..48).collect();
    volume.write_bytes(0, &payload);

    assert_eq!(volume.array.0[3].write_at(0, &[0xFF]), 1);

    let mut out = vec![0u8; 48];
    volume.read_bytes(0, &mut out);
    assert_eq!(out, payload);

    let mut b0 = [0u8; 1];
    let mut b1 = [0u8; 1];
    let mut b2 = [0u8; 1];
    let mut bp = [0u8; 1];
    volume.array.0[0].read_at(0, &mut b0);
    volume.array.0[1].read_at(0, &mut b1);
    volume.array.0[2].read_at(0, &mut b2);
    volume.array.0[3].read_at(0, &mut bp);
    assert_eq!(bp[0], b0[0] ^ b1[0] ^ b2[0]);
}

#[test]
fn raid0_double_failure_is_not_masked() {
    let mut volume = raid0_volume(1024);
    let payload: Vec<u8> = (0..24).collect();
    volume.write_bytes(0, &payload);

    volume.fail_disk(1).unwrap();

    let mut out = vec![0u8; 24];
    volume.read_bytes(0, &mut out);

    let expected: Vec<u8> = (0..24u8)
        .map(|i| if (i as usize % 12) / 4 == 1 { 0 } else { i })
        .collect();
    assert_eq!(out, expected);
    assert_eq!(volume.failed_disks(), 1);
}

#[test]
fn raid1_read_survives_any_single_failure() {
    for failed in 0..3usize {
        let array = Array::<3, 4>::create(1024).expect("array");
        let mut volume = Volume::new(array, RAID1::<3, 4>::zero());
        let payload: Vec<u8> = (50..90).collect();
        volume.write_bytes(8, &payload);

        volume.fail_disk(failed).unwrap();
        let mut out = vec![0u8; 40];
        volume.read_bytes(8, &mut out);
        assert_eq!(out, payload);
    }
}

#[test]
fn raid3_read_survives_any_single_failure() {
    for failed in 0..4usize {
        let array = Array::<4, 4>::create(4096).expect("array");
        let mut volume = Volume::new(array, RAID3::<4, 4>::zero());
        let payload: Vec<u8> = (10..70).collect();
        volume.write_bytes(4, &payload);

        volume.fail_disk(failed).unwrap();
        let mut out = vec![0u8; 60];
        volume.read_bytes(4, &mut out);
        assert_eq!(out, payload);
    }
}

#[test]
fn raid1_scrub_restores_tampered_copy() {
    let array = Array::<3, 4>::create(1024).expect("array");
    let mut volume = Volume::new(array, RAID1::<3, 4>::zero());
    let payload: Vec<u8> = (1..13).collect();
    volume.write_bytes(0, &payload);

    assert_eq!(volume.array.0[2].write_at(0, &[0x80]), 1);

    let mut out = vec![0u8; 12];
    volume.read_bytes(0, &mut out);
    assert_eq!(out, payload);

    let mut tampered = [0u8; 1];
    volume.array.0[2].read_at(0, &mut tampered);
    assert_eq!(tampered[0], 1);
}

#[test]
fn reading_past_capacity_returns_zeros() {
    let mut volume = raid0_volume(16);
    let payload: Vec<u8> = (1..13).collect();
    volume.write_bytes(0, &payload);

    let capacity = volume.logical_capacity_bytes();
    assert_eq!(capacity, 48);

    let mut out = vec![0xAAu8; 8];
    volume.read_bytes(capacity, &mut out);
    assert_eq!(out, vec![0u8; 8]);
}

#[test]
fn write_straddling_capacity_keeps_prefix() {
    let mut volume = raid0_volume(16);
    let capacity = volume.logical_capacity_bytes();
    let payload = vec![7u8; 16];
    volume.write_bytes(capacity - 8, &payload);

    let mut out = vec![0u8; 8];
    volume.read_bytes(capacity - 8, &mut out);
    assert_eq!(out, vec![7u8; 8]);
}

#[test]
fn stripes_needed_matches_capacity() {
    let volume = raid0_volume(1024);
    assert_eq!(volume.stripes_needed_for_logical_end(0), 0);
    let capacity = volume.logical_capacity_bytes();
    assert_eq!(volume.stripes_needed_for_logical_end(capacity), capacity / 12);
    assert_eq!(volume.stripes_needed_for_logical_end(1), 1);
    assert_eq!(volume.stripes_needed_for_logical_end(capacity + 100), capacity / 12);
}

#[test]
fn disk_statuses_track_health() {
    let array = Array::<3, 4>::create(64).expect("array");
    let mut volume = Volume::new(array, RAID1::<3, 4>::zero());
    volume.clear_needs_rebuild_all();
    assert!(!volume.any_needs_rebuild());

    volume.fail_disk(2).unwrap();
    let statuses = volume.disk_statuses();
    assert_eq!(statuses.len(), 3);
    assert!(!statuses[0].missing);
    assert!(statuses[2].missing);
    assert!(volume.fail_disk(7).is_err());

    let summary = volume.disk_status_string();
    assert!(summary.contains("FAILED"));
    assert!(summary.contains("disk 2"));

    volume.replace_disk(2).unwrap();
    let statuses = volume.disk_statuses();
    assert!(!statuses[2].missing);
    assert!(statuses[2].needs_rebuild);
    assert!(volume.any_needs_rebuild());

    volume.clear_needs_rebuild_all();
    assert!(!volume.any_needs_rebuild());

    let summary = volume.disk_status_string();
    assert!(summary.contains("disk 0"));
    assert!(summary.contains("OK"));
}

#[test]
fn rebuild_errors_for_bad_targets() {
    let array = Array::<3, 4>::create(256).expect("array");
    let mut volume = Volume::new(array, RAID1::<3, 4>::zero());

    assert!(volume.rebuild_disk_upto(9, 16).is_err());

    volume.fail_disk(1).unwrap();
    assert!(volume.rebuild_disk_upto(1, 16).is_err());

    volume.replace_disk(1).unwrap();
    assert!(volume.rebuild_disk_upto(1, 16).is_ok());
}

#[test]
fn rebuild_all_upto_clears_flags() {
    let array = Array::<3, 4>::create(256).expect("array");
    let mut volume = Volume::new(array, RAID1::<3, 4>::zero());
    let payload: Vec<u8> = (0..32).collect();
    volume.write_bytes(0, &payload);

    volume.fail_disk(1).unwrap();
    volume.replace_disk(1).unwrap();
    assert!(volume.any_needs_rebuild());

    volume.rebuild_all_upto(32);
    assert!(!volume.any_needs_rebuild());

    let mut out = vec![0u8; 32];
    volume.read_bytes(0, &mut out);
    assert_eq!(out, payload);
}
