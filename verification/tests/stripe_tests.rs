use raid_rs::bits::Bits;
use raid_rs::raid0::RAID0;
use raid_rs::raid1::RAID1;
use raid_rs::raid3::RAID3;
use raid_rs::stripe::{
    stripe_try_read, stripe_try_read_raw, stripe_try_restore, stripe_try_write,
    stripe_try_write_raw, Restore, Stripe,
};

#[test]
fn raid0_tests_zero_initializes_all_drives() {
    let r = RAID0::<3, 4>::zero();
    for drive in r.0.iter() {
        assert_eq!(drive.as_bytes(), &[0u8; 4]);
    }
}

#[test]
fn write_then_read_roundtrips_data() {
    let data = [
        Bits::<4>([1, 2, 3, 4]),
        Bits::<4>([5, 6, 7, 8]),
        Bits::<4>([9, 10, 11, 12]),
    ];
    let mut r = RAID0::<3, 4>::zero();

    r.write(&data);

    assert_eq!(r.0, data.to_vec());

    let mut out = [Bits::<4>::zero(); 3];
    r.read(&mut out);

    assert_eq!(out, data);
}

#[test]
fn stripe_data_const_matches_drive_count() {
    let data: usize = <RAID0<3, 4> as Stripe<3, 4>>::data();
    assert_eq!(data, 3);
}

#[test]
fn stripe_write_and_read_cover_all_drives() {
    let values = [Bits::<2>([0xAA, 0x55]), Bits::<2>([0x0F, 0xF0])];
    let mut r = RAID0::<2, 2>::zero();

    r.write(&values);

    let mut out = [Bits::<2>::zero(); 2];
    r.read(&mut out);

    assert_eq!(out, values);
}

#[test]
#[should_panic]
fn stripe_write_panics_on_wrong_len() {
    let mut r = RAID0::<2, 2>::zero();
    stripe_try_write(&mut r, &[Bits::<2>::zero()]).unwrap();
}

#[test]
#[should_panic]
fn stripe_read_panics_on_wrong_out_len() {
    let values = [Bits::<1>([1]), Bits::<1>([2])];
    let mut r = RAID0::<2, 1>::zero();
    r.write(&values);

    let mut out = [Bits::<1>::zero(); 1];
    stripe_try_read(&r, &mut out).unwrap();
}

#[test]
fn stripe_as_restore_returns_none() {
    let _r = RAID0::<2, 4>::zero();
    assert!(!<RAID0<2, 4> as Stripe<2, 4>>::supports_restore());
}

#[test]
fn stripe_write_raw_and_read_raw_cover_all_drives() {
    let values = [Bits::<2>([0x01, 0x02]), Bits::<2>([0x03, 0x04])];
    let mut r = RAID0::<2, 2>::zero();

    r.write_raw(&values);

    let mut out = [Bits::<2>::zero(); 2];
    r.read_raw(&mut out);

    assert_eq!(out, values);
}

#[test]
#[should_panic]
fn stripe_write_raw_panics_on_wrong_len() {
    let mut r = RAID0::<2, 2>::zero();
    stripe_try_write_raw(&mut r, &[Bits::<2>::zero()]).unwrap();
}

#[test]
#[should_panic]
fn stripe_read_raw_panics_on_wrong_out_len() {
    let values = [Bits::<1>([1]), Bits::<1>([2])];
    let mut r = RAID0::<2, 1>::zero();
    r.write_raw(&values);

    let mut out = [Bits::<1>::zero(); 1];
    stripe_try_read_raw(&r, &mut out).unwrap();
}

#[test]
fn raid1_tests_zero_initializes_all_drives() {
    let r = RAID1::<3, 4>::zero();
    for drive in r.0.iter() {
        assert_eq!(drive.as_bytes(), &[0u8; 4]);
    }
}

#[test]
fn stripe_data_const_is_one() {
    let data: usize = <RAID1<3, 4> as Stripe<3, 4>>::data();
    assert_eq!(data, 1);
}

#[test]
fn stripe_write_mirrors_across_all_drives_then_read_returns_value() {
    let value = Bits::<4>([7, 8, 9, 10]);
    let mut r = RAID1::<3, 4>::zero();

    r.write(&[value]);

    for drive in r.0.iter() {
        assert_eq!(*drive, value);
    }

    let mut out = [Bits::<4>::zero(); 1];
    r.read(&mut out);
    assert_eq!(out[0], value);
}

#[test]
#[should_panic]
fn stripe_trait_tests_stripe_write_panics_on_wrong_len() {
    let mut r = RAID1::<2, 2>::zero();
    stripe_try_write(&mut r, &[Bits::<2>::zero(), Bits::<2>::zero()]).unwrap();
}

#[test]
#[should_panic]
fn stripe_trait_tests_stripe_read_panics_on_wrong_out_len() {
    let mut r = RAID1::<2, 2>::zero();
    r.write(&[Bits::<2>([1, 2])]);

    let mut out = [Bits::<2>::zero(); 2];
    stripe_try_read(&r, &mut out).unwrap();
}

#[test]
fn stripe_as_restore_returns_some() {
    let _r = RAID1::<2, 4>::zero();
    assert!(<RAID1<2, 4> as Stripe<2, 4>>::supports_restore());
}

#[test]
fn stripe_trait_tests_stripe_write_raw_and_read_raw_cover_all_drives() {
    let values = [
        Bits::<2>([0x01, 0x02]),
        Bits::<2>([0x03, 0x04]),
        Bits::<2>([0x05, 0x06]),
    ];
    let mut r = RAID1::<3, 2>::zero();

    r.write_raw(&values);

    let mut out = [Bits::<2>::zero(); 3];
    r.read_raw(&mut out);

    assert_eq!(out, values);
}

#[test]
#[should_panic]
fn stripe_trait_tests_stripe_write_raw_panics_on_wrong_len() {
    let mut r = RAID1::<3, 2>::zero();
    stripe_try_write_raw(&mut r, &[Bits::<2>::zero()]).unwrap();
}

#[test]
#[should_panic]
fn stripe_trait_tests_stripe_read_raw_panics_on_wrong_out_len() {
    let mut r = RAID1::<3, 2>::zero();
    let values = [
        Bits::<2>([1, 2]),
        Bits::<2>([3, 4]),
        Bits::<2>([5, 6]),
    ];
    r.write_raw(&values);

    let mut out = [Bits::<2>::zero(); 2];
    stripe_try_read_raw(&r, &mut out).unwrap();
}

#[test]
fn restore_recovers_missing_drive_from_any_other() {
    let value = Bits::<4>([1, 2, 3, 4]);
    for missing in 0..3 {
        let mut r = RAID1::<3, 4>(vec![value; 3]);
        r.0[missing] = Bits::zero();

        r.restore(missing);

        for drive in r.0.iter() {
            assert_eq!(*drive, value);
        }
    }
}

#[test]
#[should_panic]
fn restore_panics_on_invalid_index() {
    let value = Bits::<2>([0xAA, 0x55]);
    let mut r = RAID1::<2, 2>(vec![value; 2]);

    let invalid = 2;
    stripe_try_restore(&mut r, invalid).unwrap();
}

#[test]
#[should_panic]
fn restore_panics_when_no_alternate_drive() {
    let value = Bits::<1>([1]);
    let mut r = RAID1::<1, 1>(vec![value; 1]);

    stripe_try_restore(&mut r, 0).unwrap();
}

#[test]
fn stripe_trait_tests_stripe_data_const_matches_drive_count() {
    let data: usize = <RAID0<2, 2> as Stripe<2, 2>>::data();
    assert_eq!(data, 2);
}

#[test]
fn stripe_trait_tests_stripe_write_and_read_cover_all_drives() {
    let values = [Bits::<2>([0xAA, 0x55]), Bits::<2>([0x0F, 0xF0])];
    let mut r = RAID0::<2, 2>::zero();

    r.write(&values);

    let mut out = [Bits::<2>::zero(); 2];
    r.read(&mut out);

    assert_eq!(out, values);
}

#[test]
fn stripe_trait_tests_stripe_as_restore_returns_none() {
    let _r = RAID0::<2, 4>::zero();
    assert!(!<RAID0<2, 4> as Stripe<2, 4>>::supports_restore());
}

#[test]
fn stripe_trait_tests_stripe_data_const_is_one() {
    let data: usize = <RAID1<2, 4> as Stripe<2, 4>>::data();
    assert_eq!(data, 1);
}

#[test]
fn stripe_trait_tests_stripe_write_mirrors_across_all_drives_then_read_returns_value() {
    let value = Bits::<4>([1, 2, 3, 4]);
    let mut r = RAID1::<2, 4>::zero();

    r.write(&[value]);

    for drive in r.0.iter() {
        assert_eq!(*drive, value);
    }

    let mut out = [Bits::<4>::zero(); 1];
    r.read(&mut out);
    assert_eq!(out[0], value);
}

#[test]
fn stripe_trait_tests_stripe_as_restore_returns_some() {
    let _r = RAID3::<3, 4>::zero();
    assert!(<RAID3<3, 4> as Stripe<3, 4>>::supports_restore());
}

#[test]
fn default_as_restore_is_none_for_concrete_type() {
    let _s = RAID0::<3, 4>::zero();
    assert!(!<RAID0<3, 4> as Stripe<3, 4>>::supports_restore());
}

#[test]
fn raid1_scrub_majority_repairs_outlier() {
    let value = Bits::<4>([9, 9, 9, 9]);
    let mut r = RAID1::<3, 4>(vec![value; 3]);
    r.0[1] = Bits::<4>([0, 9, 9, 9]);

    let changed = r.scrub();

    assert_eq!(changed, vec![1]);
    for drive in r.0.iter() {
        assert_eq!(*drive, value);
    }
}

#[test]
fn stripe_data_const_matches_d_minus_one() {
    let data: usize = <RAID3<4, 4> as Stripe<4, 4>>::data();
    assert_eq!(data, 3);
}

#[test]
fn stripe_write_sets_data_and_parity_then_read_returns_same() {
    let d0 = Bits::<4>([1, 2, 3, 4]);
    let d1 = Bits::<4>([5, 6, 7, 8]);
    let d2 = Bits::<4>([9, 10, 11, 12]);

    let mut r = RAID3::<4, 4>::zero();

    r.write(&[d0, d1, d2]);

    assert_eq!(r.0[0], d0);
    assert_eq!(r.0[1], d1);
    assert_eq!(r.0[2], d2);

    let mut expected_p = Bits::<4>::zero();
    expected_p.xor_in_place(&d0);
    expected_p.xor_in_place(&d1);
    expected_p.xor_in_place(&d2);
    assert_eq!(r.0[3], expected_p);

    let mut out = [Bits::<4>::zero(); 3];
    r.read(&mut out);
    assert_eq!(out, [d0, d1, d2]);
}

#[test]
fn raid3_write_raw_and_read_raw_cover_all_drives() {
    let values = [
        Bits::<2>([0x01, 0x02]),
        Bits::<2>([0x03, 0x04]),
        Bits::<2>([0x05, 0x06]),
        Bits::<2>([0x07, 0x08]),
    ];
    let mut r = RAID3::<4, 2>::zero();

    r.write_raw(&values);

    assert_eq!(r.0, values.to_vec());

    let mut out = [Bits::<2>::zero(); 4];
    r.read_raw(&mut out);

    assert_eq!(out, values);
}

#[test]
fn raid3_write_rejects_wrong_len() {
    let d0 = Bits::<2>([0xAA, 0x55]);
    let mut r = RAID3::<3, 2>::zero();
    assert!(stripe_try_write(&mut r, &[d0][..1]).is_none());
}

#[test]
fn raid3_read_rejects_wrong_out_len() {
    let d0 = Bits::<2>([1, 2]);
    let d1 = Bits::<2>([3, 4]);
    let mut r = RAID3::<3, 2>::zero();

    r.write(&[d0, d1]);

    let mut out = [Bits::<2>::zero(); 1];
    assert!(stripe_try_read(&r, &mut out).is_none());
}

#[test]
fn raid3_write_raw_rejects_wrong_len() {
    let mut r = RAID3::<4, 2>::zero();
    let values = [Bits::<2>::zero(); 4];
    assert!(stripe_try_write_raw(&mut r, &values[..3]).is_none());
}

#[test]
fn raid3_read_raw_rejects_wrong_out_len() {
    let values = [
        Bits::<2>([1, 2]),
        Bits::<2>([3, 4]),
        Bits::<2>([5, 6]),
        Bits::<2>([7, 8]),
    ];
    let mut r = RAID3::<4, 2>::zero();
    r.write_raw(&values);

    let mut out = [Bits::<2>::zero(); 3];
    assert!(stripe_try_read_raw(&r, &mut out).is_none());
}

#[test]
fn raid3_as_restore_returns_some() {
    let _r = RAID3::<3, 4>::zero();
    assert!(<RAID3<3, 4> as Stripe<3, 4>>::supports_restore());
}

#[test]
fn raid3_restore_rebuilds_data_and_parity() {
    let d0 = Bits::<4>([1, 2, 3, 4]);
    let d1 = Bits::<4>([5, 6, 7, 8]);
    let mut r = RAID3::<3, 4>::zero();
    r.write(&[d0, d1]);
    let parity = r.0[2];

    r.0[1] = Bits::zero();
    r.restore(1);
    assert_eq!(r.0[1], d1);

    r.0[2] = Bits::zero();
    r.restore(2);
    assert_eq!(r.0[2], parity);
}

#[test]
fn raid3_scrub_recomputes_bad_parity() {
    let d0 = Bits::<4>([1, 2, 3, 4]);
    let d1 = Bits::<4>([5, 6, 7, 8]);
    let mut r = RAID3::<3, 4>::zero();
    r.write(&[d0, d1]);
    let parity = r.0[2];

    assert_eq!(r.scrub(), Vec::<usize>::new());

    r.0[2] = Bits::<4>([0xFF, 0, 0, 0]);
    assert_eq!(r.scrub(), vec![2]);
    assert_eq!(r.0[2], parity);
}
