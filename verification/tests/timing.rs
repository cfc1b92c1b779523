use ncp::inner::{update_rtt, NcpStreamInner};
use ncp::timing::{i32diff, i32diff_fits, instant_of, millis_u32, now_millis, sample_fits};

#[test]
fn i32diff_counts_in_twos_complement() {
    assert_eq!(i32diff(10, 3), 7);
    assert_eq!(i32diff(3, 10), -7);
    assert_eq!(i32diff(5, u32::MAX), 6);
    assert_eq!(i32diff(0x8000_0000, 0), i32::MIN);
    assert_eq!(i32diff(0xffff_fff0, 0xffff_ffe0), 16);
}

#[test]
fn i32diff_out_of_range_is_told() {
    assert!(i32diff_fits(0, 0x8000_0001));
    assert!(!i32diff_fits(0, 0x8000_0000));
    assert!(!i32diff_fits(0x7fff_ffff, 0x8000_0000));
    assert!(!i32diff_fits(0x8000_0000, 1));
    assert!(i32diff_fits(0x8000_0000, 0));
}

#[test]
fn millis_keep_the_low_bits() {
    assert_eq!(millis_u32(5), 5);
    assert_eq!(millis_u32(0x1_0000_0007), 7);
    assert_eq!(millis_u32(1_600_000_000_000), 2_272_165_888);
}

#[test]
fn reading_of_the_clock_becomes_an_instant() {
    assert_eq!(instant_of(Some(0x2_0000_0009)), Some(9));
    assert_eq!(instant_of(Some(41)), Some(41));
    assert_eq!(instant_of(None), None);
}

#[test]
fn clock_moves_forward() {
    let a = now_millis().unwrap();
    let b = now_millis().unwrap();
    assert!(b.wrapping_sub(a) < 20_000);
    assert_ne!(a, 0);
}

#[test]
fn first_sample_sets_the_estimate() {
    let mut inner = NcpStreamInner::new();
    update_rtt(&mut inner, 120);
    assert_eq!((inner.srtt, inner.rttval, inner.rto), (120, 60, 360));
}

#[test]
fn later_samples_are_weighed() {
    let mut inner = NcpStreamInner::new();
    update_rtt(&mut inner, 100);
    assert_eq!((inner.srtt, inner.rttval, inner.rto), (100, 50, 300));
    update_rtt(&mut inner, 200);
    // (7 * 100 + 200) / 8, (3 * 50 + 100) / 4
    assert_eq!((inner.srtt, inner.rttval, inner.rto), (112, 62, 360));
    update_rtt(&mut inner, 12);
    // (7 * 112 + 12) / 8, (3 * 62 + 100) / 4
    assert_eq!((inner.srtt, inner.rttval, inner.rto), (99, 71, 383));
}

#[test]
fn smoothed_round_trip_never_reaches_zero() {
    let mut inner = NcpStreamInner::new();
    inner.srtt = 1;
    update_rtt(&mut inner, 0);
    assert_eq!((inner.srtt, inner.rttval, inner.rto), (1, 0, 201));
}

#[test]
fn timeout_is_capped() {
    let mut inner = NcpStreamInner::new();
    update_rtt(&mut inner, 100_000);
    assert_eq!((inner.srtt, inner.rttval, inner.rto), (100_000, 50_000, 30_000));
}

#[test]
fn samples_out_of_range_are_told() {
    assert!(sample_fits(0, 0, 1_000_000_000));
    assert!(!sample_fits(0, 0, u32::MAX));
    assert!(!sample_fits(700_000_000, 0, 1));
    assert!(!sample_fits(1, 1_500_000_000, 1));
    assert!(sample_fits(500_000_000, 500_000_000, 500_000_000));
}

#[test]
fn estimate_stays_within_its_samples() {
    let mut inner = NcpStreamInner::new();
    let bound = 0x1fff_ffff;
    for rtt in [bound, 1, bound, bound, 7, bound, 2, 2, bound] {
        assert!(sample_fits(inner.srtt, inner.rttval, rtt));
        update_rtt(&mut inner, rtt);
        assert!(inner.srtt <= bound && inner.rttval <= bound);
        assert!(inner.rto > 200 && inner.rto <= 30_000);
    }
}

#[test]
fn sample_pulls_the_estimate_toward_itself() {
    let mut inner = NcpStreamInner::new();
    inner.srtt = 80;
    update_rtt(&mut inner, 88);
    assert_eq!(inner.srtt, 81);
    update_rtt(&mut inner, 1);
    assert_eq!(inner.srtt, 71);
    update_rtt(&mut inner, 71);
    assert_eq!(inner.srtt, 71);
}
