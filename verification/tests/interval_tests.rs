use realbox::bits::next_binade;
use realbox::interval::dbl_cmp;
use realbox::GI;

#[test]
fn round_trip_bounds() {
    let a = 1.5f64.to_bits();
    let b = 2.75f64.to_bits();
    let iv = GI::new_d(a, b);
    assert!(!iv.is_empty());
    assert_eq!(iv.lower(), a);
    assert_eq!(iv.upper(), b);
}

#[test]
fn reversed_bounds_give_empty() {
    let iv = GI::new_d(3.0f64.to_bits(), 1.0f64.to_bits());
    assert!(iv.is_empty());
    let nan = GI::new_d(f64::NAN.to_bits(), 1.0f64.to_bits());
    assert!(nan.is_empty());
    let inf = GI::new_d(0.0f64.to_bits(), f64::INFINITY.to_bits());
    assert!(inf.is_empty());
}

#[test]
fn point_interval() {
    let iv = GI::new_p(4.25f64.to_bits());
    assert!(!iv.is_empty());
    assert_eq!(iv.lower(), iv.upper());
    let e = GI::new_e();
    assert!(e.is_empty());
}

#[test]
fn ordering_of_doubles() {
    let cases = [
        (1.0f64, 2.0f64, -1),
        (2.0, 1.0, 1),
        (1.0, 1.0, 0),
        (-1.0, 1.0, -1),
        (-2.0, -3.0, 1),
        (-0.0, 0.0, 0),
        (f64::MIN_POSITIVE, 1e-300, -1),
        (1e300, 1e299, 1),
        (5e-324, 0.0, 1),
        (-5e-324, 0.0, -1),
    ];
    for (x, y, expect) in cases {
        assert_eq!(dbl_cmp(x.to_bits(), y.to_bits()), expect);
    }
}

#[test]
fn straddles_zero_cases() {
    assert!(GI::new_d((-1.0f64).to_bits(), 1.0f64.to_bits()).straddles_zero());
    assert!(!GI::new_d(1.0f64.to_bits(), 2.0f64.to_bits()).straddles_zero());
    assert!(!GI::new_d((-2.0f64).to_bits(), (-1.0f64).to_bits()).straddles_zero());
    assert!(GI::new_d((-0.0f64).to_bits(), 0.0f64.to_bits()).straddles_zero());
    assert!(!GI::new_e().straddles_zero());
}

#[test]
fn canonical_cases() {
    let one = 1.0f64;
    let next = f64::from_bits(one.to_bits() + 1);
    assert!(GI::new_p(one.to_bits()).is_canonical());
    assert!(GI::new_d(one.to_bits(), next.to_bits()).is_canonical());
    assert!(!GI::new_d(one.to_bits(), 2.0f64.to_bits()).is_canonical());
    // the two zero patterns denote one value
    assert!(GI::new_d((-0.0f64).to_bits(), 0.0f64.to_bits()).is_canonical());
    assert!(!GI::new_e().is_canonical());
}

#[test]
fn midpoint_exact_when_representable() {
    let iv = GI::new_d(1.0f64.to_bits(), 3.0f64.to_bits());
    let m = iv.midpoint();
    assert_eq!(m.lower(), 2.0f64.to_bits());
    assert_eq!(m.upper(), 2.0f64.to_bits());
    let iv2 = GI::new_d(1.0f64.to_bits(), 2.0f64.to_bits());
    let m2 = iv2.midpoint();
    assert_eq!(m2.lower(), 1.5f64.to_bits());
    assert_eq!(m2.upper(), 1.5f64.to_bits());
}

#[test]
fn midpoint_encloses_when_not_representable() {
    // midpoint of [1, 1+ulp] lies between two adjacent doubles
    let a = 1.0f64.to_bits();
    let b = a + 1;
    let m = GI::new_d(a, b).midpoint();
    assert_eq!(m.lower(), a);
    assert_eq!(m.upper(), b);
    // a degenerate interval is its own midpoint
    let p = GI::new_p(7.0f64.to_bits());
    let mp = p.midpoint();
    assert_eq!(mp.lower(), 7.0f64.to_bits());
    assert_eq!(mp.upper(), 7.0f64.to_bits());
}

#[test]
fn binade_stepping() {
    assert_eq!(next_binade(5.0f64.to_bits()), 8.0f64.to_bits());
    assert_eq!(next_binade(1.0f64.to_bits()), 2.0f64.to_bits());
    assert_eq!(next_binade(1.5f64.to_bits()), 2.0f64.to_bits());
    assert_eq!(next_binade((-5.0f64).to_bits()), (-2.0f64).to_bits());
    assert_eq!(next_binade((-1.0f64).to_bits()), (-0.5f64).to_bits());
    // zeros and negative subnormals saturate to the smallest normal binade
    assert_eq!(next_binade(0.0f64.to_bits()), f64::MIN_POSITIVE.to_bits());
    assert_eq!(next_binade((-0.0f64).to_bits()), f64::MIN_POSITIVE.to_bits());
    assert_eq!(next_binade((-5e-324f64).to_bits()), f64::MIN_POSITIVE.to_bits());
    // the smallest negative normal steps to the negative zero pattern
    assert_eq!(next_binade((-f64::MIN_POSITIVE).to_bits()), (-0.0f64).to_bits());
}

#[test]
fn midpoint_rounds_to_adjacent_doubles() {
    // the midpoint of [1, 1+3ulp] falls between the doubles one and two
    // ulps up, and the enclosure is exactly that pair
    let a = 1.0f64.to_bits();
    let m = GI::new_d(a, a + 3).midpoint();
    assert_eq!(m.lower(), a + 1);
    assert_eq!(m.upper(), a + 2);
}

#[test]
fn assign_replaces_bounds() {
    let mut iv = GI::new_p(1.0f64.to_bits());
    iv.assign(2.0f64.to_bits(), 3.0f64.to_bits());
    assert_eq!(iv.lower(), 2.0f64.to_bits());
    assert_eq!(iv.upper(), 3.0f64.to_bits());
    iv.assign(3.0f64.to_bits(), 2.0f64.to_bits());
    assert!(iv.is_empty());
}
