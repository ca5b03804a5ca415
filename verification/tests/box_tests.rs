use realbox::{
    eps_tol, func, is_canonical, is_empty, midpoint_box, split_box, straddles_zero, width_box,
    widest_index, GI,
};

fn iv(a: f64, b: f64) -> GI {
    GI::new_d(a.to_bits(), b.to_bits())
}

#[test]
fn widest_dimension_selection() {
    let bx = vec![iv(0.0, 1.0), iv(0.0, 3.0), iv(0.0, 2.0)];
    assert_eq!(widest_index(&bx), 1);
    // ties go to the first index
    let tie = vec![iv(0.0, 2.0), iv(5.0, 7.0)];
    assert_eq!(widest_index(&tie), 0);
    let empty: Vec<GI> = vec![];
    assert_eq!(widest_index(&empty), 0);
}

#[test]
fn convergence_far_from_zero() {
    // width 1 at magnitude 1e10: wider than both the tolerance and the
    // binary scale of the bounds
    let wide = iv(1e10, 1e10 + 1.0);
    assert!(!eps_tol(wide, 1e-6f64.to_bits()));
    assert!(!width_box(&vec![wide], 1e-6f64.to_bits()));
}

#[test]
fn convergence_near_zero() {
    // width 1e-7 is below the absolute tolerance 1e-6
    let narrow = iv(0.0, 1e-7);
    assert!(eps_tol(narrow, 1e-6f64.to_bits()));
    assert!(width_box(&vec![narrow], 1e-6f64.to_bits()));
}

#[test]
fn convergence_at_resolution_floor() {
    // width of one ulp at magnitude 1: at the representable floor, so tight
    // even under a zero tolerance
    let one = 1.0f64;
    let floor = GI::new_d(one.to_bits(), one.to_bits() + 1);
    assert!(eps_tol(floor, 0.0f64.to_bits()));
}

#[test]
fn split_covers_parent_dimension() {
    let bx = vec![iv(0.0, 10.0), iv(0.0, 1.0)];
    let (children, progressed) = split_box(&bx);
    assert!(progressed);
    assert_eq!(children.len(), 2);
    let a = &children[0];
    let b = &children[1];
    // the split dimension is covered exactly, meeting at one point
    assert_eq!(a[0].lower(), 0.0f64.to_bits());
    assert_eq!(a[0].upper(), b[0].lower());
    assert_eq!(b[0].upper(), 10.0f64.to_bits());
    // the other dimension is bit-identical in both children
    assert_eq!(a[1].lower(), 0.0f64.to_bits());
    assert_eq!(a[1].upper(), 1.0f64.to_bits());
    assert_eq!(b[1].lower(), 0.0f64.to_bits());
    assert_eq!(b[1].upper(), 1.0f64.to_bits());
}

#[test]
fn split_prefers_binade_boundary() {
    // midpoint of [0, 10] is 5, whose binade tops out at 8: the split lands
    // there rather than at the geometric midpoint
    let bx = vec![iv(0.0, 10.0)];
    let (children, progressed) = split_box(&bx);
    assert!(progressed);
    assert_eq!(children[0][0].upper(), 8.0f64.to_bits());
    assert_eq!(children[1][0].lower(), 8.0f64.to_bits());
}

#[test]
fn split_of_degenerate_box_stalls() {
    let bx = vec![iv(1.0, 1.0)];
    let (children, progressed) = split_box(&bx);
    assert!(!progressed);
    assert_eq!(children.len(), 1);
    assert_eq!(children[0][0].lower(), 1.0f64.to_bits());
    assert_eq!(children[0][0].upper(), 1.0f64.to_bits());
}

#[test]
fn split_of_canonical_box_stalls() {
    let one = 1.0f64.to_bits();
    let bx = vec![GI::new_d(one, one + 1)];
    let (children, progressed) = split_box(&bx);
    assert!(!progressed);
    assert_eq!(children.len(), 1);
    assert_eq!(children[0][0].lower(), one);
    assert_eq!(children[0][0].upper(), one + 1);
}

#[test]
fn repeated_splitting_terminates() {
    // always descending into the first child, refinement reaches the
    // representable floor in a bounded number of steps
    let mut bx = vec![iv(1.0, 2.0)];
    let mut steps = 0u32;
    loop {
        let (children, progressed) = split_box(&bx);
        if !progressed {
            break;
        }
        bx = children[0].clone();
        steps += 1;
        assert!(steps < 10_000, "splitting did not reach the floor");
    }
    assert!(is_canonical(&bx[0]));
}

#[test]
fn midpoints_per_dimension() {
    let bx = vec![iv(1.0, 3.0), iv(0.0, 1.0)];
    let mids = midpoint_box(&bx);
    assert_eq!(mids.len(), 2);
    assert_eq!(mids[0].lower(), 2.0f64.to_bits());
    assert_eq!(mids[0].upper(), 2.0f64.to_bits());
    assert_eq!(mids[1].lower(), 0.5f64.to_bits());
    assert_eq!(mids[1].upper(), 0.5f64.to_bits());
}

#[test]
fn predicates_and_objective() {
    assert!(is_empty(&GI::new_e()));
    assert!(!is_empty(&iv(0.0, 1.0)));
    assert!(straddles_zero(&iv(-1.0, 1.0)));
    assert!(!is_canonical(&iv(0.0, 1.0)));
    let z = func(&vec![iv(0.0, 1.0)]);
    assert_eq!(z.lower(), 0.0f64.to_bits());
    assert_eq!(z.upper(), 0.0f64.to_bits());
}

#[test]
fn split_at_the_top_of_the_range() {
    // near the largest finite double the binade step overflows to the
    // infinity pattern and the halving fallback takes over
    let bx = vec![iv(1e308, f64::MAX)];
    let (children, progressed) = split_box(&bx);
    assert!(progressed);
    assert_eq!(children.len(), 2);
    let m = children[0][0].upper();
    assert_eq!(children[1][0].lower(), m);
    let mv = f64::from_bits(m);
    assert!(1e308 < mv && mv < f64::MAX);
}

#[test]
fn split_of_negative_dimension() {
    // midpoint of [-10, -1] is -5.5; stepping its binade toward zero lands
    // on -2, which lies strictly inside
    let bx = vec![iv(-10.0, -1.0)];
    let (children, progressed) = split_box(&bx);
    assert!(progressed);
    assert_eq!(children[0][0].upper(), (-2.0f64).to_bits());
    assert_eq!(children[1][0].lower(), (-2.0f64).to_bits());
}

#[test]
fn convergence_in_the_subnormal_range() {
    // below the normal range the scale construction wraps to a huge
    // threshold, so such intervals always count as tight
    let sub = iv(1e-310, 2e-310);
    assert!(eps_tol(sub, 0.0f64.to_bits()));
}
