use realbox::{Query, Solver, SolverError};

fn dreal_solver(constraint: &str, names: &[&str]) -> Solver {
    let names: Vec<String> = names.iter().map(|n| n.to_string()).collect();
    Solver::new(
        &constraint.to_string(),
        &names,
        Some("1.0e-6".to_string()),
        Some("1.0e-6".to_string()),
        0,
        false,
    )
}

/// Plays the decision procedure for one query: the test fixes the answer
/// text the procedure would print, and the solver interprets it.
fn resolve(s: &Solver, q: Query, answer: &str) -> bool {
    match q {
        Query::Decided(b) => b,
        Query::Sat(_) => s.check_answer(answer).unwrap(),
    }
}

#[test]
fn construction_defaults() {
    let s = Solver::new(
        &"(> x 1)".to_string(),
        &vec!["x".to_string()],
        None,
        None,
        0,
        false,
    );
    assert!(s.has_constraints);
    assert_eq!(s.ftol_abs, "1.0e-6");
    assert_eq!(s.ftol_rel, "1.0e-6");
    assert_eq!(s.time_limit, "6000");
    assert!(!s.use_z3);
    let t = Solver::new(
        &"".to_string(),
        &vec![],
        Some("0.5".to_string()),
        Some("0.25".to_string()),
        1234,
        true,
    );
    assert!(!t.has_constraints);
    assert_eq!(t.ftol_abs, "0.5");
    assert_eq!(t.ftol_rel, "0.25");
    assert_eq!(t.time_limit, "1234");
    assert!(t.use_z3);
}

#[test]
fn query_text_layout() {
    let s = dreal_solver("(> x 1)", &["x"]);
    let q = s.make_query(true, &vec!["0".to_string()], &vec!["10".to_string()]);
    assert_eq!(
        q,
        "(declare-fun x () Real)\n(assert (> x 1))\n(assert (<= 0 x))\n(assert (<= x 10))\n(check-sat)\n(exit)\n"
    );
    let n = s.make_query(false, &vec!["0".to_string()], &vec!["10".to_string()]);
    assert_eq!(
        n,
        "(declare-fun x () Real)\n(assert (not (> x 1)))\n(assert (<= 0 x))\n(assert (<= x 10))\n(check-sat)\n(exit)\n"
    );
}

#[test]
fn answer_reading_numeric_backend() {
    let s = dreal_solver("(> x 1)", &["x"]);
    assert_eq!(s.check_answer("delta-sat with delta = 0.001"), Ok(true));
    assert_eq!(s.check_answer("unsat"), Ok(false));
    assert_eq!(s.check_answer("mumble"), Err(SolverError::NoAnswer));
}

#[test]
fn answer_reading_exact_backend() {
    let names = vec!["x".to_string()];
    let s = Solver::new(&"(> x 1)".to_string(), &names, None, None, 0, true);
    assert_eq!(s.check_answer("sat\n"), Ok(true));
    // "unsat" contains "sat": the more specific marker must win
    assert_eq!(s.check_answer("unsat\n"), Ok(false));
    assert_eq!(
        s.check_answer("(error \"line 1\")"),
        Err(SolverError::BackendError)
    );
    assert_eq!(s.check_answer(""), Err(SolverError::NoAnswer));
}

#[test]
fn trivial_constraint_decides_without_queries() {
    let s = dreal_solver("", &["x"]);
    let lows = vec!["0".to_string()];
    let highs = vec!["10".to_string()];
    match s.check_may(&lows, &highs) {
        Query::Decided(b) => assert!(b),
        Query::Sat(_) => panic!("trivial constraint delegated a may query"),
    }
    match s.check_may_not(&lows, &highs) {
        Query::Decided(b) => assert!(!b),
        Query::Sat(_) => panic!("trivial constraint delegated a may-not query"),
    }
    assert!(s.check_must(true, true));
    assert!(s.check_must(false, false));
}

#[test]
fn three_valued_verdicts_over_boxes() {
    // constraint x > 1 with a stub procedure answering by the truth of the
    // asserted bounds: over [0, 10] both questions are satisfiable, over
    // [2, 10] the negation is not
    let s = dreal_solver("(> x 1)", &["x"]);
    let lows = vec!["0".to_string()];
    let highs = vec!["10".to_string()];
    let may = resolve(&s, s.check_may(&lows, &highs), "delta-sat");
    let may_not = resolve(&s, s.check_may_not(&lows, &highs), "delta-sat");
    assert!(may);
    assert!(may_not);
    assert!(!s.check_must(may, may_not));

    let lows2 = vec!["2".to_string()];
    let may2 = resolve(&s, s.check_may(&lows2, &highs), "delta-sat");
    let may_not2 = resolve(&s, s.check_may_not(&lows2, &highs), "unsat");
    assert!(may2);
    assert!(!may_not2);
    assert!(s.check_must(may2, may_not2));
}

#[test]
fn true_constraint() {
    let names = vec!["x".to_string()];
    let lows = vec!["0".to_string()];
    let highs = vec!["10".to_string()];
    let constr = dreal_solver("(> 2 1)", &["x"]);
    assert_eq!(names.len(), lows.len());
    // 2 > 1 always holds, its negation never does
    let may = resolve(&constr, constr.check_may(&lows, &highs), "delta-sat");
    let may_not = resolve(&constr, constr.check_may_not(&lows, &highs), "unsat");
    assert_eq!(true, may);
    assert_eq!(false, may_not);
    assert_eq!(true, constr.check_must(may, may_not));
}

#[test]
fn false_constraint() {
    let lows = vec!["0".to_string()];
    let highs = vec!["10".to_string()];
    let constr = dreal_solver("(> 1 2)", &["x"]);
    // 1 > 2 never holds, its negation always does
    let may = resolve(&constr, constr.check_may(&lows, &highs), "unsat");
    let may_not = resolve(&constr, constr.check_may_not(&lows, &highs), "delta-sat");
    assert_eq!(false, may);
    assert_eq!(true, may_not);
    assert_eq!(false, constr.check_must(may, may_not));
}

#[test]
fn mixed_constraint() {
    let lows = vec!["0".to_string(), "0".to_string()];
    let highs = vec!["10".to_string(), "10".to_string()];
    let constr = dreal_solver("(> (* (^ x 2) y) 99)", &["x", "y"]);
    // over [0,10]^2 the constraint holds at some points and fails at others
    let may = resolve(&constr, constr.check_may(&lows, &highs), "delta-sat");
    let may_not = resolve(&constr, constr.check_may_not(&lows, &highs), "delta-sat");
    assert_eq!(true, may);
    assert_eq!(true, may_not);
    assert_eq!(false, constr.check_must(may, may_not));
}
