//! The three-valued constraint oracle.
//!
//! A `Solver` holds one constraint over named real variables. For a box it
//! builds the satisfiability query that asserts the constraint (or its
//! negation) together with the per-variable bounds, in the textual protocol
//! of an external decision procedure. Running that procedure is I/O and is
//! left to the caller: `check_may` and `check_may_not` either decide
//! trivially or hand back the query text to run, `check_answer` turns the
//! procedure's raw output into a verdict or a typed error, and `check_must`
//! composes the two verdicts into the universal judgment.

use vstd::prelude::*;
use vstd::string::StrSliceExecFns;

verus! {

/// What one `may` / `may_not` question needs from the outside: nothing, or
/// one satisfiability query to put to the decision procedure.
pub enum Query {
    /// The answer is already decided, with no delegated query.
    Decided(bool),
    /// The question is whether this query text is satisfiable.
    Sat(String),
}

/// A failure of the external decision procedure on one query.
#[derive(Debug, PartialEq, Eq, Structural)]
pub enum SolverError {
    /// The procedure reported an error.
    BackendError,
    /// The procedure's output held no recognizable answer.
    NoAnswer,
}

/// One variable-declaration line of the query preamble.
pub open spec fn decl_line(n: Seq<char>) -> Seq<char> {
    "(declare-fun "@ + n + " () Real)\n"@
}

/// The first `i` declaration lines, concatenated.
pub open spec fn preamble_upto(names: Seq<Seq<char>>, i: int) -> Seq<char>
    decreases i,
{
    if i <= 0 {
        Seq::empty()
    } else {
        preamble_upto(names, i - 1) + decl_line(names[i - 1])
    }
}

/// One declaration line per variable, in order.
pub open spec fn preamble_spec(names: Seq<Seq<char>>) -> Seq<char> {
    preamble_upto(names, names.len() as int)
}

/// The stored positive constraint: preamble plus the asserted query.
pub open spec fn pos_constraint_spec(names: Seq<Seq<char>>, q: Seq<char>) -> Seq<char> {
    preamble_spec(names) + "(assert "@ + q + ")\n"@
}

/// The stored negative constraint: preamble plus the asserted negation.
pub open spec fn neg_constraint_spec(names: Seq<Seq<char>>, q: Seq<char>) -> Seq<char> {
    preamble_spec(names) + "(assert (not "@ + q + "))\n"@
}

/// The line asserting the lower bound of one variable.
pub open spec fn lo_line(name: Seq<char>, lo: Seq<char>) -> Seq<char> {
    "(assert (<= "@ + lo + " "@ + name + "))\n"@
}

/// The line asserting the upper bound of one variable.
pub open spec fn hi_line(name: Seq<char>, hi: Seq<char>) -> Seq<char> {
    "(assert (<= "@ + name + " "@ + hi + "))\n"@
}

/// The first `i` lower-bound lines, concatenated.
pub open spec fn lo_lines_upto(names: Seq<Seq<char>>, lows: Seq<Seq<char>>, i: int) -> Seq<char>
    decreases i,
{
    if i <= 0 {
        Seq::empty()
    } else {
        lo_lines_upto(names, lows, i - 1) + lo_line(names[i - 1], lows[i - 1])
    }
}

/// The first `i` upper-bound lines, concatenated.
pub open spec fn hi_lines_upto(names: Seq<Seq<char>>, his: Seq<Seq<char>>, i: int) -> Seq<char>
    decreases i,
{
    if i <= 0 {
        Seq::empty()
    } else {
        hi_lines_upto(names, his, i - 1) + hi_line(names[i - 1], his[i - 1])
    }
}

/// The complete query: constraint block, all lower bounds, all upper bounds,
/// then the check and exit commands.
pub open spec fn query_spec(
    constraint: Seq<char>,
    names: Seq<Seq<char>>,
    lows: Seq<Seq<char>>,
    his: Seq<Seq<char>>,
) -> Seq<char> {
    constraint + lo_lines_upto(names, lows, names.len() as int) + hi_lines_upto(
        names,
        his,
        names.len() as int,
    ) + "(check-sat)\n"@ + "(exit)\n"@
}

/// The pattern `p` occurs in `t` starting at position `i`.
pub open spec fn contains_at(t: Seq<char>, p: Seq<char>, i: int) -> bool {
    0 <= i && i + p.len() <= t.len() && t.subrange(i, i + p.len()) == p
}

/// The pattern `p` occurs somewhere in `t`.
pub open spec fn contains_spec(t: Seq<char>, p: Seq<char>) -> bool {
    exists|i: int| contains_at(t, p, i)
}

/// How the raw output of a decision procedure is read. The exact backend
/// answers sat / unsat and may report an error; the numeric backend answers
/// delta-sat / unsat. The more specific marker is always tested first, since
/// "unsat" contains "sat" as a substring.
pub open spec fn answer_spec(use_z3: bool, out: Seq<char>) -> Result<bool, SolverError> {
    if use_z3 {
        if contains_spec(out, "error"@) {
            Err(SolverError::BackendError)
        } else if contains_spec(out, "unsat"@) {
            Ok(false)
        } else if contains_spec(out, "sat"@) {
            Ok(true)
        } else {
            Err(SolverError::NoAnswer)
        }
    } else {
        if contains_spec(out, "unsat"@) {
            Ok(false)
        } else if contains_spec(out, "delta-sat"@) {
            Ok(true)
        } else {
            Err(SolverError::NoAnswer)
        }
    }
}

/// Decimal digits of `n`, most significant first.
pub open spec fn dec_str(n: nat) -> Seq<char>
    decreases n,
{
    if n < 10 {
        seq![digit_char(n)]
    } else {
        dec_str(n / 10) + seq![digit_char(n % 10)]
    }
}

/// The character for one decimal digit.
pub open spec fn digit_char(d: nat) -> char {
    if d == 0 {
        '0'
    } else if d == 1 {
        '1'
    } else if d == 2 {
        '2'
    } else if d == 3 {
        '3'
    } else if d == 4 {
        '4'
    } else if d == 5 {
        '5'
    } else if d == 6 {
        '6'
    } else if d == 7 {
        '7'
    } else if d == 8 {
        '8'
    } else {
        '9'
    }
}

/// Relies on String::push_str: appends the given slice onto the end of the
/// string.
#[verifier::external_body]
fn push_str(s: &mut String, t: &str)
    ensures
        final(s)@ == old(s)@ + t@,
{
    s.push_str(t)
}

/// Relies on String::push: appends the given character onto the end of the
/// string.
#[verifier::external_body]
fn push_char(s: &mut String, c: char)
    ensures
        final(s)@ == old(s)@.push(c),
{
    s.push(c)
}

/// The character for one decimal digit.
fn digit_of(d: u32) -> (c: char)
    requires
        d < 10,
    ensures
        c == digit_char(d as nat),
{
    if d == 0 {
        '0'
    } else if d == 1 {
        '1'
    } else if d == 2 {
        '2'
    } else if d == 3 {
        '3'
    } else if d == 4 {
        '4'
    } else if d == 5 {
        '5'
    } else if d == 6 {
        '6'
    } else if d == 7 {
        '7'
    } else if d == 8 {
        '8'
    } else {
        '9'
    }
}

/// The decimal representation of `n`.
fn u32_to_string(n: u32) -> (s: String)
    ensures
        s@ == dec_str(n as nat),
{
    let mut digits: Vec<char> = Vec::new();
    let mut m: u32 = n;
    while m >= 10
        invariant
            dec_str(n as nat) == dec_str(m as nat) + Seq::new(
                digits@.len(),
                |q: int| digits@[digits@.len() - 1 - q],
            ),
        decreases m,
    {
        let ghost old_digits = digits@;
        digits.push(digit_of(m % 10));
        proof {
            assert(dec_str(m as nat) == dec_str((m as nat) / 10) + seq![digit_char(
                (m as nat) % 10,
            )]);
            assert(Seq::new(digits@.len(), |q: int| digits@[digits@.len() - 1 - q]) =~= seq![
                digit_char((m as nat) % 10),
            ] + Seq::new(old_digits.len(), |q: int| old_digits[old_digits.len() - 1 - q]));
        }
        m = m / 10;
    }
    let mut s = String::new();
    push_char(&mut s, digit_of(m));
    proof {
        assert(s@ =~= seq![digit_char(m as nat)]);
        assert(s@ + Seq::new(digits@.len(), |q: int| digits@[digits@.len() - 1 - q]) =~= dec_str(
            n as nat,
        ));
    }
    let mut i: usize = digits.len();
    while i > 0
        invariant
            i <= digits@.len(),
            s@ =~= dec_str(n as nat).subrange(
                0,
                dec_str(n as nat).len() - i,
            ),
            dec_str(n as nat).len() == 1 + digits@.len(),
            forall|q: int|
                0 <= q < digits@.len() ==> dec_str(n as nat)[1 + q] == #[trigger] digits@[digits@.len()
                    - 1 - q],
        decreases i,
    {
        i = i - 1;
        push_char(&mut s, digits[i]);
        proof {
            let qq = digits@.len() - 1 - i as int;
            assert(dec_str(n as nat)[1 + qq] == digits@[digits@.len() - 1 - qq]);
            assert(s@ =~= dec_str(n as nat).subrange(0, dec_str(n as nat).len() - i));
        }
    }
    proof {
        assert(s@ =~= dec_str(n as nat));
    }
    s
}

/// Whether `p` occurs as a substring of `t`.
fn contains_str(t: &str, p: &str) -> (r: bool)
    ensures
        r == contains_spec(t@, p@),
{
    let tl = t.unicode_len();
    let pl = p.unicode_len();
    if pl > tl {
        return false;
    }
    if pl == 0 {
        proof {
            assert(t@.subrange(0, 0) =~= p@);
            assert(contains_at(t@, p@, 0));
        }
        return true;
    }
    let mut i: usize = 0;
    while i <= tl - pl
        invariant
            1 <= pl <= tl,
            tl == t@.len(),
            pl == p@.len(),
            i <= tl - pl + 1,
            forall|q: int| 0 <= q < i ==> !contains_at(t@, p@, q),
        decreases tl - pl + 1 - i,
    {
        let mut j: usize = 0;
        let mut ok: bool = true;
        while j < pl
            invariant_except_break
                pl <= tl,
                tl == t@.len(),
                pl == p@.len(),
                i <= tl - pl,
                j <= pl,
                ok,
                forall|q: int| 0 <= q < j ==> t@[i + q] == p@[q],
            ensures
                ok ==> forall|q: int| 0 <= q < pl ==> t@[i + q] == p@[q],
                !ok ==> !contains_at(t@, p@, i as int),
            decreases pl - j,
        {
            if t.get_char(i + j) != p.get_char(j) {
                proof {
                    assert(t@.subrange(i as int, i + pl)[j as int] == t@[i + j]);
                }
                ok = false;
                break;
            }
            j = j + 1;
        }
        if ok {
            proof {
                assert(t@.subrange(i as int, i + pl) =~= p@);
                assert(contains_at(t@, p@, i as int));
            }
            return true;
        }
        proof {
            assert(i + 1 <= tl);
        }
        i = i + 1;
    }
    false
}

/// Holds one constraint over named real variables and the configuration of
/// the external decision procedure that judges it.
#[derive(Clone)]
pub struct Solver {
    /// False for the empty constraint, which is trivially true everywhere.
    pub has_constraints: bool,
    /// Time budget handed to the decision procedure, as text.
    pub time_limit: String,
    /// True to address the exact backend, false for the numeric one.
    pub use_z3: bool,
    /// The variables the constraint quantifies over, in order.
    pub variable_names: Vec<String>,
    /// Absolute tolerance of the numeric backend, as text.
    pub ftol_abs: String,
    /// Relative tolerance of the numeric backend, as text.
    pub ftol_rel: String,
    /// Preamble plus the asserted constraint.
    pub positive_constraint: String,
    /// Preamble plus the asserted negation of the constraint.
    pub negative_constraint: String,
}

impl Solver {
    /// Builds the oracle for `query` over `names`. A missing tolerance
    /// falls back to 1.0e-6 and a zero time budget to 6000 time-units, as
    /// the decision procedures expect.
    pub fn new(
        query: &String,
        names: &Vec<String>,
        ftol_abs: Option<String>,
        ftol_rel: Option<String>,
        time_limit: u32,
        use_z3: bool,
    ) -> (r: Solver)
        ensures
            r.has_constraints == (query@.len() > 0),
            r.use_z3 == use_z3,
            r.variable_names@ == names@,
            r.time_limit@ == if time_limit == 0 {
                "6000"@
            } else {
                dec_str(time_limit as nat)
            },
            r.ftol_abs@ == match ftol_abs {
                Option::None => "1.0e-6"@,
                Option::Some(s) => s@,
            },
            r.ftol_rel@ == match ftol_rel {
                Option::None => "1.0e-6"@,
                Option::Some(s) => s@,
            },
            r.positive_constraint@ == pos_constraint_spec(names.deep_view(), query@),
            r.negative_constraint@ == neg_constraint_spec(names.deep_view(), query@),
    {
        let mut preamble = String::new();
        let mut i: usize = 0;
        while i < names.len()
            invariant
                i <= names@.len(),
                preamble@ == preamble_upto(names.deep_view(), i as int),
            decreases names@.len() - i,
        {
            push_str(&mut preamble, "(declare-fun ");
            push_str(&mut preamble, names[i].as_str());
            push_str(&mut preamble, " () Real)\n");
            proof {
                assert(names.deep_view()[i as int] == names@[i as int]@);
            }
            i = i + 1;
        }
        let mut cloned_names: Vec<String> = Vec::new();
        let mut j: usize = 0;
        while j < names.len()
            invariant
                j <= names@.len(),
                cloned_names@ =~= names@.subrange(0, j as int),
            decreases names@.len() - j,
        {
            cloned_names.push(names[j].clone());
            j = j + 1;
        }
        proof {
            assert(cloned_names@ =~= names@);
            assert(cloned_names.deep_view() =~= names.deep_view());
        }
        let ftol_abs_string = match ftol_abs {
            Option::None => "1.0e-6".to_owned(),
            Option::Some(s) => s,
        };
        let ftol_rel_string = match ftol_rel {
            Option::None => "1.0e-6".to_owned(),
            Option::Some(s) => s,
        };
        let time_limit_string = if time_limit == 0 {
            "6000".to_owned()
        } else {
            u32_to_string(time_limit)
        };
        let mut positive = String::new();
        push_str(&mut positive, preamble.as_str());
        push_str(&mut positive, "(assert ");
        push_str(&mut positive, query.as_str());
        push_str(&mut positive, ")\n");
        let mut negative = String::new();
        push_str(&mut negative, preamble.as_str());
        push_str(&mut negative, "(assert (not ");
        push_str(&mut negative, query.as_str());
        push_str(&mut negative, "))\n");
        Solver {
            has_constraints: query.as_str().unicode_len() > 0,
            time_limit: time_limit_string,
            use_z3,
            variable_names: cloned_names,
            ftol_abs: ftol_abs_string,
            ftol_rel: ftol_rel_string,
            positive_constraint: positive,
            negative_constraint: negative,
        }
    }

    /// Builds the full query asserting the stored constraint (or its
    /// negation) together with the given textual bounds, one pair per
    /// variable in order.
    pub fn make_query(&self, is_positive: bool, lowers: &Vec<String>, uppers: &Vec<String>) -> (r:
        String)
        requires
            lowers@.len() == self.variable_names@.len(),
            uppers@.len() == self.variable_names@.len(),
        ensures
            r@ == query_spec(
                if is_positive {
                    self.positive_constraint@
                } else {
                    self.negative_constraint@
                },
                self.variable_names.deep_view(),
                lowers.deep_view(),
                uppers.deep_view(),
            ),
    {
        let mut q = String::new();
        if is_positive {
            push_str(&mut q, self.positive_constraint.as_str());
        } else {
            push_str(&mut q, self.negative_constraint.as_str());
        }
        let ghost constraint = q@;
        let mut i: usize = 0;
        while i < self.variable_names.len()
            invariant
                lowers@.len() == self.variable_names@.len(),
                i <= self.variable_names@.len(),
                q@ == constraint + lo_lines_upto(
                    self.variable_names.deep_view(),
                    lowers.deep_view(),
                    i as int,
                ),
            decreases self.variable_names@.len() - i,
        {
            push_str(&mut q, "(assert (<= ");
            push_str(&mut q, lowers[i].as_str());
            push_str(&mut q, " ");
            push_str(&mut q, self.variable_names[i].as_str());
            push_str(&mut q, "))\n");
            proof {
                assert(self.variable_names.deep_view()[i as int] == self.variable_names@[i as int]@);
                assert(lowers.deep_view()[i as int] == lowers@[i as int]@);
            }
            i = i + 1;
        }
        let ghost with_lo = q@;
        let mut j: usize = 0;
        while j < self.variable_names.len()
            invariant
                uppers@.len() == self.variable_names@.len(),
                j <= self.variable_names@.len(),
                q@ == with_lo + hi_lines_upto(
                    self.variable_names.deep_view(),
                    uppers.deep_view(),
                    j as int,
                ),
            decreases self.variable_names@.len() - j,
        {
            push_str(&mut q, "(assert (<= ");
            push_str(&mut q, self.variable_names[j].as_str());
            push_str(&mut q, " ");
            push_str(&mut q, uppers[j].as_str());
            push_str(&mut q, "))\n");
            proof {
                assert(self.variable_names.deep_view()[j as int] == self.variable_names@[j as int]@);
                assert(uppers.deep_view()[j as int] == uppers@[j as int]@);
            }
            j = j + 1;
        }
        push_str(&mut q, "(check-sat)\n");
        push_str(&mut q, "(exit)\n");
        q
    }

    /// The `may` question for a box given by textual bounds: trivially true
    /// without the constraint, otherwise the positive satisfiability query.
    pub fn check_may(&self, lowers: &Vec<String>, uppers: &Vec<String>) -> (q: Query)
        requires
            lowers@.len() == self.variable_names@.len(),
            uppers@.len() == self.variable_names@.len(),
        ensures
            !self.has_constraints ==> q == Query::Decided(true),
            self.has_constraints ==> (q matches Query::Sat(s) && s@ == query_spec(
                self.positive_constraint@,
                self.variable_names.deep_view(),
                lowers.deep_view(),
                uppers.deep_view(),
            )),
    {
        if self.has_constraints {
            Query::Sat(self.make_query(true, lowers, uppers))
        } else {
            Query::Decided(true)
        }
    }

    /// The `may_not` question: trivially false without the constraint,
    /// otherwise the negative satisfiability query.
    pub fn check_may_not(&self, lowers: &Vec<String>, uppers: &Vec<String>) -> (q: Query)
        requires
            lowers@.len() == self.variable_names@.len(),
            uppers@.len() == self.variable_names@.len(),
        ensures
            !self.has_constraints ==> q == Query::Decided(false),
            self.has_constraints ==> (q matches Query::Sat(s) && s@ == query_spec(
                self.negative_constraint@,
                self.variable_names.deep_view(),
                lowers.deep_view(),
                uppers.deep_view(),
            )),
    {
        if self.has_constraints {
            Query::Sat(self.make_query(false, lowers, uppers))
        } else {
            Query::Decided(false)
        }
    }

    /// Reads the raw output of the decision procedure for one query. An
    /// explicit error marker of the exact backend and an output with no
    /// recognized answer are typed errors, never silently treated as an
    /// answer.
    pub fn check_answer(&self, output: &str) -> (r: Result<bool, SolverError>)
        ensures
            r == answer_spec(self.use_z3, output@),
    {
        if self.use_z3 {
            if contains_str(output, "error") {
                Err(SolverError::BackendError)
            } else if contains_str(output, "unsat") {
                Ok(false)
            } else if contains_str(output, "sat") {
                Ok(true)
            } else {
                Err(SolverError::NoAnswer)
            }
        } else {
            if contains_str(output, "unsat") {
                Ok(false)
            } else if contains_str(output, "delta-sat") {
                Ok(true)
            } else {
                Err(SolverError::NoAnswer)
            }
        }
    }

    /// Composes the two satisfiability verdicts into the universal
    /// judgment: the constraint must hold everywhere in the box iff it may
    /// hold and its negation may not. Without a constraint the judgment is
    /// trivially true.
    pub fn check_must(&self, may_holds: bool, may_not_holds: bool) -> (r: bool)
        ensures
            r == if self.has_constraints {
                may_holds && !may_not_holds
            } else {
                true
            },
    {
        if self.has_constraints {
            may_holds && !may_not_holds
        } else {
            true
        }
    }
}

} // verus!
