//! Integrity validation: structural checks on sparse vectors, algebraic
//! law checks on the engine's operations, and the report that collects them.

use crate::engine::{bind_of, bundle_of, engine_bind, engine_bundle};
use crate::sparse::{disjoint, strictly_increasing, SparseVec};
use crate::text::{decimal, push_decimal};
use std::collections::HashSet;
use vstd::prelude::*;
use vstd::string::StringExecFns;

verus! {

broadcast use vstd::std_specs::hash::group_hash_axioms;

/// Outcome of one validation session: check counts, counters for three
/// kinds of damage, and the failure messages in the order they arose.
#[derive(Clone, Debug)]
pub struct IntegrityReport {
    /// Total checks performed.
    pub checks_total: u64,
    /// Checks that passed.
    pub checks_passed: u64,
    /// Detected single-bit errors.
    pub bitflips_detected: u64,
    /// Detected multi-bit corruption events.
    pub corruption_events: u64,
    /// Violations of algebraic laws.
    pub invariant_violations: u64,
    /// Failure messages, oldest first.
    pub failures: Vec<String>,
}

/// A report with these counters and failure messages.
pub open spec fn report_is(
    r: IntegrityReport,
    total: nat,
    passed: nat,
    bitflips: nat,
    corruption: nat,
    violations: nat,
    messages: Seq<Seq<char>>,
) -> bool {
    &&& r.checks_total == total
    &&& r.checks_passed == passed
    &&& r.bitflips_detected == bitflips
    &&& r.corruption_events == corruption
    &&& r.invariant_violations == violations
    &&& r.messages() == messages
}

/// The pass rate in tenths of a percent, rounded half up; an empty session
/// counts as fully passed.
pub open spec fn pass_rate_tenths(passed: nat, total: nat) -> nat {
    if total == 0 {
        1000
    } else {
        (passed * 2000 + total) / (2 * total)
    }
}

/// The text of a report's summary.
pub open spec fn summary_text(total: nat, passed: nat, bitflips: nat, corruption: nat, violations: nat) -> Seq<
    char,
> {
    let rate = pass_rate_tenths(passed, total);
    "Integrity Report:\n- Total checks: "@ + decimal(total) + "\n- Passed: "@ + decimal(passed)
        + "\n- Failed: "@ + decimal((total - passed) as nat) + "\n- Pass rate: "@ + decimal(rate / 10)
        + "."@ + decimal(rate % 10) + "%\n- Bitflips: "@ + decimal(bitflips)
        + "\n- Corruption events: "@ + decimal(corruption) + "\n- Invariant violations: "@
        + decimal(violations)
}

impl IntegrityReport {
    /// The failure messages as character sequences.
    pub open spec fn messages(&self) -> Seq<Seq<char>> {
        self.failures@.map_values(|s: String| s@)
    }

    /// No more checks passed than were made.
    pub open spec fn wf(&self) -> bool {
        self.checks_passed <= self.checks_total
    }

    /// An empty report.
    pub fn new() -> (r: IntegrityReport)
        ensures
            report_is(r, 0, 0, 0, 0, 0, Seq::empty()),
            r.wf(),
    {
        let r = IntegrityReport {
            checks_total: 0,
            checks_passed: 0,
            bitflips_detected: 0,
            corruption_events: 0,
            invariant_violations: 0,
            failures: Vec::new(),
        };
        proof {
            assert(r.messages() =~= Seq::<Seq<char>>::empty());
        }
        r
    }

    /// Every check passed and no failure was recorded.
    pub fn is_ok(&self) -> (r: bool)
        ensures
            r == (self.checks_passed == self.checks_total && self.failures@.len() == 0),
    {
        self.checks_passed == self.checks_total && self.failures.len() == 0
    }

    /// The pass rate in tenths of a percent (1000 for a report with no
    /// checks), rounded half up.
    pub fn pass_rate_tenths(&self) -> (r: u64)
        requires
            self.wf(),
        ensures
            r == pass_rate_tenths(self.checks_passed as nat, self.checks_total as nat),
            r <= 1000,
    {
        if self.checks_total == 0 {
            1000
        } else {
            let p = self.checks_passed as u128;
            let t = self.checks_total as u128;
            proof {
                assert(p * 2000 + t <= t * 2000 + t) by (nonlinear_arith)
                    requires p <= t;
                assert((p * 2000 + t) / (2 * t) <= 1000) by (nonlinear_arith)
                    requires p <= t, t > 0;
            }
            ((p * 2000 + t) / (2 * t)) as u64
        }
    }

    /// Records a passed check.
    pub fn pass(&mut self)
        requires
            old(self).checks_total < u64::MAX,
            old(self).checks_passed < u64::MAX,
        ensures
            final(self).checks_total == old(self).checks_total + 1,
            final(self).checks_passed == old(self).checks_passed + 1,
            final(self).bitflips_detected == old(self).bitflips_detected,
            final(self).corruption_events == old(self).corruption_events,
            final(self).invariant_violations == old(self).invariant_violations,
            final(self).messages() == old(self).messages(),
            old(self).wf() ==> final(self).wf(),
    {
        self.checks_total = self.checks_total + 1;
        self.checks_passed = self.checks_passed + 1;
    }

    /// Records a failed check with its message.
    pub fn fail(&mut self, msg: &str)
        requires
            old(self).checks_total < u64::MAX,
        ensures
            final(self).checks_total == old(self).checks_total + 1,
            final(self).checks_passed == old(self).checks_passed,
            final(self).bitflips_detected == old(self).bitflips_detected,
            final(self).corruption_events == old(self).corruption_events,
            final(self).invariant_violations == old(self).invariant_violations,
            final(self).messages() == old(self).messages().push(msg@),
            old(self).wf() ==> final(self).wf(),
    {
        self.checks_total = self.checks_total + 1;
        self.failures.push(String::from_str(msg));
        proof {
            assert(self.messages() =~= old(self).messages().push(msg@));
        }
    }

    /// Records a detected single-bit error.
    pub fn record_bitflip(&mut self)
        requires
            old(self).bitflips_detected < u64::MAX,
        ensures
            *final(self) == (IntegrityReport {
                bitflips_detected: (old(self).bitflips_detected + 1) as u64,
                ..*old(self)
            }),
    {
        self.bitflips_detected = self.bitflips_detected + 1;
    }

    /// Records a detected corruption event.
    pub fn record_corruption(&mut self)
        requires
            old(self).corruption_events < u64::MAX,
        ensures
            *final(self) == (IntegrityReport {
                corruption_events: (old(self).corruption_events + 1) as u64,
                ..*old(self)
            }),
    {
        self.corruption_events = self.corruption_events + 1;
    }

    /// Records a violated algebraic law, with its message prefixed by
    /// `INVARIANT: `.
    pub fn record_invariant_violation(&mut self, msg: &str)
        requires
            old(self).invariant_violations < u64::MAX,
        ensures
            final(self).checks_total == old(self).checks_total,
            final(self).checks_passed == old(self).checks_passed,
            final(self).bitflips_detected == old(self).bitflips_detected,
            final(self).corruption_events == old(self).corruption_events,
            final(self).invariant_violations == old(self).invariant_violations + 1,
            final(self).messages() == old(self).messages().push("INVARIANT: "@ + msg@),
            old(self).wf() ==> final(self).wf(),
    {
        self.invariant_violations = self.invariant_violations + 1;
        let line = String::from_str("INVARIANT: ").concat(msg);
        self.failures.push(line);
        proof {
            assert(self.messages() =~= old(self).messages().push("INVARIANT: "@ + msg@));
        }
    }

    /// A multi-line, human-readable summary of the counters and pass rate.
    pub fn summary(&self) -> (r: String)
        requires
            self.wf(),
        ensures
            r@ == summary_text(
                self.checks_total as nat,
                self.checks_passed as nat,
                self.bitflips_detected as nat,
                self.corruption_events as nat,
                self.invariant_violations as nat,
            ),
    {
        let rate = self.pass_rate_tenths();
        let mut s = String::from_str("Integrity Report:\n- Total checks: ");
        push_decimal(&mut s, self.checks_total);
        s.append("\n- Passed: ");
        push_decimal(&mut s, self.checks_passed);
        s.append("\n- Failed: ");
        push_decimal(&mut s, self.checks_total - self.checks_passed);
        s.append("\n- Pass rate: ");
        push_decimal(&mut s, rate / 10);
        s.append(".");
        push_decimal(&mut s, rate % 10);
        s.append("%\n- Bitflips: ");
        push_decimal(&mut s, self.bitflips_detected);
        s.append("\n- Corruption events: ");
        push_decimal(&mut s, self.corruption_events);
        s.append("\n- Invariant violations: ");
        push_decimal(&mut s, self.invariant_violations);
        s
    }
}

impl Default for IntegrityReport {
    fn default() -> (r: IntegrityReport)
        ensures
            report_is(r, 0, 0, 0, 0, 0, Seq::empty()),
    {
        IntegrityReport::new()
    }
}

/// Message of a bind that does not commute.
pub const BIND_VIOLATION: &'static str = "Commutativity violation: A\u{2299}B \u{2260} B\u{2299}A";

/// Message of a bundle that does not commute.
pub const BUNDLE_VIOLATION: &'static str = "Bundle commutativity violation: A\u{2295}B \u{2260} B\u{2295}A";

/// 1 for a check that holds, 0 otherwise.
pub open spec fn flag(b: bool) -> nat {
    if b {
        1
    } else {
        0
    }
}

/// The message when `b` holds, nothing otherwise.
pub open spec fn message_if(b: bool, m: Seq<char>) -> Seq<Seq<char>> {
    if b {
        seq![m]
    } else {
        Seq::empty()
    }
}

/// The report of the three structural checks on a vector, given which of
/// them fail.
pub open spec fn sparse_report(
    r: IntegrityReport,
    overlap: bool,
    pos_unsorted: bool,
    neg_unsorted: bool,
) -> bool {
    report_is(
        r,
        3,
        flag(!overlap) + flag(!pos_unsorted) + flag(!neg_unsorted),
        0,
        flag(overlap),
        0,
        message_if(overlap, "Overlap between pos and neg indices"@) + message_if(
            pos_unsorted,
            "pos indices not sorted"@,
        ) + message_if(neg_unsorted, "neg indices not sorted"@),
    )
}

/// The report of one commutativity check: a pass when both orders agree,
/// otherwise an invariant violation carrying `violation`.
pub open spec fn commuted_report(r: IntegrityReport, agree: bool, violation: Seq<char>) -> bool {
    if agree {
        report_is(r, 1, 1, 0, 0, 0, Seq::empty())
    } else {
        report_is(r, 0, 0, 0, 0, 1, seq!["INVARIANT: "@ + violation])
    }
}

/// `|a - b|`.
pub open spec fn gap(a: nat, b: nat) -> nat {
    if a >= b {
        (a - b) as nat
    } else {
        (b - a) as nat
    }
}

/// The message for a support that drifted by `diff` elements.
pub open spec fn drift_message(polarity: Seq<char>, diff: nat) -> Seq<char> {
    polarity + " indices differ by "@ + decimal(diff) + " elements"@
}

/// The report of comparing both supports of an expected and an actual vector.
pub open spec fn drift_report(r: IntegrityReport, expected: SparseVec, actual: SparseVec) -> bool {
    let pd = expected.pos@ != actual.pos@;
    let nd = expected.neg@ != actual.neg@;
    report_is(
        r,
        2,
        flag(!pd) + flag(!nd),
        0,
        flag(pd) + flag(nd),
        0,
        message_if(pd, drift_message("pos"@, gap(expected.pos@.len(), actual.pos@.len())))
            + message_if(nd, drift_message("neg"@, gap(expected.neg@.len(), actual.neg@.len()))),
    )
}

/// Each element is smaller than the next, checked pairwise.
fn is_ascending(s: &[usize]) -> (r: bool)
    ensures
        r == strictly_increasing(s@),
{
    let n = s.len();
    if n < 2 {
        return true;
    }
    let mut i: usize = 0;
    while i + 1 < n
        invariant
            n == s@.len(),
            n >= 2,
            i + 1 <= n,
            strictly_increasing(s@.take(i as int + 1)),
        decreases n - i,
    {
        if s[i] >= s[i + 1] {
            return false;
        }
        proof {
            let t = s@.take(i as int + 2);
            assert forall|a: int, b: int| 0 <= a < b < t.len() implies t[a] < t[b] by {
                if b == i + 1 && a < i {
                    assert(s@.take(i as int + 1)[a] < s@.take(i as int + 1)[i as int]);
                }
            }
        }
        i = i + 1;
    }
    proof {
        assert(s@.take(i as int + 1) =~= s@);
    }
    true
}

/// Some index occurs in both sequences.
fn shares_index(pos: &[usize], neg: &[usize]) -> (r: bool)
    ensures
        r == !disjoint(pos@, neg@),
{
    let mut seen: HashSet<usize> = HashSet::new();
    let mut i: usize = 0;
    proof {
        assert(pos@.take(0).to_set() =~= Set::<usize>::empty());
    }
    while i < pos.len()
        invariant
            i <= pos@.len(),
            seen@ == pos@.take(i as int).to_set(),
        decreases pos.len() - i,
    {
        seen.insert(pos[i]);
        proof {
            assert(pos@.take(i as int + 1) =~= pos@.take(i as int).push(pos@[i as int]));
            pos@.take(i as int).lemma_push_to_set_commute(pos@[i as int]);
        }
        i = i + 1;
    }
    proof {
        assert(pos@.take(i as int) =~= pos@);
    }
    let mut j: usize = 0;
    while j < neg.len()
        invariant
            j <= neg@.len(),
            forall|x: usize| seen@.contains(x) <==> pos@.contains(x),
            forall|a: int, b: int| 0 <= a < pos@.len() && 0 <= b < j ==> pos@[a] != neg@[b],
        decreases neg.len() - j,
    {
        if seen.contains(&neg[j]) {
            proof {
                let a = choose|a: int| 0 <= a < pos@.len() && pos@[a] == neg@[j as int];
            }
            return true;
        }
        j = j + 1;
    }
    false
}

/// The two sequences are equal.
fn same_indices(a: &[usize], b: &[usize]) -> (r: bool)
    ensures
        r == (a@ == b@),
{
    if a.len() != b.len() {
        return false;
    }
    let mut i: usize = 0;
    while i < a.len()
        invariant
            i <= a@.len(),
            a@.len() == b@.len(),
            forall|k: int| 0 <= k < i ==> a@[k] == b@[k],
        decreases a.len() - i,
    {
        if a[i] != b[i] {
            return false;
        }
        i = i + 1;
    }
    proof {
        assert(a@ =~= b@);
    }
    true
}

/// `<polarity> indices differ by <|a - b|> elements`.
fn drift_line(polarity: &str, a: usize, b: usize) -> (r: String)
    ensures
        r@ == drift_message(polarity@, gap(a as nat, b as nat)),
{
    let diff = if a >= b {
        a - b
    } else {
        b - a
    };
    let mut s = String::from_str(polarity);
    s.append(" indices differ by ");
    push_decimal(&mut s, diff as u64);
    s.append(" elements");
    s
}

/// Checks structural and algebraic properties of vectors, one fresh report
/// per call.
pub struct IntegrityValidator {
    /// Whether the caller asked for verbose output.
    pub verbose: bool,
}

impl IntegrityValidator {
    /// A quiet validator.
    pub fn new() -> (r: IntegrityValidator)
        ensures
            !r.verbose,
    {
        IntegrityValidator { verbose: false }
    }

    /// The same validator, verbose.
    pub fn verbose(self) -> (r: IntegrityValidator)
        ensures
            r.verbose,
    {
        let mut r = self;
        r.verbose = true;
        r
    }

    /// Runs three independent checks on `v`: `pos` and `neg` share no
    /// index (a failure also counts as a corruption event), `pos` is
    /// strictly increasing, `neg` is strictly increasing.
    pub fn validate_sparse(&self, v: &SparseVec) -> (r: IntegrityReport)
        ensures
            sparse_report(
                r,
                !disjoint(v.pos@, v.neg@),
                !strictly_increasing(v.pos@),
                !strictly_increasing(v.neg@),
            ),
            r.wf(),
    {
        let mut report = IntegrityReport::new();
        if shares_index(v.pos.as_slice(), v.neg.as_slice()) {
            report.record_corruption();
            report.fail("Overlap between pos and neg indices");
        } else {
            report.pass();
        }
        let ghost m1 = report.messages();
        if !is_ascending(v.pos.as_slice()) {
            report.fail("pos indices not sorted");
        } else {
            report.pass();
        }
        let ghost m2 = report.messages();
        if !is_ascending(v.neg.as_slice()) {
            report.fail("neg indices not sorted");
        } else {
            report.pass();
        }
        proof {
            let o = !disjoint(v.pos@, v.neg@);
            let ps = !strictly_increasing(v.pos@);
            let ns = !strictly_increasing(v.neg@);
            assert(m1 =~= message_if(o, "Overlap between pos and neg indices"@));
            assert(m2 =~= m1 + message_if(ps, "pos indices not sorted"@));
            assert(report.messages() =~= m2 + message_if(ns, "neg indices not sorted"@));
        }
        report
    }

    /// Records whether two results of one operation, taken in both operand
    /// orders, agree: a passed check if both supports are equal, otherwise an
    /// invariant violation with message `violation`.
    pub fn validate_commuted(&self, ab: &SparseVec, ba: &SparseVec, violation: &str) -> (r:
        IntegrityReport)
        ensures
            commuted_report(r, ab.pos@ == ba.pos@ && ab.neg@ == ba.neg@, violation@),
            r.wf(),
    {
        let mut report = IntegrityReport::new();
        if !same_indices(ab.pos.as_slice(), ba.pos.as_slice()) || !same_indices(
            ab.neg.as_slice(),
            ba.neg.as_slice(),
        ) {
            report.record_invariant_violation(violation);
        } else {
            report.pass();
        }
        report
    }

    /// Checks that the engine's bind commutes on `a` and `b`.
    pub fn validate_bind_invariants(&self, a: &SparseVec, b: &SparseVec) -> (r: IntegrityReport)
        ensures
            commuted_report(
                r,
                bind_of((a.pos@, a.neg@), (b.pos@, b.neg@)) == bind_of(
                    (b.pos@, b.neg@),
                    (a.pos@, a.neg@),
                ),
                BIND_VIOLATION@,
            ),
            r.wf(),
    {
        let ab = engine_bind(a, b);
        let ba = engine_bind(b, a);
        self.validate_commuted(&ab, &ba, BIND_VIOLATION)
    }

    /// Checks that the engine's bundle commutes on `a` and `b`.
    pub fn validate_bundle_invariants(&self, a: &SparseVec, b: &SparseVec) -> (r: IntegrityReport)
        ensures
            commuted_report(
                r,
                bundle_of((a.pos@, a.neg@), (b.pos@, b.neg@)) == bundle_of(
                    (b.pos@, b.neg@),
                    (a.pos@, a.neg@),
                ),
                BUNDLE_VIOLATION@,
            ),
            r.wf(),
    {
        let ab = engine_bundle(a, b);
        let ba = engine_bundle(b, a);
        self.validate_commuted(&ab, &ba, BUNDLE_VIOLATION)
    }

    /// Compares both supports of `expected` and `actual`; a differing
    /// support counts as a corruption event and a failure whose message
    /// gives the difference in element counts.
    pub fn detect_differences(&self, expected: &SparseVec, actual: &SparseVec) -> (r:
        IntegrityReport)
        ensures
            drift_report(r, *expected, *actual),
            r.wf(),
    {
        let mut report = IntegrityReport::new();
        if !same_indices(expected.pos.as_slice(), actual.pos.as_slice()) {
            let line = drift_line("pos", expected.pos.len(), actual.pos.len());
            report.record_corruption();
            report.fail(line.as_str());
        } else {
            report.pass();
        }
        let ghost m1 = report.messages();
        if !same_indices(expected.neg.as_slice(), actual.neg.as_slice()) {
            let line = drift_line("neg", expected.neg.len(), actual.neg.len());
            report.record_corruption();
            report.fail(line.as_str());
        } else {
            report.pass();
        }
        proof {
            let pd = expected.pos@ != actual.pos@;
            let nd = expected.neg@ != actual.neg@;
            assert(m1 =~= message_if(
                pd,
                drift_message("pos"@, gap(expected.pos@.len(), actual.pos@.len())),
            ));
            assert(report.messages() =~= m1 + message_if(
                nd,
                drift_message("neg"@, gap(expected.neg@.len(), actual.neg@.len())),
            ));
        }
        report
    }
}

impl Default for IntegrityValidator {
    fn default() -> (r: IntegrityValidator)
        ensures
            !r.verbose,
    {
        IntegrityValidator::new()
    }
}

} // verus!
