//! Confidence trajectory analysis, modelled on a second-order system.
//!
//! The confidence pattern across a passage maps to a damping behaviour:
//!
//!   - **Underdamped (oscillating confidence)**: confident → uncertain →
//!     confident; HIGH hallucination risk.
//!   - **Overdamped (consistently cautious)**: uniformly hedged; LOW risk.
//!   - **Critically damped (smooth convergence)**: starts uncertain and
//!     becomes progressively more confident; a good pattern.
//!   - **Flat high confidence**: uniformly confident with no hedging;
//!     suspicious, since real knowledge has nuance.
//!
//! Per-claim confidence is High (1.0), Medium (0.5) or Low (0.0).  All the
//! statistics of the trajectory (mean, variance, regression slope) are
//! decided exactly, on integer sums of the levels counted in halves.
use vstd::prelude::*;
use crate::claim::Claim;
use crate::format::{SCALE, ratio_text, decimal, append_ratio, append_decimal};

verus! {

/// Per-sentence confidence level.
#[derive(Debug, Clone, Copy, PartialEq, Eq, Structural)]
pub enum ConfidenceLevel {
    /// Strong definitive language, no hedging
    High,
    /// Moderate: some specifics but not overconfident
    Medium,
    /// Hedged, uncertain, or vague
    Low,
}

/// Trajectory pattern classification.
#[derive(Debug, Clone, Copy, PartialEq, Eq, Structural)]
pub enum TrajectoryPattern {
    /// Confidence oscillates: H→L→H or L→H→L (underdamped)
    Oscillating,
    /// Uniformly high confidence throughout (flat, suspicious)
    FlatHigh,
    /// Uniformly low/hedged throughout (overdamped, cautious)
    FlatLow,
    /// Confidence increases over the passage (convergent)
    Convergent,
    /// Confidence decreases over the passage (divergent, losing confidence)
    Divergent,
    /// Mixed/no clear pattern
    Mixed,
    /// Too few claims to determine pattern
    Insufficient,
}

/// The display text of a pattern.
pub open spec fn pattern_text(p: TrajectoryPattern) -> Seq<char> {
    match p {
        TrajectoryPattern::Oscillating => "OSCILLATING (underdamped — hallucination risk)"@,
        TrajectoryPattern::FlatHigh => "FLAT HIGH (uniformly overconfident — suspicious)"@,
        TrajectoryPattern::FlatLow => "FLAT LOW (consistently cautious — trustworthy)"@,
        TrajectoryPattern::Convergent => "CONVERGENT (builds confidence — good pattern)"@,
        TrajectoryPattern::Divergent => "DIVERGENT (losing confidence — uncertain)"@,
        TrajectoryPattern::Mixed => "MIXED (no clear pattern)"@,
        TrajectoryPattern::Insufficient => "INSUFFICIENT (too few claims)"@,
    }
}

impl TrajectoryPattern {
    /// The display text of the pattern.
    pub fn description(&self) -> (s: String)
        ensures
            s@ == pattern_text(*self),
    {
        match self {
            TrajectoryPattern::Oscillating => String::from_str(
                "OSCILLATING (underdamped — hallucination risk)",
            ),
            TrajectoryPattern::FlatHigh => String::from_str(
                "FLAT HIGH (uniformly overconfident — suspicious)",
            ),
            TrajectoryPattern::FlatLow => String::from_str(
                "FLAT LOW (consistently cautious — trustworthy)",
            ),
            TrajectoryPattern::Convergent => String::from_str(
                "CONVERGENT (builds confidence — good pattern)",
            ),
            TrajectoryPattern::Divergent => String::from_str(
                "DIVERGENT (losing confidence — uncertain)",
            ),
            TrajectoryPattern::Mixed => String::from_str("MIXED (no clear pattern)"),
            TrajectoryPattern::Insufficient => String::from_str("INSUFFICIENT (too few claims)"),
        }
    }
}

/// Full trajectory analysis result.
#[derive(Debug, Clone)]
pub struct TrajectoryAnalysis {
    /// Classified pattern
    pub pattern: TrajectoryPattern,
    /// Damping ratio estimate, fixed-point (0 = oscillating, 1 = critically damped, >1 = overdamped)
    pub damping_estimate: u64,
    /// Trust modifier from trajectory analysis, fixed-point (-0.15 to +0.15)
    pub trust_modifier: i64,
    /// Number of confidence transitions (direction changes)
    pub transitions: usize,
    /// Explanation
    pub explanation: String,
}

/// The most claims a passage can hold: more than any machine can keep in
/// memory, since every claim occupies at least 48 bytes.
pub const MAX_CLAIMS: u64 = 0x100_0000_0000;

// ── Specification ───────────────────────────────────────────────────────

/// The confidence level of a claim.
pub open spec fn confidence_level(c: Claim) -> ConfidenceLevel {
    if c.is_hedged {
        ConfidenceLevel::Low
    } else if c.specificity > 1_500_000_000_000_000 && c.is_verifiable {
        ConfidenceLevel::High
    } else if c.specificity < 750_000_000_000_000 {
        ConfidenceLevel::Low
    } else {
        ConfidenceLevel::Medium
    }
}

/// A confidence level counted in halves: High 2, Medium 1, Low 0.
pub open spec fn level_value(l: ConfidenceLevel) -> int {
    match l {
        ConfidenceLevel::High => 2,
        ConfidenceLevel::Medium => 1,
        ConfidenceLevel::Low => 0,
    }
}

/// The confidence levels of a passage, counted in halves.
pub open spec fn level_values(cs: Seq<Claim>) -> Seq<int> {
    cs.map_values(|c: Claim| level_value(confidence_level(c)))
}

/// The direction changes of `v` from position `i` on, where `prev` is the
/// direction of the last change seen (`true` for an increase).
pub open spec fn transitions_from(v: Seq<int>, i: int, prev: Option<bool>) -> nat
    decreases v.len() - i,
{
    if i < 0 || i + 1 >= v.len() {
        0
    } else if v[i + 1] == v[i] {
        transitions_from(v, i + 1, prev)
    } else {
        let up = v[i + 1] > v[i];
        (if prev is Some && prev->0 != up {
            1nat
        } else {
            0nat
        }) + transitions_from(v, i + 1, Some(up))
    }
}

/// The number of direction changes of a sequence.
pub open spec fn transitions(v: Seq<int>) -> nat {
    transitions_from(v, 0, None)
}

/// `Σ v[i]`.
pub open spec fn sum_values(v: Seq<int>) -> int
    decreases v.len(),
{
    if v.len() == 0 {
        0
    } else {
        sum_values(v.drop_last()) + v.last()
    }
}

/// `Σ i·v[i]`.
pub open spec fn weighted_sum(v: Seq<int>) -> int
    decreases v.len(),
{
    if v.len() == 0 {
        0
    } else {
        weighted_sum(v.drop_last()) + (v.len() - 1) * v.last()
    }
}

/// `Σ v[i]²`.
pub open spec fn square_sum(v: Seq<int>) -> int
    decreases v.len(),
{
    if v.len() == 0 {
        0
    } else {
        square_sum(v.drop_last()) + v.last() * v.last()
    }
}

/// `n²` times four times the variance of the levels (counted in halves).
pub open spec fn spread(n: int, s: int, q: int) -> int {
    n * q - s * s
}

/// Four times `n(n²-1)/12` times the regression slope of the levels.
pub open spec fn slope_numerator(n: int, s: int, t: int) -> int {
    2 * t - (n - 1) * s
}

/// The pattern of `n` levels with `trans` direction changes, level sum `s`,
/// index-weighted sum `t` and square sum `q`:
///   - oscillating: two or more direction changes and variance above 0.1;
///   - flat: variance below 0.05, with mean above 0.7 (high) or below 0.3 (low);
///   - convergent / divergent: regression slope above 0.1 / below -0.1 with
///     at most one direction change;
///   - mixed otherwise.
pub open spec fn classify(trans: nat, n: int, s: int, t: int, q: int) -> TrajectoryPattern {
    let d = spread(n, s, q);
    let x = slope_numerator(n, s, t);
    if trans >= 2 && 5 * d > 2 * (n * n) {
        TrajectoryPattern::Oscillating
    } else if 5 * d < n * n && 5 * s > 7 * n {
        TrajectoryPattern::FlatHigh
    } else if 5 * d < n * n && 5 * s < 3 * n {
        TrajectoryPattern::FlatLow
    } else if 30 * x > n * (n * n - 1) && trans <= 1 {
        TrajectoryPattern::Convergent
    } else if 30 * x < -(n * (n * n - 1)) && trans <= 1 {
        TrajectoryPattern::Divergent
    } else {
        TrajectoryPattern::Mixed
    }
}

/// The pattern of a passage.
pub open spec fn pattern_of(cs: Seq<Claim>) -> TrajectoryPattern {
    if cs.len() < 3 {
        TrajectoryPattern::Insufficient
    } else {
        let v = level_values(cs);
        classify(transitions(v), cs.len() as int, sum_values(v), weighted_sum(v), square_sum(v))
    }
}

/// The transitions reported for a passage.
pub open spec fn transitions_of(cs: Seq<Claim>) -> nat {
    if cs.len() < 3 {
        0
    } else {
        transitions(level_values(cs))
    }
}

/// The damping estimate of a pattern, as the fraction `(num, den)`.
pub open spec fn damping_ratio(p: TrajectoryPattern, trans: nat) -> (nat, nat) {
    match p {
        TrajectoryPattern::Oscillating => ((2 * trans + 5) as nat, (10 * (trans + 1)) as nat),
        TrajectoryPattern::FlatHigh => (1, 10),
        TrajectoryPattern::FlatLow => (15, 10),
        TrajectoryPattern::Convergent => (9, 10),
        TrajectoryPattern::Divergent => (6, 10),
        TrajectoryPattern::Mixed => (7, 10),
        TrajectoryPattern::Insufficient => (1, 1),
    }
}

/// The damping estimate, fixed-point (0.2 + 0.3/(transitions+1) when
/// oscillating, rounded down).
pub open spec fn damping_of(p: TrajectoryPattern, trans: nat) -> nat {
    match p {
        TrajectoryPattern::Oscillating => 600_000_000_000_000 + 900_000_000_000_000nat / (trans + 1),
        TrajectoryPattern::FlatHigh => 300_000_000_000_000,
        TrajectoryPattern::FlatLow => 4_500_000_000_000_000,
        TrajectoryPattern::Convergent => 2_700_000_000_000_000,
        TrajectoryPattern::Divergent => 1_800_000_000_000_000,
        TrajectoryPattern::Mixed => 2_100_000_000_000_000,
        TrajectoryPattern::Insufficient => 3_000_000_000_000_000,
    }
}

/// The trust modifier of a pattern, fixed-point.
pub open spec fn modifier_of(p: TrajectoryPattern) -> int {
    match p {
        TrajectoryPattern::FlatLow => 300_000_000_000_000,
        TrajectoryPattern::Convergent => 240_000_000_000_000,
        TrajectoryPattern::Mixed => 0,
        TrajectoryPattern::Divergent => -150_000_000_000_000,
        TrajectoryPattern::Oscillating => -300_000_000_000_000,
        TrajectoryPattern::FlatHigh => -360_000_000_000_000,
        TrajectoryPattern::Insufficient => 0,
    }
}

/// The explanation of a trajectory analysis.
pub open spec fn trajectory_explanation(cs: Seq<Claim>) -> Seq<char> {
    if cs.len() < 3 {
        "Too few claims for trajectory analysis."@
    } else {
        let v = level_values(cs);
        let n = cs.len();
        let p = pattern_of(cs);
        let tr = transitions(v);
        let (dn, dd) = damping_ratio(p, tr);
        pattern_text(p) + " — damping ζ≈"@ + ratio_text(dn, dd, 2) + ", "@ + decimal(tr)
            + " transitions, avg confidence "@ + ratio_text((50 * sum_values(v)) as nat, n, 0)
            + "%, variance "@ + ratio_text(spread(n as int, sum_values(v), square_sum(v)) as nat, 4 * (n * n), 3)
    }
}

// ── Implementation ──────────────────────────────────────────────────────

/// The confidence level of a claim: hedged claims are low, specific and
/// verifiable claims high, vague claims low, the rest medium.
pub fn classify_confidence(claim: &Claim) -> (l: ConfidenceLevel)
    ensures
        l == confidence_level(*claim),
{
    if claim.is_hedged {
        return ConfidenceLevel::Low;
    }
    if claim.specificity > 1_500_000_000_000_000 && claim.is_verifiable {
        return ConfidenceLevel::High;
    }
    if claim.specificity < 750_000_000_000_000 {
        return ConfidenceLevel::Low;
    }
    ConfidenceLevel::Medium
}

fn level_of(l: ConfidenceLevel) -> (v: u64)
    ensures
        v == level_value(l),
{
    match l {
        ConfidenceLevel::High => 2,
        ConfidenceLevel::Medium => 1,
        ConfidenceLevel::Low => 0,
    }
}

proof fn lemma_transitions_step(v: Seq<int>, i: int, prev: Option<bool>)
    requires
        0 <= i,
        i + 1 < v.len(),
    ensures
        transitions_from(v, i, prev) == if v[i + 1] == v[i] {
            transitions_from(v, i + 1, prev)
        } else {
            (if prev is Some && prev->0 != (v[i + 1] > v[i]) {
                1nat
            } else {
                0nat
            }) + transitions_from(v, i + 1, Some(v[i + 1] > v[i]))
        },
{
}

/// Counts the direction changes in a sequence of levels.
fn count_transitions(levels: &Vec<u64>, v: Ghost<Seq<int>>) -> (t: usize)
    requires
        levels@.len() == v@.len(),
        forall|i: int| 0 <= i < v@.len() ==> levels@[i] == #[trigger] v@[i],
    ensures
        t == transitions(v@),
        t <= levels@.len(),
{
    let n = levels.len();
    if n < 2 {
        return 0;
    }
    let mut t: usize = 0;
    let mut prev: Option<bool> = None;
    let mut i: usize = 0;
    while i + 1 < n
        invariant
            n == v@.len(),
            n >= 2,
            levels@.len() == n,
            forall|k: int| 0 <= k < v@.len() ==> levels@[k] == #[trigger] v@[k],
            i + 1 <= n,
            t + transitions_from(v@, i as int, prev) == transitions(v@),
            t <= i,
        decreases n - i,
    {
        proof {
            lemma_transitions_step(v@, i as int, prev);
        }
        let a = levels[i];
        let b = levels[i + 1];
        if a != b {
            let up = b > a;
            if let Some(p) = prev {
                if p != up {
                    t = t + 1;
                }
            }
            prev = Some(up);
        }
        i += 1;
    }
    t
}

proof fn lemma_sums_step(v: Seq<int>, i: int)
    requires
        0 <= i < v.len(),
    ensures
        sum_values(v.take(i + 1)) == sum_values(v.take(i)) + v[i],
        weighted_sum(v.take(i + 1)) == weighted_sum(v.take(i)) + i * v[i],
        square_sum(v.take(i + 1)) == square_sum(v.take(i)) + v[i] * v[i],
{
    assert(v.take(i + 1).drop_last() =~= v.take(i));
}

/// `Σ (v[i] - x)²`.
spec fn squared_distance(v: Seq<int>, x: int) -> int
    decreases v.len(),
{
    if v.len() == 0 {
        0
    } else {
        squared_distance(v.drop_last(), x) + (v.last() - x) * (v.last() - x)
    }
}

proof fn lemma_squared_distance(v: Seq<int>, x: int)
    ensures
        squared_distance(v, x) == square_sum(v) - 2 * x * sum_values(v) + v.len() * x * x,
        squared_distance(v, x) >= 0,
    decreases v.len(),
{
    if v.len() > 0 {
        let d = v.drop_last();
        let y = v.last();
        lemma_squared_distance(d, x);
        assert((y - x) * (y - x) == y * y - 2 * x * y + x * x) by (nonlinear_arith);
        assert(v.len() * x * x == d.len() * x * x + x * x) by (nonlinear_arith)
            requires
                v.len() == d.len() + 1,
        ;
        assert(2 * x * (sum_values(d) + y) == 2 * x * sum_values(d) + 2 * x * y) by (
        nonlinear_arith);
        assert((y - x) * (y - x) >= 0) by (nonlinear_arith);
    }
}

/// The spread `n·Σv² - (Σv)²` is never negative.
proof fn lemma_spread_nonneg(v: Seq<int>)
    ensures
        spread(v.len() as int, sum_values(v), square_sum(v)) >= 0,
    decreases v.len(),
{
    if v.len() > 0 {
        let d = v.drop_last();
        let x = v.last();
        let m = d.len() as int;
        let s = sum_values(d);
        let q = square_sum(d);
        lemma_spread_nonneg(d);
        lemma_squared_distance(d, x);
        assert((m + 1) * (q + x * x) - (s + x) * (s + x) == (m * q - s * s) + (q - 2 * x * s + m
            * x * x)) by (nonlinear_arith);
    }
}

/// Analyze the confidence trajectory across claims.
pub fn analyze_trajectory(claims: &[Claim]) -> (a: TrajectoryAnalysis)
    requires
        claims@.len() <= MAX_CLAIMS,
    ensures
        a.pattern == pattern_of(claims@),
        a.transitions == transitions_of(claims@),
        a.damping_estimate == damping_of(a.pattern, a.transitions as nat),
        a.trust_modifier == modifier_of(a.pattern),
        a.explanation@ == trajectory_explanation(claims@),
{
    if claims.len() < 3 {
        return TrajectoryAnalysis {
            pattern: TrajectoryPattern::Insufficient,
            damping_estimate: 3_000_000_000_000_000,
            trust_modifier: 0,
            transitions: 0,
            explanation: String::from_str("Too few claims for trajectory analysis."),
        };
    }
    let n = claims.len();
    let ghost cs = claims@;
    let ghost v = level_values(cs);
    let mut levels: Vec<u64> = Vec::new();
    let mut s: u64 = 0;
    let mut t: u128 = 0;
    let mut q: u64 = 0;
    let mut i: usize = 0;
    while i < n
        invariant
            n == cs.len(),
            cs == claims@,
            v == level_values(cs),
            n <= MAX_CLAIMS,
            i <= n,
            levels@.len() == i,
            forall|k: int| 0 <= k < i ==> levels@[k] == #[trigger] v[k],
            s == sum_values(v.take(i as int)),
            t == weighted_sum(v.take(i as int)),
            q == square_sum(v.take(i as int)),
            s <= 2 * i,
            q <= 4 * i,
            t <= 2 * i * i,
        decreases n - i,
    {
        proof {
            lemma_sums_step(v, i as int);
        }
        let l = level_of(classify_confidence(&claims[i]));
        assert(l == v[i as int]);
        levels.push(l);
        proof {
            assert(t + i * l <= 2 * (i + 1) * (i + 1)) by (nonlinear_arith)
                requires
                    t <= 2 * i * i,
                    l <= 2,
            ;
            assert(2 * (i + 1) * (i + 1) <= 0x4_0000_0000_0000_0000_0000) by (nonlinear_arith)
                requires
                    i < 0x100_0000_0000,
            ;
            assert(i * l <= 2 * i) by (nonlinear_arith)
                requires
                    l <= 2,
            ;
            assert(l * l <= 4) by (nonlinear_arith)
                requires
                    l <= 2,
            ;
        }
        s = s + l;
        t = t + (i as u128) * (l as u128);
        q = q + l * l;
        i += 1;
    }
    assert(v.take(n as int) =~= v);
    let trans = count_transitions(&levels, Ghost(v));
    proof {
        lemma_spread_nonneg(v);
    }
    proof {
        assert(t <= 0x2_0000_0000_0000_0000_0000) by (nonlinear_arith)
            requires
                t <= 2 * n * n,
                n <= 0x100_0000_0000,
        ;
    }
    let ni: i128 = n as i128;
    let si: i128 = s as i128;
    let qi: i128 = q as i128;
    let ti: i128 = t as i128;
    proof {
        assert(ni * qi <= 0x4_0000_0000_0000_0000_0000) by (nonlinear_arith)
            requires
                0 <= qi <= 4 * ni,
                0 <= ni <= 0x100_0000_0000,
        ;
        assert(0 <= si * si <= 0x4_0000_0000_0000_0000_0000) by (nonlinear_arith)
            requires
                0 <= si <= 2 * ni,
                0 <= ni <= 0x100_0000_0000,
        ;
        assert(0 <= ni * ni <= 0x1_0000_0000_0000_0000_0000) by (nonlinear_arith)
            requires
                0 <= ni <= 0x100_0000_0000,
        ;
        assert(0 <= (ni - 1) * si <= 0x4_0000_0000_0000_0000_0000) by (nonlinear_arith)
            requires
                0 <= si <= 2 * ni,
                1 <= ni <= 0x100_0000_0000,
        ;
        assert(0 <= ni * (ni * ni - 1) <= 0x100_0000_0000_0000_0000_0000_0000_0000) by (
        nonlinear_arith)
            requires
                1 <= ni <= 0x100_0000_0000,
        ;
        assert(ni * ni >= 9) by (nonlinear_arith)
            requires
                ni >= 3,
        ;
        assert(0 <= ni * qi) by (nonlinear_arith)
            requires
                0 <= qi,
                0 <= ni,
        ;
    }
    let d: i128 = ni * qi - si * si;
    let x: i128 = 2 * ti - (ni - 1) * si;
    let nn: i128 = ni * ni;
    let cube: i128 = ni * (nn - 1);
    let pattern = if trans >= 2 && 5 * d > 2 * nn {
        TrajectoryPattern::Oscillating
    } else if 5 * d < nn && 5 * si > 7 * ni {
        TrajectoryPattern::FlatHigh
    } else if 5 * d < nn && 5 * si < 3 * ni {
        TrajectoryPattern::FlatLow
    } else if 30 * x > cube && trans <= 1 {
        TrajectoryPattern::Convergent
    } else if 30 * x < -cube && trans <= 1 {
        TrajectoryPattern::Divergent
    } else {
        TrajectoryPattern::Mixed
    };
    assert(pattern == pattern_of(cs));
    let ghost tr = trans as nat;
    let (dn, dd): (u64, u64) = match pattern {
        TrajectoryPattern::Oscillating => (2 * (trans as u64) + 5, 10 * ((trans as u64) + 1)),
        TrajectoryPattern::FlatHigh => (1, 10),
        TrajectoryPattern::FlatLow => (15, 10),
        TrajectoryPattern::Convergent => (9, 10),
        TrajectoryPattern::Divergent => (6, 10),
        TrajectoryPattern::Mixed => (7, 10),
        TrajectoryPattern::Insufficient => (1, 1),
    };
    assert((dn as nat, dd as nat) == damping_ratio(pattern, tr));
    let damping_estimate: u64 = match pattern {
        TrajectoryPattern::Oscillating => 600_000_000_000_000 + 900_000_000_000_000 / ((trans as u64) + 1),
        TrajectoryPattern::FlatHigh => 300_000_000_000_000,
        TrajectoryPattern::FlatLow => 4_500_000_000_000_000,
        TrajectoryPattern::Convergent => 2_700_000_000_000_000,
        TrajectoryPattern::Divergent => 1_800_000_000_000_000,
        TrajectoryPattern::Mixed => 2_100_000_000_000_000,
        TrajectoryPattern::Insufficient => 3_000_000_000_000_000,
    };
    let trust_modifier: i64 = match pattern {
        TrajectoryPattern::FlatLow => 300_000_000_000_000,
        TrajectoryPattern::Convergent => 240_000_000_000_000,
        TrajectoryPattern::Mixed => 0,
        TrajectoryPattern::Divergent => -150_000_000_000_000,
        TrajectoryPattern::Oscillating => -300_000_000_000_000,
        TrajectoryPattern::FlatHigh => -360_000_000_000_000,
        TrajectoryPattern::Insufficient => 0,
    };
    let mut explanation = pattern.description();
    explanation.append(" — damping ζ≈");
    append_ratio(&mut explanation, dn as u128, dd as u128, 2);
    explanation.append(", ");
    append_decimal(&mut explanation, trans as u64);
    explanation.append(" transitions, avg confidence ");
    append_ratio(&mut explanation, 50 * (s as u128), n as u128, 0);
    explanation.append("%, variance ");
    append_ratio(&mut explanation, d as u128, (4 * nn) as u128, 3);
    TrajectoryAnalysis {
        pattern,
        damping_estimate,
        trust_modifier,
        transitions: trans,
        explanation,
    }
}

// ── Laws ────────────────────────────────────────────────────────────────

proof fn lemma_transitions_from_bounded(v: Seq<int>, i: int, prev: Option<bool>)
    requires
        0 <= i,
    ensures
        prev is None && i + 2 <= v.len() ==> transitions_from(v, i, prev) <= v.len() - i - 2,
        prev is Some && i + 1 <= v.len() ==> transitions_from(v, i, prev) <= v.len() - i - 1,
        i + 1 >= v.len() ==> transitions_from(v, i, prev) == 0,
    decreases v.len() - i,
{
    if i + 1 < v.len() {
        lemma_transitions_from_bounded(v, i + 1, prev);
        lemma_transitions_from_bounded(v, i + 1, Some(v[i + 1] > v[i]));
    }
}

/// Transitions bounded: a confidence sequence of `n >= 2` levels changes
/// direction at most `n - 2` times.
pub proof fn law_transitions_bounded(v: Seq<int>)
    requires
        v.len() >= 2,
    ensures
        transitions(v) <= v.len() - 2,
{
    lemma_transitions_from_bounded(v, 0, None);
}

/// The transitions reported for a passage of `n >= 2` claims are at most `n - 2`.
pub proof fn law_passage_transitions_bounded(cs: Seq<Claim>)
    requires
        cs.len() >= 2,
    ensures
        transitions_of(cs) <= cs.len() - 2,
{
    if cs.len() >= 3 {
        law_transitions_bounded(level_values(cs));
    }
}

/// The trajectory modifier stays within [-0.15, +0.15].
pub proof fn law_modifier_bounded(p: TrajectoryPattern)
    ensures
        -450_000_000_000_000 <= modifier_of(p) <= 450_000_000_000_000,
{
}

/// The damping estimate is always positive (a stable system) and at most 1.5.
pub proof fn law_damping_positive(p: TrajectoryPattern, trans: nat)
    ensures
        0 < damping_of(p, trans) <= 4_500_000_000_000_000,
{
    assert(900_000_000_000_000nat / (trans + 1) <= 900_000_000_000_000) by (nonlinear_arith);
}

/// The shape of a passage's trajectory: three or more claims always get a
/// pattern; an oscillating one changes direction at least twice; the
/// damping estimate lies in (0, 1.5]; direction changes are at most
/// `n - 2`; and the modifier is the one of the pattern's table.
pub proof fn law_trajectory_shape(cs: Seq<Claim>)
    ensures
        cs.len() >= 3 <==> pattern_of(cs) != TrajectoryPattern::Insufficient,
        pattern_of(cs) == TrajectoryPattern::Oscillating ==> transitions_of(cs) >= 2,
        0 < damping_of(pattern_of(cs), transitions_of(cs)) <= 4_500_000_000_000_000,
        transitions_of(cs) + 2 <= cs.len() || transitions_of(cs) == 0,
        modifier_of(pattern_of(cs)) == match pattern_of(cs) {
            TrajectoryPattern::FlatLow => 300_000_000_000_000int,
            TrajectoryPattern::Convergent => 240_000_000_000_000int,
            TrajectoryPattern::Divergent => -150_000_000_000_000int,
            TrajectoryPattern::Oscillating => -300_000_000_000_000int,
            TrajectoryPattern::FlatHigh => -360_000_000_000_000int,
            _ => 0int,
        },
{
    law_damping_positive(pattern_of(cs), transitions_of(cs));
    if cs.len() >= 2 {
        law_passage_transitions_bounded(cs);
    }
}

// ── Trend of the confidence levels ──────────────────────────────────────

/// `Σ i` for `i < n`.
pub open spec fn index_sum(n: nat) -> int
    decreases n,
{
    if n == 0 {
        0
    } else {
        index_sum((n - 1) as nat) + (n - 1)
    }
}

/// `Σ i²` for `i < n`.
pub open spec fn index_square_sum(n: nat) -> int
    decreases n,
{
    if n == 0 {
        0
    } else {
        index_square_sum((n - 1) as nat) + (n - 1) * (n - 1)
    }
}

/// `n²` times the covariance of the positions and the levels (counted in
/// halves) of a sequence of `n` levels.
pub open spec fn level_covariance(v: Seq<int>) -> int {
    v.len() * weighted_sum(v) - index_sum(v.len()) * sum_values(v)
}

/// `n²` times the variance of the positions `0..n`.
pub open spec fn position_variance(n: nat) -> int {
    n * index_square_sum(n) - index_sum(n) * index_sum(n)
}

/// The least-squares slope of the levels (High 1.0, Medium 0.5, Low 0.0)
/// against their positions is above 0.1: `cov / var / 2 > 0.1`.
pub open spec fn rising_trend(v: Seq<int>) -> bool {
    5 * level_covariance(v) > position_variance(v.len())
}

/// The least-squares slope of the levels is below -0.1.
pub open spec fn falling_trend(v: Seq<int>) -> bool {
    5 * level_covariance(v) < -position_variance(v.len())
}

proof fn lemma_index_sums(n: nat)
    ensures
        2 * index_sum(n) == n * (n - 1),
        6 * index_square_sum(n) == (n - 1) * n * (2 * n - 1),
    decreases n,
{
    if n > 0 {
        let m = (n - 1) as nat;
        lemma_index_sums(m);
        let a = index_sum(m);
        let b = index_square_sum(m);
        assert(index_sum(n) == a + m);
        assert(index_square_sum(n) == b + m * m);
        assert(2 * (a + m) == n * (n - 1)) by (nonlinear_arith)
            requires
                2 * a == m * (m - 1),
                m + 1 == n,
        ;
        assert(6 * (b + m * m) == (n - 1) * n * (2 * n - 1)) by (nonlinear_arith)
            requires
                6 * b == (m - 1) * m * (2 * m - 1),
                m + 1 == n,
        ;
    } else {
        assert(n * (n - 1) == 0 && (n - 1) * n * (2 * n - 1) == 0) by (nonlinear_arith)
            requires
                n == 0,
        ;
    }
}

proof fn lemma_trend_forms(v: Seq<int>)
    requires
        v.len() > 0,
    ensures
        2 * level_covariance(v) == v.len() * slope_numerator(
            v.len() as int,
            sum_values(v),
            weighted_sum(v),
        ),
        12 * position_variance(v.len()) == v.len() * (v.len() * (v.len() * v.len() - 1)),
{
    let n = v.len() as int;
    let s = sum_values(v);
    let t = weighted_sum(v);
    lemma_index_sums(v.len());
    let i1 = index_sum(v.len());
    let i2 = index_square_sum(v.len());
    assert(2 * (n * t - i1 * s) == n * (2 * t - (n - 1) * s)) by (nonlinear_arith)
        requires
            2 * i1 == n * (n - 1),
    ;
    assert(12 * (n * i2 - i1 * i1) == n * (n * (n * n - 1))) by (nonlinear_arith)
        requires
            2 * i1 == n * (n - 1),
            6 * i2 == (n - 1) * n * (2 * n - 1),
    ;
}

/// Trend decides the direction: in a passage of three or more claims that is
/// neither oscillating nor flat and changes direction at most once, the
/// pattern is convergent exactly when the least-squares slope of the
/// confidence levels is above 0.1, and divergent exactly when it is below
/// -0.1.
pub proof fn law_trend_decides_direction(cs: Seq<Claim>)
    requires
        cs.len() >= 3,
        pattern_of(cs) != TrajectoryPattern::Oscillating,
        pattern_of(cs) != TrajectoryPattern::FlatHigh,
        pattern_of(cs) != TrajectoryPattern::FlatLow,
        transitions_of(cs) <= 1,
    ensures
        pattern_of(cs) == TrajectoryPattern::Convergent <==> rising_trend(level_values(cs)),
        pattern_of(cs) == TrajectoryPattern::Divergent <==> falling_trend(level_values(cs)),
{
    let v = level_values(cs);
    let n = cs.len() as int;
    lemma_trend_forms(v);
    let x = slope_numerator(n, sum_values(v), weighted_sum(v));
    let c = level_covariance(v);
    let w = position_variance(v.len());
    assert(5 * c > w <==> 30 * x > n * (n * n - 1)) by (nonlinear_arith)
        requires
            2 * c == n * x,
            12 * w == n * (n * (n * n - 1)),
            n >= 3,
    ;
    assert(5 * c < -w <==> 30 * x < -(n * (n * n - 1))) by (nonlinear_arith)
        requires
            2 * c == n * x,
            12 * w == n * (n * (n * n - 1)),
            n >= 3,
    ;
    assert(n * (n * n - 1) > 0) by (nonlinear_arith)
        requires
            n >= 3,
    ;
}

/// Rising confidence converges: three claims whose confidence levels are
/// Low, Medium and High, in that order, form a convergent trajectory.
pub proof fn law_rising_levels_converge(cs: Seq<Claim>)
    requires
        cs.len() == 3,
        confidence_level(cs[0]) == ConfidenceLevel::Low,
        confidence_level(cs[1]) == ConfidenceLevel::Medium,
        confidence_level(cs[2]) == ConfidenceLevel::High,
    ensures
        pattern_of(cs) == TrajectoryPattern::Convergent,
        modifier_of(pattern_of(cs)) > 0,
{
    let v = level_values(cs);
    assert(v[0] == 0 && v[1] == 1 && v[2] == 2);
    assert(v.drop_last().drop_last().drop_last().len() == 0);
    reveal_with_fuel(sum_values, 4);
    reveal_with_fuel(weighted_sum, 4);
    reveal_with_fuel(square_sum, 4);
    reveal_with_fuel(transitions_from, 4);
    assert(v.drop_last()[1] == 1 && v.drop_last()[0] == 0);
    assert(v.drop_last().drop_last()[0] == 0);
}

proof fn lemma_constant_sums(v: Seq<int>, c: int)
    requires
        forall|i: int| 0 <= i < v.len() ==> v[i] == c,
    ensures
        sum_values(v) == c * v.len(),
        square_sum(v) == c * c * v.len(),
    decreases v.len(),
{
    if v.len() > 0 {
        let d = v.drop_last();
        assert forall|i: int| 0 <= i < d.len() implies d[i] == c by {
            assert(d[i] == v[i]);
        }
        lemma_constant_sums(d, c);
        assert(v.last() == v[v.len() - 1]);
        assert(c * d.len() + c == c * v.len()) by (nonlinear_arith)
            requires
                v.len() == d.len() + 1,
        ;
        assert(c * c * d.len() + c * c == c * c * v.len()) by (nonlinear_arith)
            requires
                v.len() == d.len() + 1,
        ;
    }
}

/// Uniform confidence is flat: a passage of three or more claims that are
/// all of high confidence is flat-high (suspicious), and one whose claims are
/// all of low confidence is flat-low (cautious).
pub proof fn law_uniform_levels_are_flat(cs: Seq<Claim>)
    requires
        cs.len() >= 3,
    ensures
        (forall|i: int| 0 <= i < cs.len() ==> #[trigger] confidence_level(cs[i]) == ConfidenceLevel::High)
            ==> pattern_of(cs) == TrajectoryPattern::FlatHigh,
        (forall|i: int| 0 <= i < cs.len() ==> #[trigger] confidence_level(cs[i]) == ConfidenceLevel::Low)
            ==> pattern_of(cs) == TrajectoryPattern::FlatLow,
{
    let v = level_values(cs);
    let n = cs.len() as int;
    assert(n * n >= 9) by (nonlinear_arith)
        requires
            n >= 3,
    ;
    if forall|i: int| 0 <= i < cs.len() ==> #[trigger] confidence_level(cs[i]) == ConfidenceLevel::High {
        assert forall|i: int| 0 <= i < v.len() implies v[i] == 2 by {
            assert(confidence_level(cs[i]) == ConfidenceLevel::High);
        }
        lemma_constant_sums(v, 2);
        assert(spread(n, sum_values(v), square_sum(v)) == 0) by (nonlinear_arith)
            requires
                sum_values(v) == 2 * n,
                square_sum(v) == 2 * 2 * n,
        ;
    }
    if forall|i: int| 0 <= i < cs.len() ==> #[trigger] confidence_level(cs[i]) == ConfidenceLevel::Low {
        assert forall|i: int| 0 <= i < v.len() implies v[i] == 0 by {
            assert(confidence_level(cs[i]) == ConfidenceLevel::Low);
        }
        lemma_constant_sums(v, 0);
        assert(spread(n, sum_values(v), square_sum(v)) == 0) by (nonlinear_arith)
            requires
                sum_values(v) == 0 * n,
                square_sum(v) == 0 * 0 * n,
        ;
    }
}

} // verus!
