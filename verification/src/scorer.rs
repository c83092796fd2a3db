//! Trust scoring: per-claim signals, their weighted aggregate, and the
//! passage-level composition of claim scores.
use vstd::prelude::*;
use crate::claim::Claim;
use crate::format::{SCALE, percent_text, append_ratio, append_decimal, decimal};
use crate::text::join;

verus! {

/// Human-readable risk level.
#[derive(Debug, Clone, Copy, PartialEq, Eq, Structural)]
pub enum RiskLevel {
    Low,
    Medium,
    High,
    Critical,
}

/// The display text of a risk level.
pub open spec fn risk_label(r: RiskLevel) -> Seq<char> {
    match r {
        RiskLevel::Low => "LOW"@,
        RiskLevel::Medium => "MEDIUM"@,
        RiskLevel::High => "HIGH"@,
        RiskLevel::Critical => "CRITICAL"@,
    }
}

impl RiskLevel {
    /// The display text: `LOW`, `MEDIUM`, `HIGH` or `CRITICAL`.
    pub fn label(&self) -> (s: String)
        ensures
            s@ == risk_label(*self),
    {
        match self {
            RiskLevel::Low => String::from_str("LOW"),
            RiskLevel::Medium => String::from_str("MEDIUM"),
            RiskLevel::High => String::from_str("HIGH"),
            RiskLevel::Critical => String::from_str("CRITICAL"),
        }
    }
}

/// Individual signals behind a trust score, fixed-point (`SCALE` = 1.0).
#[derive(Debug, Clone)]
pub struct ScoreSignals {
    /// Overconfident language without hedging (0 = overconfident, 1 = well-calibrated)
    pub confidence: u64,
    /// Vague claims score lower (0 = vague, 1 = specific)
    pub specificity: u64,
    /// Hedged claims are less likely hallucinated (0 = no hedge, 1 = well-hedged)
    pub hedging: u64,
    /// Verifiable claims have external recourse (0 = risky, 1 = safe)
    pub verifiability: u64,
    /// Set by an external N-sample consistency check (0 = inconsistent, 1 = consistent)
    pub consistency: Option<u64>,
}

/// Trust score for an individual claim or an entire passage.
///
/// The score ranges from 0 (likely hallucinated) to `SCALE` (likely factual).
#[derive(Debug, Clone)]
pub struct TrustScore {
    /// Overall trust score in `[0, SCALE]`
    pub score: u64,
    /// Individual signal contributions
    pub signals: ScoreSignals,
    /// Human-readable risk level
    pub risk_level: RiskLevel,
    /// Explanation of the score
    pub explanation: String,
}

/// Weight of the confidence signal, in percent.
pub const W_CONFIDENCE: u64 = 35;
/// Weight of the hedging signal, in percent.
pub const W_HEDGING: u64 = 25;
/// Weight of the specificity signal, in percent.
pub const W_SPECIFICITY: u64 = 20;
/// Weight of the verifiability signal, in percent.
pub const W_VERIFIABILITY: u64 = 15;
/// Weight of the consistency signal, in percent.
pub const W_CONSISTENCY: u64 = 5;

// ── Specification ───────────────────────────────────────────────────────

/// The confidence signal of a claim: hedged claims are well calibrated,
/// specific verifiable unhedged claims are risky if wrong.
pub open spec fn confidence_signal(c: Claim) -> u64 {
    if c.is_hedged {
        2_400_000_000_000_000  // 0.8
    } else if c.specificity > 1_500_000_000_000_000 && c.is_verifiable {
        1_200_000_000_000_000  // 0.4
    } else if c.specificity > 900_000_000_000_000 {
        1_800_000_000_000_000  // 0.6
    } else {
        1_500_000_000_000_000  // 0.5
    }
}

/// The signals of a claim.
pub open spec fn claim_signals(c: Claim) -> ScoreSignals {
    ScoreSignals {
        confidence: confidence_signal(c),
        specificity: c.specificity,
        hedging: if c.is_hedged {
            2_550_000_000_000_000
        } else {
            1_500_000_000_000_000
        },
        verifiability: if c.is_verifiable {
            2_100_000_000_000_000
        } else {
            1_500_000_000_000_000
        },
        consistency: None,
    }
}

/// The weighted sum of the signals (an absent consistency counts as 0.5),
/// capped at `SCALE`.
pub open spec fn aggregate(s: ScoreSignals) -> nat {
    let consistency: nat = match s.consistency {
        Some(v) => v as nat,
        None => (SCALE / 2) as nat,
    };
    let raw: nat = ((W_CONFIDENCE * s.confidence + W_HEDGING * s.hedging + W_SPECIFICITY
        * s.specificity + W_VERIFIABILITY * s.verifiability + W_CONSISTENCY * consistency)
        / 100) as nat;
    if raw > SCALE {
        SCALE as nat
    } else {
        raw
    }
}

/// The trust score of a single claim.
pub open spec fn claim_score(c: Claim) -> nat {
    aggregate(claim_signals(c))
}

/// The risk level of a score.
pub open spec fn risk_of(score: nat) -> RiskLevel {
    if score >= 2_250_000_000_000_000 {
        RiskLevel::Low
    } else if score >= 1_650_000_000_000_000 {
        RiskLevel::Medium
    } else if score >= 1_050_000_000_000_000 {
        RiskLevel::High
    } else {
        RiskLevel::Critical
    }
}

/// The reasons listed in a claim's explanation, in order.
pub open spec fn claim_reasons(c: Claim, s: ScoreSignals) -> Seq<Seq<char>> {
    let found = (if s.confidence < 1_500_000_000_000_000 {
        seq!["overconfident language without hedging"@]
    } else {
        seq![]
    }) + (if c.is_hedged {
        seq!["appropriately hedged"@]
    } else {
        seq![]
    }) + (if c.is_verifiable && !c.is_hedged {
        seq!["specific verifiable claim — verify independently"@]
    } else {
        seq![]
    }) + (if c.specificity < 900_000_000_000_000 {
        seq!["vague claim with low specificity"@]
    } else {
        seq![]
    }) + (if c.specificity > 1_800_000_000_000_000 {
        seq!["highly specific claim"@]
    } else {
        seq![]
    });
    if found.len() == 0 {
        seq!["no strong signals detected"@]
    } else {
        found
    }
}

/// The explanation of a claim's score.
pub open spec fn claim_explanation(c: Claim, s: ScoreSignals, risk: RiskLevel) -> Seq<char> {
    "["@ + risk_label(risk) + "] Trust: "@ + percent_text(s.confidence as nat) + "% — "@ + join(
        claim_reasons(c, s),
        "; "@,
    )
}

/// The sum of `f` over `s`.
pub open spec fn sum_by<A>(s: Seq<A>, f: spec_fn(A) -> nat) -> nat
    decreases s.len(),
{
    if s.len() == 0 {
        0
    } else {
        sum_by(s.drop_last(), f) + f(s.last())
    }
}

/// The least value of `f` over a non-empty `s`.
pub open spec fn min_by<A>(s: Seq<A>, f: spec_fn(A) -> nat) -> nat
    decreases s.len(),
{
    if s.len() <= 1 {
        f(s[0])
    } else {
        let m = min_by(s.drop_last(), f);
        let x = f(s.last());
        if x < m {
            x
        } else {
            m
        }
    }
}

/// The number of elements of `s` that satisfy `p`.
pub open spec fn count_by<A>(s: Seq<A>, p: spec_fn(A) -> bool) -> nat
    decreases s.len(),
{
    if s.len() == 0 {
        0
    } else {
        count_by(s.drop_last(), p) + if p(s.last()) {
            1nat
        } else {
            0nat
        }
    }
}

pub open spec fn score_of_claim() -> spec_fn(Claim) -> nat {
    |c: Claim| claim_score(c)
}

/// The passage score: 70% of the average claim score plus 30% of the worst
/// one, rounded down once; 0.5 for a passage without claims.
pub open spec fn passage_score(cs: Seq<Claim>) -> nat {
    if cs.len() == 0 {
        (SCALE / 2) as nat
    } else {
        let n = cs.len();
        let raw = (7 * sum_by(cs, score_of_claim()) + 3 * n * min_by(cs, score_of_claim())) / (10
            * n);
        if raw > SCALE {
            SCALE as nat
        } else {
            raw
        }
    }
}

/// Whether a claim score counts as high risk (`High` or `Critical`).
pub open spec fn is_high_risk(c: Claim) -> bool {
    claim_score(c) < 1_650_000_000_000_000
}

pub open spec fn high_risk() -> spec_fn(Claim) -> bool {
    |c: Claim| is_high_risk(c)
}

pub open spec fn confidence_of() -> spec_fn(Claim) -> nat {
    |c: Claim| confidence_signal(c) as nat
}

pub open spec fn specificity_of() -> spec_fn(Claim) -> nat {
    |c: Claim| c.specificity as nat
}

pub open spec fn hedging_of() -> spec_fn(Claim) -> nat {
    |c: Claim| claim_signals(c).hedging as nat
}

pub open spec fn verifiability_of() -> spec_fn(Claim) -> nat {
    |c: Claim| claim_signals(c).verifiability as nat
}

/// The explanation of a passage score.
pub open spec fn passage_explanation(cs: Seq<Claim>) -> Seq<char> {
    decimal(cs.len()) + " claims analyzed. "@ + decimal(count_by(cs, high_risk()))
        + " high-risk claims detected. Average trust: "@ + percent_text(passage_score(cs)) + "%."@
}

/// The averaged signals of a non-empty passage (each rounded down).
pub open spec fn passage_signals(cs: Seq<Claim>) -> ScoreSignals {
    let n = cs.len();
    ScoreSignals {
        confidence: (sum_by(cs, confidence_of()) / n) as u64,
        specificity: (sum_by(cs, specificity_of()) / n) as u64,
        hedging: (sum_by(cs, hedging_of()) / n) as u64,
        verifiability: (sum_by(cs, verifiability_of()) / n) as u64,
        consistency: None,
    }
}

/// The neutral signals reported for a passage without claims.
pub open spec fn neutral_signals() -> ScoreSignals {
    ScoreSignals {
        confidence: 1_500_000_000_000_000,
        specificity: 1_500_000_000_000_000,
        hedging: 1_500_000_000_000_000,
        verifiability: 1_500_000_000_000_000,
        consistency: None,
    }
}

// ── Implementation ──────────────────────────────────────────────────────

fn compute_signals(claim: &Claim) -> (s: ScoreSignals)
    ensures
        s == claim_signals(*claim),
{
    let confidence: u64 = if claim.is_hedged {
        2_400_000_000_000_000
    } else if claim.specificity > 1_500_000_000_000_000 && claim.is_verifiable {
        1_200_000_000_000_000
    } else if claim.specificity > 900_000_000_000_000 {
        1_800_000_000_000_000
    } else {
        1_500_000_000_000_000
    };
    let hedging: u64 = if claim.is_hedged {
        2_550_000_000_000_000
    } else {
        1_500_000_000_000_000
    };
    let verifiability: u64 = if claim.is_verifiable {
        2_100_000_000_000_000
    } else {
        1_500_000_000_000_000
    };
    ScoreSignals {
        confidence,
        specificity: claim.specificity,
        hedging,
        verifiability,
        consistency: None,
    }
}

fn aggregate_score(signals: &ScoreSignals) -> (r: u64)
    ensures
        r == aggregate(*signals),
        r <= SCALE,
{
    let consistency: u128 = match signals.consistency {
        Some(v) => v as u128,
        None => (SCALE / 2) as u128,
    };
    let c: u128 = 35 * (signals.confidence as u128);
    let h: u128 = 25 * (signals.hedging as u128);
    let sp: u128 = 20 * (signals.specificity as u128);
    let v: u128 = 15 * (signals.verifiability as u128);
    let k: u128 = 5 * consistency;
    let raw: u128 = (c + h + sp + v + k) / 100;
    if raw > SCALE as u128 {
        SCALE
    } else {
        raw as u64
    }
}

/// The risk level of a fixed-point score: LOW from 0.75, MEDIUM from 0.55,
/// HIGH from 0.35, CRITICAL below.
pub fn classify_risk(score: u64) -> (r: RiskLevel)
    ensures
        r == risk_of(score as nat),
{
    if score >= 2_250_000_000_000_000 {
        RiskLevel::Low
    } else if score >= 1_650_000_000_000_000 {
        RiskLevel::Medium
    } else if score >= 1_050_000_000_000_000 {
        RiskLevel::High
    } else {
        RiskLevel::Critical
    }
}

/// Appends `parts` joined by `sep`.
fn append_joined(s: &mut String, parts: &Vec<&str>, sep: &str)
    ensures
        final(s)@ == old(s)@ + join(parts@.map_values(|p: &str| p@), sep@),
{
    let ghost views = parts@.map_values(|p: &str| p@);
    let ghost start = s@;
    let mut i: usize = 0;
    while i < parts.len()
        invariant
            i <= parts@.len(),
            views == parts@.map_values(|p: &str| p@),
            s@ == start + join(views.take(i as int), sep@),
        decreases parts@.len() - i,
    {
        assert(views.take(i + 1).drop_last() =~= views.take(i as int));
        if i > 0 {
            s.append(sep);
        }
        s.append(parts[i]);
        i += 1;
    }
    assert(views.take(parts@.len() as int) =~= views);
}

fn explain_score(claim: &Claim, signals: &ScoreSignals, risk: &RiskLevel) -> (e: String)
    requires
        *signals == claim_signals(*claim),
    ensures
        e@ == claim_explanation(*claim, *signals, *risk),
{
    let mut reasons: Vec<&str> = Vec::new();
    if signals.confidence < 1_500_000_000_000_000 {
        reasons.push("overconfident language without hedging");
    }
    if claim.is_hedged {
        reasons.push("appropriately hedged");
    }
    if claim.is_verifiable && !claim.is_hedged {
        reasons.push("specific verifiable claim — verify independently");
    }
    if claim.specificity < 900_000_000_000_000 {
        reasons.push("vague claim with low specificity");
    }
    if claim.specificity > 1_800_000_000_000_000 {
        reasons.push("highly specific claim");
    }
    if reasons.len() == 0 {
        reasons.push("no strong signals detected");
    }
    assert(reasons@.map_values(|p: &str| p@) =~= claim_reasons(*claim, *signals));
    let mut e = String::from_str("[");
    let label = risk.label();
    e.append(label.as_str());
    e.append("] Trust: ");
    append_ratio(&mut e, signals.confidence as u128 * 100, SCALE as u128, 0);
    e.append("% — ");
    append_joined(&mut e, &reasons, "; ");
    e
}

/// Score a single claim for hallucination risk.
pub fn score_claim(claim: &Claim) -> (t: TrustScore)
    ensures
        t.signals == claim_signals(*claim),
        t.score == claim_score(*claim),
        t.score <= SCALE,
        t.risk_level == risk_of(t.score as nat),
        t.explanation@ == claim_explanation(*claim, t.signals, t.risk_level),
{
    let signals = compute_signals(claim);
    let score = aggregate_score(&signals);
    let risk_level = classify_risk(score);
    let explanation = explain_score(claim, &signals, &risk_level);
    TrustScore { score, signals, risk_level, explanation }
}

proof fn lemma_take_step<A>(s: Seq<A>, i: int)
    requires
        0 <= i < s.len(),
    ensures
        s.take(i + 1).drop_last() == s.take(i),
        s.take(i + 1).last() == s[i],
        s.take(i + 1).len() == i + 1,
{
    assert(s.take(i + 1).drop_last() =~= s.take(i));
}

proof fn lemma_div_bound(sum: u128, n: u128)
    requires
        n > 0,
        sum <= n * (u64::MAX as u128),
    ensures
        sum / n <= u64::MAX,
{
    assert(sum / n <= u64::MAX) by (nonlinear_arith)
        requires
            n > 0,
            sum <= n * (u64::MAX as u128),
    ;
}

/// Score an entire passage by aggregating claim-level scores.
///
/// The passage score is 70% of the average claim score plus 30% of the
/// worst claim score, so that one highly suspicious claim drags the whole
/// passage down.
pub fn score_passage(claims: &[Claim]) -> (t: TrustScore)
    ensures
        t.score == passage_score(claims@),
        t.score <= SCALE,
        claims@.len() == 0 ==> t.risk_level == RiskLevel::Medium,
        claims@.len() > 0 ==> t.risk_level == risk_of(t.score as nat),
        claims@.len() == 0 ==> t.signals == neutral_signals() && t.explanation@
            == "No claims to analyze."@,
        claims@.len() > 0 ==> t.signals == passage_signals(claims@) && t.explanation@
            == passage_explanation(claims@),
{
    if claims.len() == 0 {
        return TrustScore {
            score: 1_500_000_000_000_000,
            signals: ScoreSignals {
                confidence: 1_500_000_000_000_000,
                specificity: 1_500_000_000_000_000,
                hedging: 1_500_000_000_000_000,
                verifiability: 1_500_000_000_000_000,
                consistency: None,
            },
            risk_level: RiskLevel::Medium,
            explanation: String::from_str("No claims to analyze."),
        };
    }
    let n = claims.len();
    let ghost cs = claims@;
    let mut sum_score: u128 = 0;
    let mut min_score: u64 = 0;
    let mut sum_conf: u128 = 0;
    let mut sum_spec: u128 = 0;
    let mut sum_hedge: u128 = 0;
    let mut sum_verif: u128 = 0;
    let mut n_high_risk: u64 = 0;
    let mut i: usize = 0;
    while i < n
        invariant
            n == cs.len(),
            cs == claims@,
            n > 0,
            i <= n,
            sum_score == sum_by(cs.take(i as int), score_of_claim()),
            i > 0 ==> min_score == min_by(cs.take(i as int), score_of_claim()),
            sum_conf == sum_by(cs.take(i as int), confidence_of()),
            sum_spec == sum_by(cs.take(i as int), specificity_of()),
            sum_hedge == sum_by(cs.take(i as int), hedging_of()),
            sum_verif == sum_by(cs.take(i as int), verifiability_of()),
            n_high_risk == count_by(cs.take(i as int), high_risk()),
            sum_score <= i * 3_000_000_000_000_000,
            sum_conf <= i * (u64::MAX as u128),
            sum_spec <= i * (u64::MAX as u128),
            sum_hedge <= i * (u64::MAX as u128),
            sum_verif <= i * (u64::MAX as u128),
            n_high_risk <= i,
        decreases n - i,
    {
        proof {
            lemma_take_step(cs, i as int);
        }
        let t = score_claim(&claims[i]);
        sum_score = sum_score + t.score as u128;
        if i == 0 || t.score < min_score {
            min_score = t.score;
        }
        sum_conf = sum_conf + t.signals.confidence as u128;
        sum_spec = sum_spec + t.signals.specificity as u128;
        sum_hedge = sum_hedge + t.signals.hedging as u128;
        sum_verif = sum_verif + t.signals.verifiability as u128;
        if t.score < 1_650_000_000_000_000 {
            n_high_risk = n_high_risk + 1;
        }
        i += 1;
    }
    assert(cs.take(n as int) =~= cs);
    proof {
        lemma_div_bound(sum_conf, n as u128);
        lemma_div_bound(sum_spec, n as u128);
        lemma_div_bound(sum_hedge, n as u128);
        lemma_div_bound(sum_verif, n as u128);
    }
    proof {
        assert(7 * sum_score + 3 * (n as u128) * (min_score as u128) <= 10 * n * 3_000_000_000_000_000) by (nonlinear_arith)
            requires
                sum_score <= n * 3_000_000_000_000_000,
                min_score <= 3_000_000_000_000_000,
        ;
        assert(10 * n * 3_000_000_000_000_000 <= 0x1_0000_0000_0000_0000_0000_0000_0000_0000) by (nonlinear_arith)
            requires
                n <= usize::MAX,
        ;
    }
    let raw: u128 = (7 * sum_score + 3 * (n as u128) * (min_score as u128)) / (10 * (n as u128));
    let score: u64 = if raw > SCALE as u128 {
        SCALE
    } else {
        raw as u64
    };
    let signals = ScoreSignals {
        confidence: (sum_conf / (n as u128)) as u64,
        specificity: (sum_spec / (n as u128)) as u64,
        hedging: (sum_hedge / (n as u128)) as u64,
        verifiability: (sum_verif / (n as u128)) as u64,
        consistency: None,
    };
    let risk_level = classify_risk(score);
    let mut explanation = String::new();
    append_decimal(&mut explanation, n as u64);
    explanation.append(" claims analyzed. ");
    append_decimal(&mut explanation, n_high_risk);
    explanation.append(" high-risk claims detected. Average trust: ");
    append_ratio(&mut explanation, score as u128 * 100, SCALE as u128, 0);
    explanation.append("%.");
    TrustScore { score, signals, risk_level, explanation }
}

// ── Laws ────────────────────────────────────────────────────────────────

/// The largest value of `f` over a non-empty `s`.
pub open spec fn max_by<A>(s: Seq<A>, f: spec_fn(A) -> nat) -> nat
    decreases s.len(),
{
    if s.len() <= 1 {
        f(s[0])
    } else {
        let m = max_by(s.drop_last(), f);
        let x = f(s.last());
        if x > m {
            x
        } else {
            m
        }
    }
}

/// The value that an absent consistency signal stands for.
pub open spec fn consistency_value(s: ScoreSignals) -> nat {
    match s.consistency {
        Some(v) => v as nat,
        None => (SCALE / 2) as nat,
    }
}

proof fn lemma_min_max_bounds<A>(s: Seq<A>, f: spec_fn(A) -> nat, i: int)
    requires
        0 <= i < s.len(),
    ensures
        min_by(s, f) <= f(s[i]) <= max_by(s, f),
    decreases s.len(),
{
    if s.len() > 1 && i < s.len() - 1 {
        lemma_min_max_bounds(s.drop_last(), f, i);
    }
}

proof fn lemma_sum_between<A>(s: Seq<A>, f: spec_fn(A) -> nat)
    requires
        s.len() > 0,
    ensures
        s.len() * min_by(s, f) <= sum_by(s, f) <= s.len() * max_by(s, f),
    decreases s.len(),
{
    if s.len() == 1 {
        assert(sum_by(s.drop_last(), f) == 0);
        assert(sum_by(s, f) == f(s[0]));
        assert(s.len() * min_by(s, f) == min_by(s, f));
        assert(s.len() * max_by(s, f) == max_by(s, f));
    } else {
        let d = s.drop_last();
        lemma_sum_between(d, f);
        lemma_min_max_bounds(s, f, s.len() - 1);
        assert(sum_by(s, f) == sum_by(d, f) + f(s[s.len() - 1]));
        assert(min_by(s, f) <= min_by(d, f));
        assert(max_by(s, f) >= max_by(d, f));
        assert(d.len() * min_by(s, f) <= d.len() * min_by(d, f)) by (nonlinear_arith)
            requires
                min_by(s, f) <= min_by(d, f),
        ;
        assert(d.len() * max_by(s, f) >= d.len() * max_by(d, f)) by (nonlinear_arith)
            requires
                max_by(s, f) >= max_by(d, f),
        ;
        assert(s.len() * min_by(s, f) == d.len() * min_by(s, f) + min_by(s, f)) by (
        nonlinear_arith)
            requires
                s.len() == d.len() + 1,
        ;
        assert(s.len() * max_by(s, f) == d.len() * max_by(s, f) + max_by(s, f)) by (
        nonlinear_arith)
            requires
                s.len() == d.len() + 1,
        ;
    }
}

proof fn lemma_scores_bounded(s: Seq<Claim>)
    requires
        s.len() > 0,
    ensures
        max_by(s, score_of_claim()) <= SCALE,
    decreases s.len(),
{
    if s.len() > 1 {
        lemma_scores_bounded(s.drop_last());
    }
}

/// Passage bounds: a passage with claims scores at least its worst claim and
/// at most its best claim, and never more than 1.0.
pub proof fn law_passage_between_worst_and_best(cs: Seq<Claim>)
    requires
        cs.len() > 0,
    ensures
        min_by(cs, score_of_claim()) <= passage_score(cs),
        passage_score(cs) <= max_by(cs, score_of_claim()),
        passage_score(cs) <= SCALE,
{
    let f = score_of_claim();
    let n = cs.len();
    let lo = min_by(cs, f);
    let hi = max_by(cs, f);
    let sum = sum_by(cs, f);
    lemma_sum_between(cs, f);
    lemma_scores_bounded(cs);
    lemma_min_max_bounds(cs, f, 0);
    assert(lo <= (7 * sum + 3 * n * lo) / (10 * n) <= hi) by (nonlinear_arith)
        requires
            n > 0,
            n * lo <= sum <= n * hi,
    ;
}

/// Aggregation bounds: the aggregate of any signals lies in `[0, 1]`, and
/// signals that are all 1.0 aggregate to exactly 1.0.
pub proof fn law_aggregate_bounds(s: ScoreSignals)
    ensures
        aggregate(s) <= SCALE,
        aggregate(
            ScoreSignals {
                confidence: SCALE,
                specificity: SCALE,
                hedging: SCALE,
                verifiability: SCALE,
                consistency: Some(SCALE),
            },
        ) == SCALE,
{
}

/// Hedged claims are well calibrated: every hedged claim has confidence
/// signal 0.8, whatever its specificity and verifiability, so its
/// explanation reports no overconfident language: the first reason it gives
/// is that the claim is appropriately hedged.
pub proof fn law_hedged_claims_calibrated(c: Claim)
    requires
        c.is_hedged,
    ensures
        5 * claim_signals(c).confidence == 4 * SCALE,
        claim_reasons(c, claim_signals(c))[0] == "appropriately hedged"@,
{
}

/// Score bounds: every claim score lies in `[0, SCALE]`.
pub proof fn law_claim_score_bounded(c: Claim)
    ensures
        claim_score(c) <= SCALE,
{
}

/// Monotonicity: improving any signal (and worsening none) never lowers the
/// aggregated score.
pub proof fn law_signals_monotone(a: ScoreSignals, b: ScoreSignals)
    requires
        a.confidence <= b.confidence,
        a.hedging <= b.hedging,
        a.specificity <= b.specificity,
        a.verifiability <= b.verifiability,
        consistency_value(a) <= consistency_value(b),
    ensures
        aggregate(a) <= aggregate(b),
{
    let ka = consistency_value(a);
    let kb = consistency_value(b);
    let ra = W_CONFIDENCE * a.confidence + W_HEDGING * a.hedging + W_SPECIFICITY * a.specificity
        + W_VERIFIABILITY * a.verifiability + W_CONSISTENCY * ka;
    let rb = W_CONFIDENCE * b.confidence + W_HEDGING * b.hedging + W_SPECIFICITY * b.specificity
        + W_VERIFIABILITY * b.verifiability + W_CONSISTENCY * kb;
    assert(ra <= rb);
    assert(ra / 100 <= rb / 100) by (nonlinear_arith)
        requires
            ra <= rb,
    ;
}

/// The weights of the five signals add up to 100%.
pub proof fn law_weights_sum_to_one()
    ensures
        W_CONFIDENCE + W_HEDGING + W_SPECIFICITY + W_VERIFIABILITY + W_CONSISTENCY == 100,
{
}

/// Hedging is rewarded: of two claims that differ only in hedging, the
/// hedged one never scores lower.
pub proof fn law_hedging_never_lowers_score(plain: Claim, hedged: Claim)
    requires
        !plain.is_hedged,
        hedged.is_hedged,
        plain.specificity == hedged.specificity,
        plain.is_verifiable == hedged.is_verifiable,
    ensures
        claim_score(plain) <= claim_score(hedged),
{
    law_signals_monotone(claim_signals(plain), claim_signals(hedged));
}

/// Adding a claim that scores at least the current average never lowers the
/// average claim score (compared exactly, as fractions).
pub proof fn law_good_claim_keeps_average(cs: Seq<Claim>, c: Claim)
    requires
        cs.len() > 0,
        claim_score(c) * cs.len() >= sum_by(cs, score_of_claim()),
    ensures
        sum_by(cs.push(c), score_of_claim()) * cs.len() >= sum_by(cs, score_of_claim()) * (cs.len()
            + 1),
{
    let f = score_of_claim();
    let n = cs.len();
    let sum = sum_by(cs, f);
    assert(cs.push(c).drop_last() =~= cs);
    assert(sum_by(cs.push(c), f) == sum + claim_score(c));
    let x = claim_score(c);
    assert((sum + x) * n >= sum * (n + 1)) by (nonlinear_arith)
        requires
            x * n >= sum,
    ;
}

/// Adding a claim that scores at least as well as every claim of a passage
/// never lowers the passage score.
pub proof fn law_good_claim_keeps_passage(cs: Seq<Claim>, c: Claim)
    requires
        cs.len() > 0,
        claim_score(c) >= max_by(cs, score_of_claim()),
    ensures
        passage_score(cs.push(c)) >= passage_score(cs),
{
    let f = score_of_claim();
    let n = cs.len();
    let sum = sum_by(cs, f);
    let lo = min_by(cs, f);
    let x = claim_score(c);
    let d = cs.push(c);
    assert(d.drop_last() =~= cs);
    assert(d.last() == c);
    assert(sum_by(d, f) == sum + x);
    lemma_sum_between(cs, f);
    lemma_min_max_bounds(cs, f, 0);
    assert(min_by(d, f) == lo);
    lemma_scores_bounded(cs);
    lemma_scores_bounded(d);
    let hi = max_by(cs, f);
    assert(n * x >= n * hi) by (nonlinear_arith)
        requires
            x >= hi,
    ;
    let a = 7 * sum + 3 * n * lo;
    let b = 7 * (sum + x) + 3 * (n + 1) * lo;
    assert(a * (10 * (n + 1)) <= b * (10 * n)) by (nonlinear_arith)
        requires
            x >= lo,
            n * x >= sum,
            a == 7 * sum + 3 * n * lo,
            b == 7 * (sum + x) + 3 * (n + 1) * lo,
    ;
    lemma_div_monotone(a as nat, b as nat, (10 * n) as nat, (10 * (n + 1)) as nat);
}

proof fn lemma_div_monotone(a: nat, b: nat, d1: nat, d2: nat)
    requires
        d1 > 0,
        d2 > 0,
        a * d2 <= b * d1,
    ensures
        a / d1 <= b / d2,
{
    let q = a / d1;
    assert(q * d1 <= a) by (nonlinear_arith)
        requires
            q == a / d1,
            d1 > 0,
    ;
    assert(q * d2 <= b) by (nonlinear_arith)
        requires
            q * d1 <= a,
            a * d2 <= b * d1,
            d1 > 0,
            d2 > 0,
    ;
    assert(q <= b / d2) by (nonlinear_arith)
        requires
            q * d2 <= b,
            d2 > 0,
    ;
}

proof fn lemma_sum_remove<A>(s: Seq<A>, f: spec_fn(A) -> nat, j: int)
    requires
        0 <= j < s.len(),
    ensures
        sum_by(s, f) == sum_by(s.remove(j), f) + f(s[j]),
    decreases s.len(),
{
    if j == s.len() - 1 {
        assert(s.remove(j) =~= s.drop_last());
    } else {
        let d = s.drop_last();
        lemma_sum_remove(d, f, j);
        assert(s.remove(j).drop_last() =~= d.remove(j));
        assert(s.remove(j).last() == s.last());
    }
}

proof fn lemma_min_remove<A>(s: Seq<A>, f: spec_fn(A) -> nat, j: int)
    requires
        0 <= j < s.len(),
        s.len() >= 2,
    ensures
        min_by(s, f) == if f(s[j]) < min_by(s.remove(j), f) {
            f(s[j])
        } else {
            min_by(s.remove(j), f)
        },
    decreases s.len(),
{
    if j == s.len() - 1 {
        assert(s.remove(j) =~= s.drop_last());
    } else {
        let d = s.drop_last();
        let r = s.remove(j);
        assert(r.drop_last() =~= d.remove(j));
        assert(r.last() == s.last());
        assert(d[j] == s[j]);
        if d.len() >= 2 {
            lemma_min_remove(d, f, j);
            assert(r.len() >= 2);
            assert(min_by(r, f) == if f(s.last()) < min_by(d.remove(j), f) {
                f(s.last())
            } else {
                min_by(d.remove(j), f)
            });
            assert(min_by(s, f) == if f(s.last()) < min_by(d, f) {
                f(s.last())
            } else {
                min_by(d, f)
            });
        } else {
            assert(r =~= seq![s.last()]);
            assert(min_by(r, f) == f(s.last()));
            assert(min_by(d, f) == f(s[0]));
        }
    }
}

proof fn lemma_multiset_step<A>(s1: Seq<A>, s2: Seq<A>) -> (j: int)
    requires
        s1.len() > 0,
        s1.to_multiset() =~= s2.to_multiset(),
    ensures
        0 <= j < s2.len(),
        s2[j] == s1.last(),
        s1.drop_last().to_multiset() =~= s2.remove(j).to_multiset(),
{
    broadcast use vstd::multiset::group_multiset_axioms;

    let x = s1.last();
    let d = s1.drop_last();
    d.to_multiset_ensures();
    s2.to_multiset_ensures();
    assert(d.push(x) =~= s1);
    assert(s1.to_multiset() =~= d.to_multiset().insert(x));
    assert(s1.to_multiset().count(x) > 0);
    assert(s2.contains(x));
    let j = choose|j: int| 0 <= j < s2.len() && s2[j] == x;
    assert(s2.remove(j).to_multiset() =~= s2.to_multiset().remove(s2[j]));
    assert(d.to_multiset() =~= d.to_multiset().insert(x).remove(x));
    j
}

proof fn lemma_sum_permutation<A>(s1: Seq<A>, s2: Seq<A>, f: spec_fn(A) -> nat)
    requires
        s1.to_multiset() =~= s2.to_multiset(),
    ensures
        sum_by(s1, f) == sum_by(s2, f),
    decreases s1.len(),
{
    s1.to_multiset_ensures();
    s2.to_multiset_ensures();
    if s1.len() == 0 {
        assert(s2.to_multiset().len() == 0);
        assert(s2.len() == 0);
    } else {
        let j = lemma_multiset_step(s1, s2);
        lemma_sum_permutation(s1.drop_last(), s2.remove(j), f);
        lemma_sum_remove(s2, f, j);
    }
}

proof fn lemma_min_permutation<A>(s1: Seq<A>, s2: Seq<A>, f: spec_fn(A) -> nat)
    requires
        s1.len() > 0,
        s1.to_multiset() =~= s2.to_multiset(),
    ensures
        min_by(s1, f) == min_by(s2, f),
    decreases s1.len(),
{
    s1.to_multiset_ensures();
    s2.to_multiset_ensures();
    let j = lemma_multiset_step(s1, s2);
    assert(s1.len() == s2.len());
    if s1.len() == 1 {
        assert(s2[0] == s1[0]);
    } else {
        lemma_min_permutation(s1.drop_last(), s2.remove(j), f);
        lemma_min_remove(s2, f, j);
    }
}

/// Order independence: reordering the claims of a passage does not change
/// its score.
pub proof fn law_passage_order_independent(cs1: Seq<Claim>, cs2: Seq<Claim>)
    requires
        cs1.to_multiset() == cs2.to_multiset(),
    ensures
        passage_score(cs1) == passage_score(cs2),
{
    cs1.to_multiset_ensures();
    cs2.to_multiset_ensures();
    assert(cs1.len() == cs2.len());
    lemma_sum_permutation(cs1, cs2, score_of_claim());
    if cs1.len() > 0 {
        lemma_min_permutation(cs1, cs2, score_of_claim());
    }
}

} // verus!
