//! TruthLens: hallucination-risk analysis of AI-generated text.
//!
//! A passage is split into claims, each claim is scored on linguistic
//! signals, the scores are composed into a passage score, and the shape of
//! the confidence trajectory and (optionally) entity verification adjust it.
//! Scores are fixed-point integers: `format::SCALE` stands for 1.0.

pub mod claim;
pub mod consistency;
pub mod display;
pub mod entity;
pub mod format;
pub mod patterns;
pub mod scorer;
pub mod text;
pub mod trajectory;

pub use claim::{extract_claims, Claim};
pub use consistency::{check_consistency, ConsistencyReport, Contradiction};
pub use scorer::{score_claim, score_passage, RiskLevel, TrustScore};
pub use trajectory::{analyze_trajectory, TrajectoryAnalysis, TrajectoryPattern};

use vstd::prelude::*;
use crate::claim::{is_claim_of, kept_sentences, sentences};
use crate::entity::{compute_verification_modifier, verification_modifier, verify_claim, VerificationResult};
use crate::display::{signed_label, signed_text};
use crate::format::SCALE;
use crate::scorer::{
    claim_explanation, claim_score, claim_signals, classify_risk, count_by, high_risk, min_by,
    passage_explanation, passage_score, risk_of, score_of_claim, sum_by,
};
use crate::trajectory::{
    damping_of, level_values, modifier_of, pattern_of, pattern_text, trajectory_explanation, transitions_of,
    MAX_CLAIMS,
};

verus! {

/// Analysis report for a single claim.
#[derive(Debug, Clone)]
pub struct ClaimReport {
    /// The claim text
    pub text: String,
    /// Trust score for this claim
    pub trust: TrustScore,
    /// Entity verification result, when verification was asked for
    pub verification: Option<VerificationResult>,
}

/// Full analysis report for a text passage.
#[derive(Debug, Clone)]
pub struct TrustReport {
    /// Overall trust score, fixed-point (0 = likely hallucinated, `SCALE` = likely factual)
    pub score: u64,
    /// Risk level classification
    pub risk_level: RiskLevel,
    /// Human-readable summary
    pub summary: String,
    /// Per-claim breakdown
    pub claims: Vec<ClaimReport>,
    /// Confidence trajectory analysis
    pub trajectory: TrajectoryAnalysis,
    /// Total number of claims analyzed
    pub total_claims: usize,
    /// Number of high-risk claims
    pub high_risk_claims: usize,
}

// ── Specification ───────────────────────────────────────────────────────

/// `cs` are the claims that `extract_claims` finds in `text`.
pub open spec fn claims_of_text(text: Seq<char>, cs: Seq<Claim>) -> bool {
    let ss = sentences(text);
    let kept = kept_sentences(ss);
    &&& cs.len() == kept.len()
    &&& forall|j: int| 0 <= j < cs.len() ==> is_claim_of(#[trigger] cs[j], ss[kept[j]], kept[j])
}

/// `t` is the trust score of claim `c`.
pub open spec fn scores_claim(t: TrustScore, c: Claim) -> bool {
    &&& t.signals == claim_signals(c)
    &&& t.score == claim_score(c)
    &&& t.risk_level == risk_of(t.score as nat)
    &&& t.explanation@ == claim_explanation(c, t.signals, t.risk_level)
}

/// `base + delta`, clamped to `[0, SCALE]`.
pub open spec fn adjusted_score(base: int, delta: int) -> nat {
    let s = base + delta;
    if s < 0 {
        0
    } else if s > SCALE {
        SCALE as nat
    } else {
        s as nat
    }
}

/// The passage explanation, including the case of a passage without claims.
pub open spec fn passage_text(cs: Seq<Claim>) -> Seq<char> {
    if cs.len() == 0 {
        "No claims to analyze."@
    } else {
        passage_explanation(cs)
    }
}

/// The summary of a report: the passage explanation and the trajectory
/// pattern.
pub open spec fn summary_text(cs: Seq<Claim>) -> Seq<char> {
    passage_text(cs) + " Trajectory: "@ + pattern_text(pattern_of(cs))
}

/// `r` reports on the claims `cs`, with the score moved by `extra` besides
/// the trajectory modifier.
pub open spec fn reports_claims(r: TrustReport, cs: Seq<Claim>, extra: int) -> bool {
    &&& r.total_claims == cs.len()
    &&& r.claims@.len() == cs.len()
    &&& forall|j: int|
        0 <= j < cs.len() ==> (#[trigger] r.claims@[j]).text@ == cs[j].text@ && scores_claim(
            r.claims@[j].trust,
            cs[j],
        )
    &&& r.score == adjusted_score(passage_score(cs) as int, modifier_of(pattern_of(cs)) + extra)
    &&& r.risk_level == risk_of(r.score as nat)
    &&& r.high_risk_claims == count_by(cs, high_risk())
    &&& r.trajectory.pattern == pattern_of(cs)
    &&& r.trajectory.transitions == transitions_of(cs)
    &&& r.trajectory.damping_estimate == damping_of(r.trajectory.pattern, r.trajectory.transitions as nat)
    &&& r.trajectory.trust_modifier == modifier_of(r.trajectory.pattern)
    &&& r.trajectory.explanation@ == trajectory_explanation(cs)
}

// ── Building reports ────────────────────────────────────────────────────

/// The verification given for claim `j`, if any were given.
pub open spec fn verification_at(given: Option<Vec<VerificationResult>>, j: int) -> Option<
    VerificationResult,
> {
    match given {
        Some(v) => Some(v@[j]),
        None => None,
    }
}

/// `rest` holds the verifications given for the claims from `i` on.
pub open spec fn rest_of(
    given: Option<Vec<VerificationResult>>,
    rest: Option<Vec<VerificationResult>>,
    n: int,
    i: int,
) -> bool {
    match given {
        Some(v) => v@.len() == n && match rest {
            Some(w) => w@ == v@.skip(i),
            None => false,
        },
        None => rest is None,
    }
}

/// A claim report whose verification found nothing: the claim is kept, no
/// entity matched, and the status is unknown.
pub open spec fn unverified_report(c: ClaimReport) -> bool {
    match c.verification {
        Some(v) => v.claim_text@ == c.text@ && v.matches@.len() == 0 && v.status
            == entity::VerificationStatus::Unknown,
        None => false,
    }
}

/// The per-claim reports, each with the verification taken from
/// `verifications` when it is given.
fn claim_reports(claims: &[Claim], verifications: Option<Vec<VerificationResult>>) -> (r: (
    Vec<ClaimReport>,
    usize,
))
    requires
        verifications matches Some(v) ==> v@.len() == claims@.len(),
    ensures
        r.0@.len() == claims@.len(),
        forall|j: int|
            0 <= j < claims@.len() ==> (#[trigger] r.0@[j]).text@ == claims@[j].text@
                && scores_claim(r.0@[j].trust, claims@[j]),
        forall|j: int|
            0 <= j < claims@.len() ==> (#[trigger] r.0@[j]).verification == verification_at(
                verifications,
                j,
            ),
        r.1 == count_by(claims@, high_risk()),
{
    let ghost cs = claims@;
    let ghost given = verifications;
    let mut rest = verifications;
    let mut reports: Vec<ClaimReport> = Vec::new();
    let mut n_high: usize = 0;
    let mut i: usize = 0;
    proof {
        match given {
            Some(v) => {
                assert(v@.skip(0) =~= v@);
            },
            None => {},
        }
    }
    while i < claims.len()
        invariant
            cs == claims@,
            i <= cs.len(),
            reports@.len() == i,
            n_high <= i,
            n_high == count_by(cs.take(i as int), high_risk()),
            rest_of(given, rest, cs.len() as int, i as int),
            forall|j: int|
                0 <= j < i ==> (#[trigger] reports@[j]).text@ == cs[j].text@ && scores_claim(
                    reports@[j].trust,
                    cs[j],
                ),
            forall|j: int|
                0 <= j < i ==> (#[trigger] reports@[j]).verification == verification_at(given, j),
        decreases cs.len() - i,
    {
        assert(cs.take(i + 1).drop_last() =~= cs.take(i as int));
        let c = &claims[i];
        let trust = score_claim(c);
        if trust.score < 1_650_000_000_000_000 {
            n_high = n_high + 1;
        }
        let verification = match rest {
            Some(mut w) => {
                let v = w.remove(0);
                rest = Some(w);
                Some(v)
            },
            None => None,
        };
        proof {
            match given {
                Some(v) => {
                    assert(v@.skip(i as int).drop_first() =~= v@.skip(i + 1));
                },
                None => {},
            }
        }
        reports.push(ClaimReport { text: c.text.clone(), trust, verification });
        i += 1;
    }
    assert(cs.take(cs.len() as int) =~= cs);
    (reports, n_high)
}

/// The report on `claims`: the passage score moved by the trajectory
/// modifier and by `extra`, clamped to `[0, 1]`.
fn build_report(
    claims: &[Claim],
    verifications: Option<Vec<VerificationResult>>,
    extra: i64,
    summary_tail: String,
) -> (r: TrustReport)
    requires
        claims@.len() <= MAX_CLAIMS,
        verifications matches Some(v) ==> v@.len() == claims@.len(),
        -450_000_000_000_000 <= extra <= 450_000_000_000_000,
    ensures
        reports_claims(r, claims@, extra as int),
        forall|j: int|
            0 <= j < claims@.len() ==> (#[trigger] r.claims@[j]).verification == verification_at(
                verifications,
                j,
            ),
        r.summary@ == summary_text(claims@) + summary_tail@,
{
    let (reports, high) = claim_reports(claims, verifications);
    let passage = score_passage(claims);
    let traj = analyze_trajectory(claims);
    let raw: i64 = passage.score as i64 + traj.trust_modifier + extra;
    let score: u64 = if raw < 0 {
        0
    } else if raw > SCALE as i64 {
        SCALE
    } else {
        raw as u64
    };
    let risk_level = classify_risk(score);
    let mut summary = passage.explanation;
    summary.append(" Trajectory: ");
    let pattern = traj.pattern.description();
    summary.append(pattern.as_str());
    summary.append(summary_tail.as_str());
    TrustReport {
        score,
        risk_level,
        summary,
        total_claims: reports.len(),
        high_risk_claims: high,
        claims: reports,
        trajectory: traj,
    }
}

/// The number of claims that `extract_claims` finds in `text`.
pub open spec fn claim_count(text: Seq<char>) -> nat {
    kept_sentences(sentences(text)).len()
}

/// Analyze a text passage for hallucination risk.
///
/// Extracts the claims of the text, scores each of them, aggregates the
/// scores into a passage score, moves it by the trajectory modifier, and
/// reports all of it.
pub fn analyze(text: &str) -> (r: TrustReport)
    requires
        claim_count(text@) <= MAX_CLAIMS,
    ensures
        exists|cs: Seq<Claim>|
            claims_of_text(text@, cs) && reports_claims(r, cs, 0) && r.summary@ == summary_text(cs),
        forall|j: int| 0 <= j < r.claims@.len() ==> (#[trigger] r.claims@[j]).verification is None,
{
    let claims = extract_claims(text);
    let r = build_report(claims.as_slice(), None, 0, String::new());
    assert(claims_of_text(text@, claims@));
    assert(r.summary@ =~= summary_text(claims@));
    r
}

/// The summary tail that reports a verification modifier.
pub open spec fn verification_tail(m: int) -> Seq<char> {
    " | Verification modifier: "@ + signed_text(m)
}

fn modifier_text(m: i64) -> (s: String)
    requires
        -450_000_000_000_000 <= m <= 450_000_000_000_000,
    ensures
        s@ == verification_tail(m as int),
{
    let mut s = String::from_str(" | Verification modifier: ");
    let label = signed_label(m);
    s.append(label.as_str());
    s
}

/// The report on `claims` with one verification result per claim: the
/// passage score is moved by the trajectory modifier and by the
/// verification modifier of the results.
pub fn report_with_verification(claims: &[Claim], verifications: Vec<VerificationResult>) -> (r:
    TrustReport)
    requires
        claims@.len() <= MAX_CLAIMS,
        verifications@.len() == claims@.len(),
    ensures
        reports_claims(r, claims@, verification_modifier(verifications@)),
        forall|j: int|
            0 <= j < claims@.len() ==> (#[trigger] r.claims@[j]).verification == Some(
                verifications@[j],
            ),
        r.summary@ == summary_text(claims@) + verification_tail(
            verification_modifier(verifications@),
        ),
{
    let m = compute_verification_modifier(verifications.as_slice());
    let tail = modifier_text(m);
    build_report(claims, Some(verifications), m, tail)
}

/// Analyze text with entity verification.
///
/// Like `analyze`, but every claim also carries the result of
/// `entity::verify_claim`, and the verification modifier of those results
/// moves the score by up to ±0.15.
pub fn analyze_with_verification(text: &str) -> (r: TrustReport)
    requires
        claim_count(text@) <= MAX_CLAIMS,
    ensures
        exists|cs: Seq<Claim>|
            claims_of_text(text@, cs) && {
                &&& reports_claims(r, cs, 0)
                &&& r.summary@ == summary_text(cs) + verification_tail(0)
            },
        forall|j: int|
            0 <= j < r.claims@.len() ==> unverified_report(#[trigger] r.claims@[j]),
{
    let claims = extract_claims(text);
    let mut verifications: Vec<VerificationResult> = Vec::new();
    let mut i: usize = 0;
    while i < claims.len()
        invariant
            i <= claims@.len(),
            verifications@.len() == i,
            forall|j: int|
                0 <= j < i ==> (#[trigger] verifications@[j]).claim_text@ == claims@[j].text@
                    && verifications@[j].matches@.len() == 0 && verifications@[j].status
                    == entity::VerificationStatus::Unknown,
        decreases claims@.len() - i,
    {
        verifications.push(verify_claim(claims[i].text.as_str()));
        i += 1;
    }
    proof {
        lemma_no_verified_modifier(verifications@);
    }
    let ghost vs = verifications@;
    let r = report_with_verification(claims.as_slice(), verifications);
    assert(claims_of_text(text@, claims@));
    r
}

proof fn lemma_no_verified_modifier(vs: Seq<VerificationResult>)
    requires
        forall|j: int| 0 <= j < vs.len() ==> (#[trigger] vs[j]).status == entity::VerificationStatus::Unknown,
    ensures
        verification_modifier(vs) == 0,
{
    entity::lemma_all_status(vs, entity::VerificationStatus::Unknown, entity::VerificationStatus::Verified);
    entity::lemma_all_status(
        vs,
        entity::VerificationStatus::Unknown,
        entity::VerificationStatus::Contradicted,
    );
}

// ── Laws of the report score ────────────────────────────────────────────

/// Adjusted score bounded: whatever the modifiers, the reported score stays
/// within `[0, 1]` after clamping.
pub proof fn law_adjusted_score_bounded(base: int, delta: int)
    ensures
        0 <= adjusted_score(base, delta) <= SCALE,
{
}

/// Both modifiers together: a passage score in `[0, 1]`, moved by a
/// trajectory modifier and a verification modifier of at most ±0.15 each,
/// stays within `[0, 1]`, and moves by no more than the two modifiers.
pub proof fn law_adjusted_score_with_both(base: int, trajectory: int, verification: int)
    requires
        0 <= base <= SCALE,
        -450_000_000_000_000 <= trajectory <= 450_000_000_000_000,
        -450_000_000_000_000 <= verification <= 450_000_000_000_000,
    ensures
        0 <= adjusted_score(base, trajectory + verification) <= SCALE,
        base - 900_000_000_000_000 <= adjusted_score(base, trajectory + verification) <= base + 900_000_000_000_000,
{
}

/// Verification moves the score by at most ±0.15: the report with a
/// verification modifier differs from the one without it by no more than
/// the modifier's bound.
pub proof fn law_verification_moves_score_at_most(base: int, trajectory: int, verification: int)
    requires
        -450_000_000_000_000 <= verification <= 450_000_000_000_000,
    ensures
        adjusted_score(base, trajectory) - 450_000_000_000_000 <= adjusted_score(base, trajectory + verification)
            <= adjusted_score(base, trajectory) + 450_000_000_000_000,
{
}

/// A verification that finds nothing leaves the score as it is.
pub proof fn law_unknown_verification_neutral(vs: Seq<VerificationResult>)
    requires
        forall|j: int| 0 <= j < vs.len() ==> (#[trigger] vs[j]).status == entity::VerificationStatus::Unknown,
    ensures
        verification_modifier(vs) == 0,
{
    lemma_no_verified_modifier(vs);
}

// ── Determinism ─────────────────────────────────────────────────────────

/// What scoring reads of a claim: verifiability, specificity and hedging.
pub open spec fn same_features(a: Claim, b: Claim) -> bool {
    &&& a.is_verifiable == b.is_verifiable
    &&& a.specificity == b.specificity
    &&& a.is_hedged == b.is_hedged
}

/// Two claim lists that agree claim by claim on what scoring reads.
pub open spec fn same_claim_features(cs1: Seq<Claim>, cs2: Seq<Claim>) -> bool {
    &&& cs1.len() == cs2.len()
    &&& forall|j: int| 0 <= j < cs1.len() ==> same_features(#[trigger] cs1[j], cs2[j])
}

proof fn lemma_extracted_features(text: Seq<char>, cs1: Seq<Claim>, cs2: Seq<Claim>)
    requires
        claims_of_text(text, cs1),
        claims_of_text(text, cs2),
    ensures
        same_claim_features(cs1, cs2),
{
    let ss = sentences(text);
    let kept = kept_sentences(ss);
    assert forall|j: int| 0 <= j < cs1.len() implies same_features(#[trigger] cs1[j], cs2[j]) by {
        assert(is_claim_of(cs1[j], ss[kept[j]], kept[j]));
        assert(is_claim_of(cs2[j], ss[kept[j]], kept[j]));
    }
}

proof fn lemma_features_aggregate(cs1: Seq<Claim>, cs2: Seq<Claim>)
    requires
        same_claim_features(cs1, cs2),
    ensures
        sum_by(cs1, score_of_claim()) == sum_by(cs2, score_of_claim()),
        cs1.len() > 0 ==> min_by(cs1, score_of_claim()) == min_by(cs2, score_of_claim()),
        count_by(cs1, high_risk()) == count_by(cs2, high_risk()),
        level_values(cs1) == level_values(cs2),
    decreases cs1.len(),
{
    if cs1.len() > 0 {
        let d1 = cs1.drop_last();
        let d2 = cs2.drop_last();
        assert forall|j: int| 0 <= j < d1.len() implies same_features(#[trigger] d1[j], d2[j]) by {
            assert(same_features(cs1[j], cs2[j]));
        }
        lemma_features_aggregate(d1, d2);
        assert(same_features(cs1[cs1.len() - 1], cs2[cs2.len() - 1]));
        assert(claim_signals(cs1.last()) == claim_signals(cs2.last()));
    }
    assert forall|j: int| 0 <= j < cs1.len() implies level_values(cs1)[j] == level_values(cs2)[j] by {
        assert(same_features(cs1[j], cs2[j]));
    }
    assert(level_values(cs1) =~= level_values(cs2));
}

/// Deterministic scoring: two analyses of the same text report the same
/// number of claims, score, risk level, high-risk count and trajectory.
pub proof fn law_score_deterministic(text: Seq<char>, r1: TrustReport, r2: TrustReport)
    requires
        exists|cs: Seq<Claim>| claims_of_text(text, cs) && reports_claims(r1, cs, 0),
        exists|cs: Seq<Claim>| claims_of_text(text, cs) && reports_claims(r2, cs, 0),
    ensures
        r1.total_claims == r2.total_claims,
        r1.score == r2.score,
        r1.risk_level == r2.risk_level,
        r1.high_risk_claims == r2.high_risk_claims,
        r1.trajectory.pattern == r2.trajectory.pattern,
        r1.trajectory.transitions == r2.trajectory.transitions,
        r1.trajectory.trust_modifier == r2.trajectory.trust_modifier,
        r1.trajectory.damping_estimate == r2.trajectory.damping_estimate,
{
    let cs1 = choose|cs: Seq<Claim>| claims_of_text(text, cs) && reports_claims(r1, cs, 0);
    let cs2 = choose|cs: Seq<Claim>| claims_of_text(text, cs) && reports_claims(r2, cs, 0);
    lemma_extracted_features(text, cs1, cs2);
    lemma_features_aggregate(cs1, cs2);
}

} // verus!
