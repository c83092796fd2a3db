use truthlens::claim::{
    compute_specificity, contains_hedging, extract_claims, is_common_sentence_starter, split_sentences,
    Claim,
};
use truthlens::consistency::{
    check_consistency, detect_contradiction, extract_entities, fuzzy_match_subject, normalize_subject,
    normalize_value, ClaimEntity,
};
use truthlens::entity::{
    collect_entities, compute_verification_modifier, extract_entities_from_claim,
    is_capitalized_name_word, is_skip_word, is_year_entity, match_from_binding, match_from_lookup,
    unmatched_entity,
    urlencoded, verification_from_matches, verify_claim, wikidata_query, wikidata_query_url,
    EntityMatch, VerificationResult, VerificationStatus, WikidataBinding, PERSON_QUERY_HEAD,
    PLACE_QUERY_HEAD,
};
use truthlens::display::{bar_length, claim_preview, fraction_label, percent_label, signed_label};
use truthlens::format::SCALE;
use truthlens::scorer::{classify_risk, score_claim, score_passage, RiskLevel};
use truthlens::trajectory::{analyze_trajectory, TrajectoryPattern};
use truthlens::{analyze, analyze_with_verification, report_with_verification};

const TOLERANCE: u64 = 3_000_000_000_000; // 0.001 in fixed point

fn make_claim(text: &str, specificity: u64, verifiable: bool, hedged: bool) -> Claim {
    Claim {
        text: text.to_string(),
        sentence_idx: 0,
        is_verifiable: verifiable,
        specificity,
        is_hedged: hedged,
    }
}

fn result(text: &str, status: VerificationStatus) -> VerificationResult {
    VerificationResult { claim_text: text.to_string(), matches: vec![], status }
}

// ── claim ───────────────────────────────────────────────────────────────

#[test]
fn extract_basic_claims() {
    let text = "Albert Einstein was born in 1879 in Ulm, Germany. He developed the theory of relativity. The sky is blue.";
    let claims = extract_claims(text);
    assert_eq!(claims.len(), 3);
    assert!(claims[0].is_verifiable); // Has date + proper noun
    assert!(claims[0].specificity > 900_000_000_000_000);
}

#[test]
fn detect_hedging() {
    assert!(contains_hedging("This might be related to climate change."));
    assert!(contains_hedging("It is believed that the universe is expanding."));
    assert!(!contains_hedging("The Earth orbits the Sun."));
}

#[test]
fn specificity_scoring() {
    let specific =
        compute_specificity("Einstein published 300 papers in 1905 at the University of Zurich.");
    let vague = compute_specificity("Some researchers have found various interesting results.");
    assert!(specific > vague, "specific={specific} should be > vague={vague}");
}

#[test]
fn empty_text() {
    let claims = extract_claims("");
    assert!(claims.is_empty());
}

#[test]
fn hedging_ignores_case() {
    assert!(contains_hedging("It MIGHT BE so."));
    assert!(!contains_hedging("Mighty rivers flow."));
}

#[test]
fn claims_keep_sentence_positions() {
    let claims = extract_claims("First claim here.   Second one follows!");
    assert_eq!(claims.len(), 2);
    assert_eq!(claims[0].text, "First claim here.");
    assert_eq!(claims[0].sentence_idx, 0);
    assert_eq!(claims[1].text, "Second one follows!");
    assert_eq!(claims[1].sentence_idx, 1);
}

#[test]
fn date_pattern_makes_claim_verifiable() {
    let claims = extract_claims("it happened in march.");
    assert_eq!(claims.len(), 1);
    assert!(!claims[0].is_verifiable);
    let claims = extract_claims("it happened in March.");
    assert!(claims[0].is_verifiable);
    // Only the month name makes this one verifiable: the first word is not
    // counted as a proper noun.
    let claims = extract_claims("March is cold.");
    assert!(claims[0].is_verifiable);
    let claims = extract_claims("Marching is cold.");
    assert!(!claims[0].is_verifiable);
}

#[test]
fn vague_text_specificity_is_exact() {
    // "Some" and "various" are vague: no signal at all gives 0.3, and two
    // vague words take 0.3 away.
    assert_eq!(compute_specificity("Some researchers have found various interesting results."), 0);
    assert_eq!(compute_specificity("the sky is blue"), 900_000_000_000_000);
}

// ── scorer ──────────────────────────────────────────────────────────────

#[test]
fn score_is_bounded() {
    let claims = extract_claims("Einstein was born in 1879. The sky might be purple.");
    for claim in &claims {
        let score = score_claim(claim);
        assert!(score.score <= SCALE, "Score out of bounds: {}", score.score);
    }
}

#[test]
fn hedged_claims_score_higher() {
    let hedged = make_claim("This might be related to the discovery.", 900_000_000_000_000, false, true);
    let confident =
        make_claim("Einstein discovered exactly 47 particles in 1903.", 2_400_000_000_000_000, true, false);
    let hedged_score = score_claim(&hedged);
    let confident_score = score_claim(&confident);
    assert!(
        hedged_score.score > confident_score.score,
        "Hedged {} should score higher than overconfident {}",
        hedged_score.score,
        confident_score.score
    );
}

#[test]
fn claim_score_exact_values() {
    let hedged = make_claim("This might be related to the discovery.", 900_000_000_000_000, false, true);
    let t = score_claim(&hedged);
    assert_eq!(t.score, 1_957_500_000_000_000);
    assert_eq!(t.risk_level, RiskLevel::Medium);
    assert_eq!(t.signals.confidence, 2_400_000_000_000_000);
    assert_eq!(t.signals.hedging, 2_550_000_000_000_000);
    let confident =
        make_claim("Einstein discovered exactly 47 particles in 1903.", 2_400_000_000_000_000, true, false);
    let t = score_claim(&confident);
    assert_eq!(t.score, 1_665_000_000_000_000);
    assert_eq!(t.signals.confidence, 1_200_000_000_000_000);
    assert!(t.explanation.contains("overconfident language without hedging"));
}

#[test]
fn passage_scoring() {
    let claims = extract_claims(
        "Albert Einstein was born in 1879. He might have visited Paris. \
         The theory of relativity was published in exactly 1905.",
    );
    let passage = score_passage(&claims);
    assert!(passage.score <= SCALE);
    assert!(!passage.explanation.is_empty());
}

#[test]
fn passage_between_worst_and_best() {
    let a = make_claim("This might be related to the discovery.", 900_000_000_000_000, false, true);
    let b = make_claim("Einstein discovered exactly 47 particles in 1903.", 2_400_000_000_000_000, true, false);
    let passage = score_passage(&[a, b]);
    // 70% of the average (0.60375) plus 30% of the worst (0.555), rounded once
    assert_eq!(passage.score, 1_767_375_000_000_000);
    assert!(passage.score >= 1_665_000_000_000_000 && passage.score <= 1_957_500_000_000_000);
    assert!(passage.explanation.starts_with("2 claims analyzed. 0 high-risk claims detected."));
}

#[test]
fn passage_order_independent() {
    let a = make_claim("This might be related to the discovery.", 900_000_000_000_000, false, true);
    let b = make_claim("Einstein discovered exactly 47 particles in 1903.", 2_400_000_000_000_000, true, false);
    let p1 = score_passage(&[a.clone(), b.clone()]);
    let p2 = score_passage(&[b, a]);
    assert_eq!(p1.score, p2.score);
}

#[test]
fn empty_passage() {
    let passage = score_passage(&[]);
    assert_eq!(passage.risk_level, RiskLevel::Medium);
    assert_eq!(passage.score, 1_500_000_000_000_000);
    assert_eq!(passage.explanation, "No claims to analyze.");
}

#[test]
fn risk_classification() {
    assert_eq!(classify_risk(2_400_000_000_000_000), RiskLevel::Low);
    assert_eq!(classify_risk(1_800_000_000_000_000), RiskLevel::Medium);
    assert_eq!(classify_risk(1_200_000_000_000_000), RiskLevel::High);
    assert_eq!(classify_risk(600_000_000_000_000), RiskLevel::Critical);
}

#[test]
fn risk_thresholds_are_inclusive() {
    assert_eq!(classify_risk(2_250_000_000_000_000), RiskLevel::Low);
    assert_eq!(classify_risk(2_249_900_000_000_000), RiskLevel::Medium);
    assert_eq!(classify_risk(1_650_000_000_000_000), RiskLevel::Medium);
    assert_eq!(classify_risk(1_050_000_000_000_000), RiskLevel::High);
    assert_eq!(classify_risk(1_049_900_000_000_000), RiskLevel::Critical);
    assert_eq!(RiskLevel::Critical.label(), "CRITICAL");
}

#[test]
fn hedging_never_lowers_score() {
    let plain = make_claim("It is so.", 1_500_000_000_000_000, true, false);
    let hedged = make_claim("It might be so.", 1_500_000_000_000_000, true, true);
    assert!(score_claim(&hedged).score >= score_claim(&plain).score);
}

// ── trajectory ──────────────────────────────────────────────────────────

#[test]
fn oscillating_pattern() {
    let claims = vec![
        make_claim("Einstein was born in 1879.", 2_100_000_000_000_000, true, false),
        make_claim("Something might be related.", 600_000_000_000_000, false, true),
        make_claim("He published exactly 300 papers.", 2_400_000_000_000_000, true, false),
        make_claim("Perhaps this is unclear.", 300_000_000_000_000, false, true),
        make_claim("The answer is precisely 42.", 2_700_000_000_000_000, true, false),
    ];
    let analysis = analyze_trajectory(&claims);
    assert_eq!(analysis.pattern, TrajectoryPattern::Oscillating);
    assert!(analysis.trust_modifier < 0);
}

#[test]
fn flat_high_pattern() {
    let claims = vec![
        make_claim("Einstein discovered 47 particles.", 2_400_000_000_000_000, true, false),
        make_claim("He won exactly 3 Nobel prizes.", 2_700_000_000_000_000, true, false),
        make_claim("The theory has 12 dimensions.", 2_100_000_000_000_000, true, false),
        make_claim("Physics explains 99.9% of reality.", 2_400_000_000_000_000, true, false),
    ];
    let analysis = analyze_trajectory(&claims);
    assert_eq!(analysis.pattern, TrajectoryPattern::FlatHigh);
    assert!(analysis.trust_modifier < 0);
}

#[test]
fn flat_low_pattern() {
    let claims = vec![
        make_claim("This might be true.", 600_000_000_000_000, false, true),
        make_claim("Perhaps it could work.", 300_000_000_000_000, false, true),
        make_claim("It is possible that things improve.", 450_000_000_000_000, false, true),
        make_claim("Some evidence suggests this.", 600_000_000_000_000, false, true),
    ];
    let analysis = analyze_trajectory(&claims);
    assert_eq!(analysis.pattern, TrajectoryPattern::FlatLow);
    assert!(analysis.trust_modifier > 0);
}

#[test]
fn insufficient_claims() {
    let claims = vec![
        make_claim("Hello.", 300_000_000_000_000, false, false),
        make_claim("World.", 300_000_000_000_000, false, false),
    ];
    let analysis = analyze_trajectory(&claims);
    assert_eq!(analysis.pattern, TrajectoryPattern::Insufficient);
    assert_eq!(analysis.trust_modifier, 0);
}

#[test]
fn damping_bounded() {
    let claims = vec![
        make_claim("A.", 1_500_000_000_000_000, true, false),
        make_claim("B.", 1_500_000_000_000_000, false, true),
        make_claim("C.", 1_500_000_000_000_000, true, false),
        make_claim("D.", 1_500_000_000_000_000, false, true),
    ];
    let analysis = analyze_trajectory(&claims);
    assert!(analysis.damping_estimate > 0);
    assert!(analysis.damping_estimate < 6_000_000_000_000_000);
}

#[test]
fn trajectory_exact_values() {
    let claims = vec![
        make_claim("This might be true.", 600_000_000_000_000, false, true),
        make_claim("Perhaps it could work.", 300_000_000_000_000, false, true),
        make_claim("It is possible that things improve.", 450_000_000_000_000, false, true),
    ];
    let analysis = analyze_trajectory(&claims);
    assert_eq!(analysis.pattern, TrajectoryPattern::FlatLow);
    assert_eq!(analysis.trust_modifier, 300_000_000_000_000);
    assert_eq!(analysis.damping_estimate, 4_500_000_000_000_000);
    assert_eq!(analysis.transitions, 0);
    assert!(analysis.explanation.starts_with("FLAT LOW (consistently cautious — trustworthy)"));
}

#[test]
fn transitions_bounded_by_claims() {
    let claims = vec![
        make_claim("A.", 2_100_000_000_000_000, true, false),
        make_claim("B.", 300_000_000_000_000, false, true),
        make_claim("C.", 2_100_000_000_000_000, true, false),
        make_claim("D.", 300_000_000_000_000, false, true),
        make_claim("E.", 2_100_000_000_000_000, true, false),
    ];
    let analysis = analyze_trajectory(&claims);
    assert!(analysis.transitions <= claims.len() - 2);
}

// ── consistency ─────────────────────────────────────────────────────────

#[test]
fn consistent_responses() {
    let report = check_consistency(&[
        "Einstein was born in 1879 in Ulm, Germany.",
        "Einstein was born in 1879 in Ulm, Germany.",
        "Einstein was born in 1879 in Ulm, Germany.",
    ]);
    for c in &report.contradictions {
        println!(
            "CONTRADICTION: {} (resp {}) vs {} (resp {}) — {}",
            c.claim_a, c.response_a, c.claim_b, c.response_b, c.conflict
        );
    }
    assert!(report.consistency_score > 1_500_000_000_000_000);
    assert!(
        report.contradictions.is_empty(),
        "Found {} contradictions in identical responses",
        report.contradictions.len()
    );
}

#[test]
fn contradicting_responses() {
    let report = check_consistency(&[
        "Einstein was born in 1879 in Ulm, Germany.",
        "Einstein was born in 1879 in Munich, Germany.",
        "Einstein was born in 1879 in Ulm, Germany.",
    ]);
    assert!(!report.contradictions.is_empty(), "Expected contradictions for Ulm vs Munich");
    assert!(report.consistency_score < 2_700_000_000_000_000);
}

#[test]
fn numeric_contradiction() {
    let report = check_consistency(&[
        "The population is 126,000 people.",
        "The population is 250,000 people.",
    ]);
    assert!(
        !report.contradictions.is_empty() || !report.unique_claims.is_empty(),
        "Should detect disagreement in numbers"
    );
}

#[test]
fn single_response() {
    let report = check_consistency(&["Einstein was born in 1879."]);
    assert_eq!(report.consistency_score, SCALE);
    assert_eq!(report.n_responses, 1);
}

#[test]
fn empty_responses() {
    let report = check_consistency(&[]);
    assert_eq!(report.consistency_score, SCALE);
}

#[test]
fn consistency_score_bounded() {
    let report = check_consistency(&[
        "Einstein was born in 1879 in Ulm. He had 3 children.",
        "Einstein was born in 1880 in Munich. He had 5 children.",
        "Einstein was born in 1879 in Berlin. He had 3 kids.",
    ]);
    assert!(report.consistency_score <= SCALE);
}

#[test]
fn unique_claims_detected() {
    let report = check_consistency(&[
        "Einstein was born in 1879. He invented the laser.",
        "Einstein was born in 1879. He played violin.",
    ]);
    assert!(report.total_claims > 0);
}

#[test]
fn consistency_counts_are_bounded() {
    let report = check_consistency(&[
        "Einstein was born in 1879 in Ulm, Germany.",
        "Einstein was born in 1879 in Munich, Germany.",
    ]);
    assert!(report.unique_claims.len() + report.consistent_claims.len() <= report.total_claims);
    for c in &report.consistent_claims {
        assert!(c.agreement_count <= report.n_responses);
    }
}

#[test]
fn contradiction_is_symmetric_in_responses() {
    let ab = check_consistency(&[
        "Einstein was born in 1879 in Ulm, Germany.",
        "Einstein was born in 1879 in Munich, Germany.",
    ]);
    let ba = check_consistency(&[
        "Einstein was born in 1879 in Munich, Germany.",
        "Einstein was born in 1879 in Ulm, Germany.",
    ]);
    assert_eq!(ab.contradictions.is_empty(), ba.contradictions.is_empty());
}

// ── entities ────────────────────────────────────────────────────────────

#[test]
fn extract_person_name() {
    let entities = extract_entities_from_claim("Albert Einstein was born in 1879 in Ulm, Germany.");
    assert!(
        entities.contains(&"Albert Einstein".to_string()),
        "Should extract 'Albert Einstein', got: {:?}",
        entities
    );
    assert!(
        entities.contains(&"1879".to_string()),
        "Should extract year '1879', got: {:?}",
        entities
    );
}

#[test]
fn extract_multiple_names() {
    let entities =
        extract_entities_from_claim("Marie Curie and Pierre Curie discovered radium in Paris.");
    assert!(
        entities.contains(&"Marie Curie".to_string()),
        "Should extract 'Marie Curie', got: {:?}",
        entities
    );
    assert!(
        entities.contains(&"Pierre Curie".to_string()),
        "Should extract 'Pierre Curie', got: {:?}",
        entities
    );
}

#[test]
fn extract_years() {
    let entities =
        extract_entities_from_claim("The theory was published in 1905 and revised in 1915.");
    assert!(entities.contains(&"1905".to_string()));
    assert!(entities.contains(&"1915".to_string()));
}

#[test]
fn extract_no_entities_from_vague_text() {
    let entities =
        extract_entities_from_claim("Some researchers have found various interesting results.");
    let has_year = entities.iter().any(|e| e.len() == 4 && e.chars().all(|c| c.is_ascii_digit()));
    assert!(!has_year, "Should not extract years from vague text, got: {:?}", entities);
}

#[test]
fn entities_are_sorted_and_exact() {
    let entities = extract_entities_from_claim("Albert Einstein was born in 1879 in Ulm, Germany.");
    assert_eq!(entities, vec!["1879", "Albert Einstein", "Ulm Germany"]);
    let entities =
        extract_entities_from_claim("Marie Curie and Pierre Curie discovered radium in Paris.");
    assert_eq!(entities, vec!["Marie Curie", "Paris", "Pierre Curie"]);
    let entities =
        extract_entities_from_claim("Some researchers have found various interesting results.");
    assert!(entities.is_empty());
}

#[test]
fn entities_deduplicated_and_years_in_range() {
    let entities = extract_entities_from_claim("In 1905 and again in 1905 (not 0999 or 2101) Paris.");
    assert_eq!(entities, vec!["1905", "Paris"]);
}

#[test]
fn collect_entities_uses_given_groups() {
    let groups = vec![Some("2000".to_string()), None, Some("3000".to_string()), Some("1000".to_string())];
    let entities = collect_entities("nothing capitalised here", &groups);
    assert_eq!(entities, vec!["1000", "2000"]);
}

#[test]
fn single_first_word_is_not_a_name() {
    assert!(extract_entities_from_claim("Einstein").is_empty());
    assert!(extract_entities_from_claim("Einstein was here.").is_empty());
    assert_eq!(extract_entities_from_claim("Yesterday Einstein spoke."), vec!["Yesterday Einstein"]);
}

#[test]
fn skip_and_name_words() {
    assert!(is_skip_word("The"));
    assert!(is_skip_word("An"));
    assert!(!is_skip_word("the"));
    assert!(is_capitalized_name_word("Paris"));
    assert!(!is_capitalized_name_word("The"));
    assert!(!is_capitalized_name_word("NASA"));
    assert!(!is_capitalized_name_word("paris"));
    assert!(is_capitalized_name_word("Élodie"));
}

#[test]
fn verification_modifier_all_verified() {
    let results = vec![
        result("test", VerificationStatus::Verified),
        result("test2", VerificationStatus::Verified),
    ];
    let modifier = compute_verification_modifier(&results);
    assert!(
        (modifier - 450_000_000_000_000).unsigned_abs() < TOLERANCE,
        "All verified should give +0.15, got {}",
        modifier
    );
}

#[test]
fn verification_modifier_all_contradicted() {
    let results = vec![result("test", VerificationStatus::Contradicted)];
    let modifier = compute_verification_modifier(&results);
    assert!(
        (modifier + 450_000_000_000_000).unsigned_abs() < TOLERANCE,
        "All contradicted should give -0.15, got {}",
        modifier
    );
}

#[test]
fn verification_modifier_mixed() {
    let results = vec![
        result("test", VerificationStatus::Verified),
        result("test2", VerificationStatus::Contradicted),
    ];
    let modifier = compute_verification_modifier(&results);
    assert!(modifier.unsigned_abs() < TOLERANCE, "Mixed should be ~0.0, got {}", modifier);
}

#[test]
fn verification_modifier_empty() {
    let modifier = compute_verification_modifier(&[]);
    assert!(modifier.unsigned_abs() < TOLERANCE, "Empty should give 0.0, got {}", modifier);
}

#[test]
fn verification_modifier_all_unknown() {
    let results = vec![result("test", VerificationStatus::Unknown)];
    let modifier = compute_verification_modifier(&results);
    assert!(modifier.unsigned_abs() < TOLERANCE, "All unknown should give 0.0, got {}", modifier);
}

#[test]
fn verification_modifier_bounded() {
    let mut results = Vec::new();
    for _ in 0..100 {
        results.push(result("test", VerificationStatus::Verified));
    }
    let modifier = compute_verification_modifier(&results);
    assert!((-450_000_000_000_000..=450_000_000_000_000).contains(&modifier));
}

#[test]
fn verification_modifier_exact_and_monotone() {
    let mut results = vec![
        result("a", VerificationStatus::Verified),
        result("b", VerificationStatus::Unknown),
        result("c", VerificationStatus::Unknown),
    ];
    assert_eq!(compute_verification_modifier(&results), 150_000_000_000_000);
    results.push(result("d", VerificationStatus::Verified));
    assert_eq!(compute_verification_modifier(&results), 225_000_000_000_000);
    results.push(result("e", VerificationStatus::Contradicted));
    assert_eq!(compute_verification_modifier(&results), 90_000_000_000_000);
}

#[test]
fn verification_status_display() {
    assert_eq!(VerificationStatus::Verified.label(), "VERIFIED");
    assert_eq!(VerificationStatus::Contradicted.label(), "CONTRADICTED");
    assert_eq!(VerificationStatus::Unknown.label(), "UNKNOWN");
}

#[test]
fn verify_claim_without_lookup_is_unknown() {
    let r = verify_claim("Albert Einstein was born in 1879.");
    assert_eq!(r.claim_text, "Albert Einstein was born in 1879.");
    assert!(r.matches.is_empty());
    assert_eq!(r.status, VerificationStatus::Unknown);
}

#[test]
fn years_are_not_looked_up() {
    assert!(is_year_entity("1879"));
    assert!(!is_year_entity("187"));
    assert!(!is_year_entity("18790"));
    assert!(!is_year_entity("Ulm1"));
}

#[test]
fn query_for_person_and_place() {
    let q = wikidata_query("Albert Einstein");
    assert!(q.starts_with(PERSON_QUERY_HEAD));
    assert!(q.contains("rdfs:label \"Albert Einstein\"@en ."));
    assert!(q.contains("wd:Q5"));
    assert!(q.ends_with("} LIMIT 1"));
    let q = wikidata_query("Paris");
    assert!(q.starts_with(PLACE_QUERY_HEAD));
    assert!(q.contains("wd:Q515"));
    let q = wikidata_query("Say \"Hi\"");
    assert!(q.contains("rdfs:label \"Say \\\"Hi\\\"\"@en"));
}

#[test]
fn url_encoding_of_bytes() {
    assert_eq!(urlencoded("a b\"é~"), "a%20b%22%C3%A9~");
    assert_eq!(urlencoded("A-z_0.9"), "A-z_0.9");
    assert_eq!(urlencoded("a b"), "a%20b");
    let url = wikidata_query_url("Paris");
    assert!(url.starts_with("https://query.wikidata.org/sparql?query=SELECT%20%3Fitem"));
}

#[test]
fn match_from_wikidata_answer() {
    let binding = WikidataBinding {
        item: Some("http://www.wikidata.org/entity/Q937".to_string()),
        birth_year: Some("1879".to_string()),
        birth_place: Some("Ulm".to_string()),
    };
    let m = match_from_binding("Albert Einstein", &binding);
    assert_eq!(m.entity_name, "Albert Einstein");
    assert_eq!(m.wikidata_id, Some("Q937".to_string()));
    assert_eq!(m.verified_properties, vec!["birth year: 1879", "birthplace: Ulm"]);
    assert_eq!(m.confidence, 2_400_000_000_000_000);

    let binding = WikidataBinding {
        item: Some("http://www.wikidata.org/entity/Q90".to_string()),
        birth_year: None,
        birth_place: Some("Paris".to_string()),
    };
    let m = match_from_binding("Paris", &binding);
    assert_eq!(m.wikidata_id, Some("Q90".to_string()));
    assert!(m.verified_properties.is_empty());
    assert_eq!(m.confidence, 1_800_000_000_000_000);

    let m = unmatched_entity("Nowhere");
    assert_eq!(m.wikidata_id, None);
    assert_eq!(m.confidence, 0);
}

#[test]
fn verification_status_from_matches() {
    let good = EntityMatch {
        entity_name: "Albert Einstein".to_string(),
        wikidata_id: Some("Q937".to_string()),
        verified_properties: vec!["birth year: 1879".to_string()],
        confidence: 2_400_000_000_000_000,
    };
    let r = verification_from_matches("claim", vec![unmatched_entity("X"), good]);
    assert_eq!(r.status, VerificationStatus::Verified);
    assert_eq!(r.matches.len(), 2);
    let r = verification_from_matches("claim", vec![unmatched_entity("X")]);
    assert_eq!(r.status, VerificationStatus::Unknown);
    let r = verification_from_matches("claim", vec![]);
    assert_eq!(r.status, VerificationStatus::Unknown);
}

// ── reports ─────────────────────────────────────────────────────────────

#[test]
fn analyze_factual_text() {
    let report = analyze("Albert Einstein was born on March 14, 1879, in Ulm, Germany.");
    assert!(report.score > 0 && report.score <= SCALE);
    assert!(report.total_claims >= 1);
    assert_ne!(report.risk_level, RiskLevel::Critical);
}

#[test]
fn analyze_hedged_text() {
    let report = analyze(
        "Climate change might be linked to increased hurricane frequency. \
         Some researchers believe that ocean temperatures could affect storm intensity.",
    );
    assert!(report.score > 1_200_000_000_000_000, "Hedged text should score reasonably: {}", report.score);
}

#[test]
fn analyze_overconfident_text() {
    let report = analyze(
        "The Great Wall of China is exactly 21,196.18 kilometers long. \
         It was built by precisely 3,247,862 workers over 47 years. \
         The wall can be clearly seen from the International Space Station.",
    );
    assert!(report.high_risk_claims > 0, "Should flag some high-risk claims");
}

#[test]
fn consistency_identical_responses() {
    let report = check_consistency(&[
        "Einstein was born in 1879 in Ulm, Germany.",
        "Einstein was born in 1879 in Ulm, Germany.",
    ]);
    assert!(report.contradictions.is_empty());
    assert!(report.consistency_score > 1_500_000_000_000_000);
}

#[test]
fn consistency_contradicting_responses() {
    let report = check_consistency(&[
        "Einstein was born in 1879 in Ulm, Germany.",
        "Einstein was born in 1879 in Munich, Germany.",
    ]);
    assert!(!report.contradictions.is_empty() || !report.unique_claims.is_empty());
}

#[test]
fn analyze_with_verification_returns_results() {
    let report = analyze_with_verification("Albert Einstein was born in 1879 in Ulm, Germany.");
    assert!(report.score > 0 && report.score <= SCALE);
    let has_verification = report.claims.iter().any(|c| c.verification.is_some());
    assert!(has_verification, "analyze_with_verification should populate verification field");
}

#[test]
fn analyze_empty_text() {
    let report = analyze("");
    assert_eq!(report.total_claims, 0);
    assert!(report.score <= SCALE);
}

#[test]
fn empty_text_report_is_exact() {
    let report = analyze("");
    assert_eq!(report.score, 1_500_000_000_000_000);
    assert_eq!(report.risk_level, RiskLevel::High);
    assert_eq!(
        report.summary,
        "No claims to analyze. Trajectory: INSUFFICIENT (too few claims)"
    );
}

#[test]
fn report_summary_with_verification() {
    let report = analyze_with_verification("The sky is blue.");
    assert!(report.summary.ends_with(" | Verification modifier: +0.00"));
    let claims = extract_claims("The sky is blue.");
    let plain = analyze("The sky is blue.");
    let verified = report_with_verification(&claims, vec![result("The sky is blue.", VerificationStatus::Verified)]);
    assert!(verified.summary.ends_with(" | Verification modifier: +0.15"));
    assert_eq!(verified.score, plain.score + 450_000_000_000_000);
    let contradicted =
        report_with_verification(&claims, vec![result("The sky is blue.", VerificationStatus::Contradicted)]);
    assert!(contradicted.summary.ends_with(" | Verification modifier: -0.15"));
    assert_eq!(contradicted.score, plain.score - 450_000_000_000_000);
}

#[test]
fn trajectory_moves_report_score() {
    let text = "This might be true. Perhaps it could work. It is possible that things improve.";
    let claims = extract_claims(text);
    let report = analyze(text);
    let passage = score_passage(&claims);
    assert_eq!(report.trajectory.pattern, TrajectoryPattern::FlatLow);
    assert_eq!(report.score, (passage.score + 300_000_000_000_000).min(SCALE));
}

// ── display ─────────────────────────────────────────────────────────────

#[test]
fn display_labels() {
    assert_eq!(bar_length(0), 0);
    assert_eq!(bar_length(1_500_000_000_000_000), 15);
    assert_eq!(bar_length(2_999_900_000_000_000), 29);
    assert_eq!(bar_length(SCALE), 30);
    assert_eq!(percent_label(1_957_500_000_000_000), "65%");
    assert_eq!(percent_label(1_500_000_000_000_000), "50%");
    assert_eq!(percent_label(15_000_000_000_000), "0%");
    assert_eq!(percent_label(45_000_000_000_000), "2%");
    assert_eq!(percent_label(SCALE), "100%");
    assert_eq!(fraction_label(4_500_000_000_000_000), "1.50");
    assert_eq!(fraction_label(600_000_000_000_000 + 900_000_000_000_000 / 3), "0.30");
    assert_eq!(signed_label(-300_000_000_000_000), "-0.10");
    assert_eq!(signed_label(0), "+0.00");
    assert_eq!(signed_label(240_000_000_000_000), "+0.08");
}

#[test]
fn claim_preview_cuts_long_claims() {
    assert_eq!(claim_preview("short claim"), Some("short claim".to_string()));
    let seventy = "a".repeat(70);
    assert_eq!(claim_preview(&seventy), Some(seventy.clone()));
    let eighty = "b".repeat(80);
    assert_eq!(claim_preview(&eighty), Some(format!("{}...", "b".repeat(67))));
    let straddling = format!("{}é{}", "c".repeat(66), "d".repeat(10));
    assert_eq!(claim_preview(&straddling), None);
    let aligned = format!("{}é{}", "c".repeat(65), "d".repeat(10));
    assert_eq!(claim_preview(&aligned), Some(format!("{}é...", "c".repeat(65))));
}

// ── laws on concrete values ─────────────────────────────────────────────

#[test]
fn weights_sum_to_one_hundred_percent() {
    let total = truthlens::scorer::W_CONFIDENCE
        + truthlens::scorer::W_HEDGING
        + truthlens::scorer::W_SPECIFICITY
        + truthlens::scorer::W_VERIFIABILITY
        + truthlens::scorer::W_CONSISTENCY;
    assert_eq!(total, 100);
}

#[test]
fn good_claim_does_not_lower_passage() {
    let weak = make_claim("Einstein discovered exactly 47 particles in 1903.", 2_400_000_000_000_000, true, false);
    let good = make_claim("This might be related to the discovery.", 900_000_000_000_000, false, true);
    let before = score_passage(&[weak.clone()]);
    let after = score_passage(&[weak, good]);
    assert!(after.score >= before.score);
}

#[test]
fn agreeing_response_raises_agreement() {
    let two = check_consistency(&[
        "Einstein was born in 1879 in Ulm, Germany.",
        "Einstein was born in 1879 in Ulm, Germany.",
    ]);
    let three = check_consistency(&[
        "Einstein was born in 1879 in Ulm, Germany.",
        "Einstein was born in 1879 in Ulm, Germany.",
        "Einstein was born in 1879 in Ulm, Germany.",
    ]);
    assert!(!two.consistent_claims.is_empty());
    assert_eq!(two.consistent_claims.len(), three.consistent_claims.len());
    for (a, b) in two.consistent_claims.iter().zip(three.consistent_claims.iter()) {
        assert_eq!(a.agreement_count + 1, b.agreement_count);
    }
}

#[test]
fn contradictions_bounded_by_comparisons() {
    let report = check_consistency(&[
        "Einstein was born in 1879 in Ulm. He had 3 children.",
        "Einstein was born in 1880 in Munich. He had 5 children.",
        "Einstein was born in 1879 in Berlin. He had 3 kids.",
    ]);
    assert!(report.contradictions.len() <= report.total_claims * report.total_claims);
}

#[test]
fn analysis_is_deterministic() {
    let text = "Einstein was born in 1879. He developed relativity in 1905. It might be true.";
    let a = analyze(text);
    let b = analyze(text);
    assert_eq!(a.score, b.score);
    assert_eq!(a.risk_level, b.risk_level);
    assert_eq!(a.high_risk_claims, b.high_risk_claims);
    assert_eq!(a.trajectory.pattern, b.trajectory.pattern);
    assert_eq!(a.summary, b.summary);
}

// ── sentence and entity helpers ─────────────────────────────────────────

#[test]
fn sentences_split_after_ten_bytes_and_abbreviations() {
    let ss = split_sentences("Dr. Smith arrived early today. It rained! Ok?");
    assert_eq!(ss, vec!["Dr. Smith arrived early today.", "It rained!", "Ok?"]);
    assert!(split_sentences("   ").is_empty());
    assert!(is_common_sentence_starter("The"));
    assert!(!is_common_sentence_starter("Einstein"));
}

#[test]
fn subjects_and_values_are_normalized() {
    assert_eq!(normalize_subject("  The Theory "), "theory");
    assert_eq!(normalize_subject("An apple"), "apple");
    assert_eq!(normalize_value(" Ulm, Germany. "), "Ulm, Germany");
    assert!(fuzzy_match_subject("einstein was born", "einstein was born in"));
    assert!(!fuzzy_match_subject("population of paris", "area of london"));
}

#[test]
fn subject_value_pairs_of_a_response() {
    let es = extract_entities("Einstein was born in 1879 in Ulm, Germany.");
    let pairs: Vec<(String, String)> = es
        .iter()
        .map(|e| (e.subject.iter().collect(), e.value.iter().collect()))
        .collect();
    assert_eq!(
        pairs,
        vec![
            ("einstein was born in".to_string(), "1879".to_string()),
            ("einstein was born in 1879".to_string(), "Ulm, Germany".to_string()),
        ]
    );
}

// ── decimal points and symmetric contradictions ─────────────────────────

#[test]
fn decimal_point_does_not_end_a_sentence() {
    let text = "The Great Wall is exactly 21,196.18 kilometers long.";
    let claims = extract_claims(text);
    assert_eq!(claims.len(), 1);
    assert_eq!(claims[0].text, text);
    assert!(claims[0].is_verifiable);
    assert!(!claims[0].is_hedged);
    assert_eq!(
        split_sentences("The price rose to 3.5 dollars. Then it fell."),
        vec!["The price rose to 3.5 dollars.", "Then it fell."]
    );
    // A full stop after a digit, followed by a space, still ends the sentence.
    assert_eq!(
        split_sentences("He was born in 1879. He died in 1955."),
        vec!["He was born in 1879.", "He died in 1955."]
    );
}

fn entity(subject: &str, value: &str) -> ClaimEntity {
    ClaimEntity {
        subject: subject.chars().collect(),
        value: value.chars().collect(),
        full_text: format!("{} {}", subject, value).chars().collect(),
    }
}

#[test]
fn contradiction_is_symmetric_with_repeated_words() {
    let a = entity("einstein was born in", "Ulm Ulm");
    let b = entity("einstein was born in", "Ulm Berlin");
    assert_eq!(detect_contradiction(&a, &b, 0, 1).is_some(), detect_contradiction(&b, &a, 1, 0).is_some());
    let c = entity("einstein was born in", "Munich");
    let d = entity("einstein was born in", "Ulm");
    let cd = detect_contradiction(&c, &d, 0, 1).expect("Munich and Ulm conflict");
    let dc = detect_contradiction(&d, &c, 1, 0).expect("Ulm and Munich conflict");
    assert_eq!(cd.confidence, dc.confidence);
    assert!(detect_contradiction(&d, &d, 0, 1).is_none());
    assert_eq!(fuzzy_match_subject("paris paris tower", "tower paris"), fuzzy_match_subject("tower paris", "paris paris tower"));
}

#[test]
fn lookup_outcomes_give_matches() {
    let binding = WikidataBinding {
        item: Some("http://www.wikidata.org/entity/Q937".to_string()),
        birth_year: Some("1879".to_string()),
        birth_place: None,
    };
    let m = match_from_lookup("Albert Einstein", Ok(Some(binding)));
    assert_eq!(m.wikidata_id, Some("Q937".to_string()));
    assert_eq!(m.verified_properties, vec!["birth year: 1879"]);
    assert_eq!(m.confidence, 2_400_000_000_000_000);
    let m = match_from_lookup("Nowhere", Ok(None));
    assert_eq!(m.wikidata_id, None);
    assert_eq!(m.confidence, 0);
    let m = match_from_lookup("Nowhere", Err("HTTP error".to_string()));
    assert_eq!(m.entity_name, "Nowhere");
    assert_eq!(m.wikidata_id, None);
}

#[test]
fn unicode_white_space_separates_words() {
    // U+00A0 and U+3000 are white space, so both split words.
    let claims = extract_claims("Alpha\u{a0}Beta\u{3000}Gamma went home today.");
    assert_eq!(claims.len(), 1);
    assert_eq!(split_sentences("  \u{2028} "), Vec::<String>::new());
}

#[test]
fn claims_are_the_sentences_in_order() {
    let text = "First one is here. Second one is here! Third?";
    let sentences = split_sentences(text);
    let claims = extract_claims(text);
    assert_eq!(claims.len(), sentences.len());
    for (i, c) in claims.iter().enumerate() {
        assert_eq!(c.sentence_idx, i);
        assert_eq!(c.text, sentences[i]);
        assert_eq!(c.text.trim(), c.text);
        assert!(!c.text.is_empty());
    }
}

#[test]
fn consistency_report_parts_are_in_range() {
    let responses = [
        "Einstein was born in 1879 in Ulm, Germany.",
        "Einstein was born in 1879 in Munich, Germany.",
        "Einstein was born in 1879 in Ulm, Germany.",
    ];
    let report = check_consistency(&responses);
    let n = responses.len();
    for c in &report.contradictions {
        assert!(c.response_a < c.response_b && c.response_b < n);
    }
    for (i, a) in report.contradictions.iter().enumerate() {
        for b in report.contradictions.iter().skip(i + 1) {
            assert_ne!(a.conflict, b.conflict);
        }
    }
    for k in &report.consistent_claims {
        assert!(2 <= k.agreement_count && k.agreement_count <= n);
        assert_eq!(k.agreement_ratio, k.agreement_count as u64 * SCALE / n as u64);
    }
    for u in &report.unique_claims {
        assert!(u.response_idx < n);
    }
    let t = report.total_claims;
    assert!(report.contradictions.len() <= t * (t.saturating_sub(1)) / 2);
}

#[test]
fn trajectory_shape_of_three_claims() {
    let claims = vec![
        make_claim("A.", 2_100_000_000_000_000, true, false),
        make_claim("B.", 300_000_000_000_000, false, true),
        make_claim("C.", 2_100_000_000_000_000, true, false),
    ];
    let analysis = analyze_trajectory(&claims);
    assert_ne!(analysis.pattern, TrajectoryPattern::Insufficient);
    assert!(analysis.damping_estimate > 0 && analysis.damping_estimate <= 4_500_000_000_000_000);
    assert!(analysis.transitions <= 1);
}

#[test]
fn url_encoding_uses_safe_characters() {
    let enc = urlencoded("Straße & Co. ~ 100%");
    assert!(enc.chars().all(|c| c.is_ascii_alphanumeric() || "-_.~%".contains(c)));
    let expected: usize = "Straße & Co. ~ 100%"
        .bytes()
        .map(|b| if b.is_ascii_alphanumeric() || b"-_.~".contains(&b) { 1 } else { 3 })
        .sum();
    assert_eq!(enc.len(), expected);
}

// ── precision ───────────────────────────────────────────────────────────

#[test]
fn verification_modifier_is_precise() {
    let mut results = vec![result("a", VerificationStatus::Verified)];
    for _ in 0..6 {
        results.push(result("b", VerificationStatus::Unknown));
    }
    // 0.15 / 7 = 0.0214285714285714..., rounded down once at 1/(3·10^15)
    assert_eq!(compute_verification_modifier(&results), 64_285_714_285_714);
    let exact = 0.15_f64 / 7.0;
    let got = compute_verification_modifier(&results) as f64 / SCALE as f64;
    assert!((got - exact).abs() < 1e-12);
}

#[test]
fn passage_score_is_precise() {
    let vague = make_claim("Things happen.", 0, false, false);
    let hedged_vague = make_claim("Things might be so.", 0, false, true);
    assert_eq!(score_claim(&vague).score, 1_200_000_000_000_000);
    assert_eq!(score_claim(&hedged_vague).score, 1_777_500_000_000_000);
    let passage = score_passage(&[vague, hedged_vague]);
    // 0.7 · 0.49625 + 0.3 · 0.40 = 0.467375, exactly
    assert_eq!(passage.score, 1_402_125_000_000_000);
}

#[test]
fn white_space_set() {
    for c in ['\u{9}', '\u{d}', ' ', '\u{85}', '\u{a0}', '\u{1680}', '\u{2000}', '\u{200a}', '\u{2028}', '\u{2029}', '\u{202f}', '\u{205f}', '\u{3000}'] {
        assert!(truthlens::text::is_whitespace(c));
        assert_eq!(truthlens::text::is_whitespace(c), c.is_whitespace());
    }
    for c in ['a', '\u{8}', '\u{e}', '\u{200b}', '\u{1f}', '.'] {
        assert!(!truthlens::text::is_whitespace(c));
    }
    for code in 0..=0x10FFFFu32 {
        if let Some(c) = char::from_u32(code) {
            assert_eq!(truthlens::text::is_whitespace(c), c.is_whitespace(), "{:?}", c);
        }
    }
}
