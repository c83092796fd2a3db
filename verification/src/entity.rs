//! Entity cross-reference: named entities (people, places, years) in claims,
//! and the trust modifier earned by verifying them against Wikidata.
//!
//! The network lookup itself happens outside this library; this module
//! extracts what to look up, builds the query, reads the answer and decides
//! the verification status and the modifier.
use vstd::prelude::*;
use vstd::utf8::encode_utf8;
use crate::patterns::{option_view, regex_compiles, regex_first_groups, regex_group_one};
use crate::text::{
    all_ascii_digits, ascii_digit, chars_of, eq_chars, is_ascii_digit, push_char, eq_str, extend_chars, lemma_lex_total, lemma_lex_transitive, lex_less, lex_lt,
    parse_u32, parsed_u32, string_of, string_views, strings_of, is_lowercase, is_uppercase, join, join_words, split_whitespace,
    trim_punctuation, trim_punctuation_chars, unicode_lowercase_char, unicode_uppercase, utf8_len,
    utf8_len_exceeds, views_of, words,
};

verus! {

/// A matched entity from Wikidata.
#[derive(Debug, Clone)]
pub struct EntityMatch {
    /// The entity name as extracted from text
    pub entity_name: String,
    /// Wikidata QID (e.g., "Q937" for Albert Einstein)
    pub wikidata_id: Option<String>,
    /// Properties verified against Wikidata (e.g., ["birth year: 1879", "birthplace: Ulm"])
    pub verified_properties: Vec<String>,
    /// Confidence in the match, fixed-point (`SCALE` = 1.0)
    pub confidence: u64,
}

/// Status of entity verification.
#[derive(Debug, Clone, Copy, PartialEq, Eq, Structural)]
pub enum VerificationStatus {
    /// At least one entity was verified against Wikidata
    Verified,
    /// An entity was found but properties contradict the claim
    Contradicted,
    /// No entities could be verified (not found or no network)
    Unknown,
}

/// The display text of a verification status.
pub open spec fn status_label(s: VerificationStatus) -> Seq<char> {
    match s {
        VerificationStatus::Verified => "VERIFIED"@,
        VerificationStatus::Contradicted => "CONTRADICTED"@,
        VerificationStatus::Unknown => "UNKNOWN"@,
    }
}

impl VerificationStatus {
    /// The display text: `VERIFIED`, `CONTRADICTED` or `UNKNOWN`.
    pub fn label(&self) -> (s: String)
        ensures
            s@ == status_label(*self),
    {
        match self {
            VerificationStatus::Verified => String::from_str("VERIFIED"),
            VerificationStatus::Contradicted => String::from_str("CONTRADICTED"),
            VerificationStatus::Unknown => String::from_str("UNKNOWN"),
        }
    }
}

/// Verification result for a single claim.
#[derive(Debug, Clone)]
pub struct VerificationResult {
    /// The claim text
    pub claim_text: String,
    /// Entity matches found for this claim
    pub matches: Vec<EntityMatch>,
    /// Overall verification status
    pub status: VerificationStatus,
}

// ── Named entities in a claim ───────────────────────────────────────────

/// Words that never start or continue a name: articles, pronouns,
/// connectives, auxiliaries and the like.
pub open spec fn skip_word(w: Seq<char>) -> bool {
    ||| w == "The"@
    ||| w == "This"@
    ||| w == "That"@
    ||| w == "These"@
    ||| w == "Those"@
    ||| w == "It"@
    ||| w == "They"@
    ||| w == "He"@
    ||| w == "She"@
    ||| w == "We"@
    ||| w == "However"@
    ||| w == "Although"@
    ||| w == "Moreover"@
    ||| w == "Furthermore"@
    ||| w == "Additionally"@
    ||| w == "In"@
    ||| w == "On"@
    ||| w == "At"@
    ||| w == "For"@
    ||| w == "With"@
    ||| w == "But"@
    ||| w == "And"@
    ||| w == "Or"@
    ||| w == "As"@
    ||| w == "If"@
    ||| w == "Was"@
    ||| w == "Were"@
    ||| w == "Is"@
    ||| w == "Are"@
    ||| w == "Has"@
    ||| w == "Had"@
    ||| w == "Have"@
    ||| w == "His"@
    ||| w == "Her"@
    ||| w == "Its"@
    ||| w == "Their"@
    ||| w == "Some"@
    ||| w == "Many"@
    ||| w == "Several"@
    ||| w == "Each"@
    ||| w == "Every"@
    ||| w == "No"@
    ||| w == "Not"@
    ||| w == "By"@
    ||| w == "From"@
    ||| w == "To"@
    ||| w == "Of"@
    ||| w == "A"@
    ||| w == "An"@
}

fn skip_word_chars(w: &[char]) -> (b: bool)
    ensures
        b == skip_word(w@),
{
    eq_str(w, "The") || eq_str(w, "This") || eq_str(w, "That") || eq_str(w, "These") || eq_str(w, "Those") || eq_str(w, "It") || eq_str(w, "They") || eq_str(w, "He") || eq_str(w, "She") || eq_str(w, "We") || eq_str(w, "However") || eq_str(w, "Although") || eq_str(w, "Moreover") || eq_str(w, "Furthermore") || eq_str(w, "Additionally") || eq_str(w, "In") || eq_str(w, "On") || eq_str(w, "At") || eq_str(w, "For") || eq_str(w, "With") || eq_str(w, "But") || eq_str(w, "And") || eq_str(w, "Or") || eq_str(w, "As") || eq_str(w, "If") || eq_str(w, "Was") || eq_str(w, "Were") || eq_str(w, "Is") || eq_str(w, "Are") || eq_str(w, "Has") || eq_str(w, "Had") || eq_str(w, "Have") || eq_str(w, "His") || eq_str(w, "Her") || eq_str(w, "Its") || eq_str(w, "Their") || eq_str(w, "Some") || eq_str(w, "Many") || eq_str(w, "Several") || eq_str(w, "Each") || eq_str(w, "Every") || eq_str(w, "No") || eq_str(w, "Not") || eq_str(w, "By") || eq_str(w, "From") || eq_str(w, "To") || eq_str(w, "Of") || eq_str(w, "A") || eq_str(w, "An")
}

/// Whether `word` is one of the words that never start or continue a name.
pub fn is_skip_word(word: &str) -> (b: bool)
    ensures
        b == skip_word(word@),
{
    let w = chars_of(word);
    skip_word_chars(w.as_slice())
}

/// Some character after the first is lower-case.
pub open spec fn lowercase_after_first(w: Seq<char>) -> bool {
    exists|k: int| 1 <= k < w.len() && unicode_lowercase_char(#[trigger] w[k])
}

/// A likely proper noun: more than one byte long, an upper-case first
/// character, a lower-case character after it, and not a skip word.
pub open spec fn capitalized_name_word(w: Seq<char>) -> bool {
    &&& utf8_len(w) > 1
    &&& w.len() > 0
    &&& unicode_uppercase(w[0])
    &&& lowercase_after_first(w)
    &&& !skip_word(w)
}

fn name_word(w: &[char]) -> (b: bool)
    ensures
        b == capitalized_name_word(w@),
{
    if !utf8_len_exceeds(w, 1) || w.len() == 0 || !is_uppercase(w[0]) {
        return false;
    }
    let mut k: usize = 1;
    while k < w.len()
        invariant
            1 <= k <= w@.len(),
            utf8_len(w@) > 1,
            unicode_uppercase(w@[0]),
            forall|m: int| 1 <= m < k ==> !unicode_lowercase_char(#[trigger] w@[m]),
        decreases w@.len() - k,
    {
        if is_lowercase(w[k]) {
            return !skip_word_chars(w);
        }
        k += 1;
    }
    false
}

/// Whether `word` looks like a proper noun (see `capitalized_name_word`).
pub fn is_capitalized_name_word(word: &str) -> (b: bool)
    ensures
        b == capitalized_name_word(word@),
{
    let w = chars_of(word);
    name_word(w.as_slice())
}

/// The words of `t` without their leading and trailing ASCII punctuation.
pub open spec fn trimmed_words(t: Seq<char>) -> Seq<Seq<char>> {
    words(t).map_values(|w: Seq<char>| trim_punctuation(w))
}

/// The end of the run of name words that starts at `j`.
pub open spec fn run_end(ws: Seq<Seq<char>>, j: int) -> int
    decreases ws.len() - j,
{
    if 0 <= j < ws.len() && capitalized_name_word(ws[j]) {
        run_end(ws, j + 1)
    } else {
        j
    }
}

pub proof fn lemma_run_end_ge(ws: Seq<Seq<char>>, j: int)
    ensures
        run_end(ws, j) >= j,
        0 <= j <= ws.len() ==> run_end(ws, j) <= ws.len(),
    decreases ws.len() - j,
{
    if 0 <= j < ws.len() && capitalized_name_word(ws[j]) {
        lemma_run_end_ge(ws, j + 1);
    }
}

/// The names found from word `i` on.  A name word opens a name when it is
/// not the first word, or when the claim has more than one word; the run of
/// name words that follows it joins it.  A run of two or more words is one
/// name (joined by spaces); a single name word counts only after the first
/// word of the claim.
pub open spec fn names_from(ws: Seq<Seq<char>>, i: int) -> Seq<Seq<char>>
    decreases ws.len() - i,
{
    if i < 0 || i >= ws.len() {
        seq![]
    } else if capitalized_name_word(ws[i]) && (i > 0 || ws.len() > 1) {
        let j = run_end(ws, i + 1);
        proof {
            lemma_run_end_ge(ws, i + 1);
        }
        if j - i >= 2 {
            seq![join(ws.subrange(i, j), seq![' '])] + names_from(ws, j)
        } else if i > 0 {
            seq![ws[i]] + names_from(ws, i + 1)
        } else {
            names_from(ws, i + 1)
        }
    } else {
        names_from(ws, i + 1)
    }
}

/// The capitalised names of a claim.
pub open spec fn claim_names(t: Seq<char>) -> Seq<Seq<char>> {
    names_from(trimmed_words(t), 0)
}

fn trimmed_words_of(t: &[char]) -> (r: Vec<Vec<char>>)
    ensures
        views_of(r@) == trimmed_words(t@),
{
    let ws = split_whitespace(t);
    let ghost wv = views_of(ws@);
    let mut r: Vec<Vec<char>> = Vec::new();
    let mut i: usize = 0;
    while i < ws.len()
        invariant
            i <= ws@.len(),
            wv == views_of(ws@),
            wv == words(t@),
            views_of(r@) == wv.take(i as int).map_values(|w: Seq<char>| trim_punctuation(w)),
        decreases ws@.len() - i,
    {
        assert(wv[i as int] == ws@[i as int]@);
        let ghost before = views_of(r@);
        let w = trim_punctuation_chars(ws[i].as_slice());
        r.push(w);
        assert(views_of(r@) =~= before.push(w@));
        assert(before.push(w@) =~= wv.take(i + 1).map_values(|w: Seq<char>| trim_punctuation(w)));
        i += 1;
    }
    assert(wv.take(ws@.len() as int) =~= wv);
    r
}

fn copy_chars(w: &[char]) -> (r: Vec<char>)
    ensures
        r@ == w@,
{
    let mut r: Vec<char> = Vec::new();
    extend_chars(&mut r, w);
    r
}

fn names_of(tws: &Vec<Vec<char>>) -> (r: Vec<Vec<char>>)
    ensures
        views_of(r@) == names_from(views_of(tws@), 0),
{
    let ghost tv = views_of(tws@);
    let n = tws.len();
    let mut r: Vec<Vec<char>> = Vec::new();
    let mut i: usize = 0;
    while i < n
        invariant
            n == tv.len(),
            tv == views_of(tws@),
            i <= n,
            views_of(r@) + names_from(tv, i as int) == names_from(tv, 0),
        decreases n - i,
    {
        let ghost before = views_of(r@);
        assert(tv[i as int] == tws@[i as int]@);
        if name_word(tws[i].as_slice()) && (i > 0 || n > 1) {
            let mut j: usize = i + 1;
            while j < n && name_word(tws[j].as_slice())
                invariant
                    n == tv.len(),
                    tv == views_of(tws@),
                    i < j <= n,
                    run_end(tv, j as int) == run_end(tv, i + 1),
                decreases n - j,
            {
                assert(tv[j as int] == tws@[j as int]@);
                j += 1;
            }
            if j < n {
                assert(tv[j as int] == tws@[j as int]@);
            }
            assert(run_end(tv, j as int) == j);
            if j - i >= 2 {
                let joined = join_words(tws, i, j);
                r.push(joined);
                assert(views_of(r@) =~= before.push(joined@));
                assert(before.push(joined@) + names_from(tv, j as int) =~= before + (seq![joined@]
                    + names_from(tv, j as int)));
                i = j;
            } else {
                if i > 0 {
                    let c = copy_chars(tws[i].as_slice());
                    r.push(c);
                    assert(views_of(r@) =~= before.push(c@));
                    assert(before.push(c@) + names_from(tv, i + 1) =~= before + (seq![c@]
                        + names_from(tv, i + 1)));
                }
                i += 1;
            }
        } else {
            i += 1;
        }
    }
    assert(views_of(r@) + names_from(tv, n as int) =~= views_of(r@));
    r
}

/// Four-digit numbers standing alone; group 1 is the number.
pub const YEAR_PATTERN: &'static str = r"\b(\d{4})\b";

/// A year between 1000 and 2100, as `str::parse::<u32>` reads it.
pub open spec fn is_year_text(g: Seq<char>) -> bool {
    match parsed_u32(g) {
        Some(v) => 1000 <= v <= 2100,
        None => false,
    }
}

/// The groups that hold a year, in order.
pub open spec fn years_in(groups: Seq<Option<Seq<char>>>) -> Seq<Seq<char>>
    decreases groups.len(),
{
    if groups.len() == 0 {
        seq![]
    } else {
        let rest = years_in(groups.drop_last());
        match groups.last() {
            Some(g) => if is_year_text(g) {
                rest.push(g)
            } else {
                rest
            },
            None => rest,
        }
    }
}

/// The capture groups of `YEAR_PATTERN` in `t`; none when the pattern is
/// refused.
pub open spec fn year_groups(t: Seq<char>) -> Seq<Option<Seq<char>>> {
    if regex_compiles(YEAR_PATTERN@) {
        regex_first_groups(YEAR_PATTERN@, t)
    } else {
        seq![]
    }
}

/// Every year entity reads as a number from 1000 to 2100.
pub proof fn law_years_in_range(groups: Seq<Option<Seq<char>>>)
    ensures
        forall|k: int| 0 <= k < years_in(groups).len() ==> is_year_text(#[trigger] years_in(groups)[k]),
    decreases groups.len(),
{
    if groups.len() > 0 {
        law_years_in_range(groups.drop_last());
        let r = years_in(groups.drop_last());
        assert forall|k: int| 0 <= k < years_in(groups).len() implies is_year_text(
            #[trigger] years_in(groups)[k],
        ) by {
            if k < r.len() {
                assert(years_in(groups)[k] == r[k]);
            }
        }
    }
}

/// `x` is a run of name words of `ws`, joined by spaces.
pub open spec fn is_name_run(ws: Seq<Seq<char>>, x: Seq<char>) -> bool {
    exists|lo: int, hi: int|
        0 <= lo < hi <= ws.len() && x == join(ws.subrange(lo, hi), seq![' ']) && forall|k: int|
            lo <= k < hi ==> capitalized_name_word(#[trigger] ws[k])
}

proof fn lemma_run_words(ws: Seq<Seq<char>>, j: int)
    requires
        0 <= j,
    ensures
        forall|k: int| j <= k < run_end(ws, j) ==> capitalized_name_word(#[trigger] ws[k]),
    decreases ws.len() - j,
{
    if 0 <= j < ws.len() && capitalized_name_word(ws[j]) {
        lemma_run_words(ws, j + 1);
    }
}

proof fn lemma_names_are_runs(ws: Seq<Seq<char>>, i: int)
    requires
        0 <= i,
    ensures
        forall|k: int| 0 <= k < names_from(ws, i).len() ==> is_name_run(ws, #[trigger] names_from(ws, i)[k]),
    decreases ws.len() - i,
{
    if i < ws.len() {
        lemma_names_are_runs(ws, i + 1);
        if capitalized_name_word(ws[i]) && (i > 0 || ws.len() > 1) {
            let j = run_end(ws, i + 1);
            lemma_run_end_ge(ws, i + 1);
            lemma_run_words(ws, i + 1);
            lemma_names_are_runs(ws, j);
            if j - i >= 2 {
                let x = join(ws.subrange(i, j), seq![' ']);
                assert(is_name_run(ws, x)) by {
                    assert(forall|k: int| i <= k < j ==> capitalized_name_word(#[trigger] ws[k]));
                }
                let rest = names_from(ws, j);
                assert forall|k: int| 0 <= k < names_from(ws, i).len() implies is_name_run(
                    ws,
                    #[trigger] names_from(ws, i)[k],
                ) by {
                    if k > 0 {
                        assert(names_from(ws, i)[k] == rest[k - 1]);
                    } else {
                        assert(names_from(ws, i)[k] == x);
                    }
                }
            } else if i > 0 {
                let x = ws[i];
                assert(join(ws.subrange(i, i + 1), seq![' ']) == x) by {
                    assert(ws.subrange(i, i + 1).len() == 1);
                }
                assert(is_name_run(ws, x));
                let rest = names_from(ws, i + 1);
                assert forall|k: int| 0 <= k < names_from(ws, i).len() implies is_name_run(
                    ws,
                    #[trigger] names_from(ws, i)[k],
                ) by {
                    if k > 0 {
                        assert(names_from(ws, i)[k] == rest[k - 1]);
                    } else {
                        assert(names_from(ws, i)[k] == x);
                    }
                }
            } else {
                assert(names_from(ws, i) == names_from(ws, i + 1));
            }
        } else {
            assert(names_from(ws, i) == names_from(ws, i + 1));
        }
    }
}

/// Entities are names or years: every entity of a claim is either a run of
/// its words (without surrounding ASCII punctuation), each starting
/// upper-case, holding a lower-case letter and not a skip word, joined by
/// spaces; or a capture group that reads as a year from 1000 to 2100.
pub proof fn law_entities_are_names_or_years(claim: Seq<char>)
    ensures
        forall|x: Seq<char>|
            #![trigger (claim_names(claim) + years_in(year_groups(claim))).contains(x)]
            (claim_names(claim) + years_in(year_groups(claim))).contains(x) ==> is_name_run(
                trimmed_words(claim),
                x,
            ) || is_year_text(x),
{
    let names = claim_names(claim);
    let years = years_in(year_groups(claim));
    lemma_names_are_runs(trimmed_words(claim), 0);
    law_years_in_range(year_groups(claim));
    assert forall|x: Seq<char>| #[trigger] (names + years).contains(x) implies is_name_run(
        trimmed_words(claim),
        x,
    ) || is_year_text(x) by {
        let k = choose|k: int| 0 <= k < (names + years).len() && (names + years)[k] == x;
        if k < names.len() {
            assert(names[k] == x);
        } else {
            assert(years[k - names.len()] == x);
        }
    }
}

/// Every element is smaller than the next ones: sorted, without duplicates.
pub open spec fn strictly_sorted(s: Seq<Seq<char>>) -> bool {
    forall|i: int, j: int| 0 <= i < j < s.len() ==> lex_lt(#[trigger] s[i], #[trigger] s[j])
}

pub open spec fn group_views(v: Seq<Option<String>>) -> Seq<Option<Seq<char>>> {
    v.map_values(|o: Option<String>| option_view(o))
}

fn years_of(groups: &[Option<String>]) -> (r: Vec<Vec<char>>)
    ensures
        views_of(r@) == years_in(group_views(groups@)),
{
    let ghost gv = group_views(groups@);
    let mut r: Vec<Vec<char>> = Vec::new();
    let mut i: usize = 0;
    while i < groups.len()
        invariant
            i <= groups@.len(),
            gv == group_views(groups@),
            views_of(r@) == years_in(gv.take(i as int)),
        decreases groups@.len() - i,
    {
        assert(gv.take(i + 1).drop_last() =~= gv.take(i as int));
        assert(gv[i as int] == option_view(groups@[i as int]));
        match &groups[i] {
            Some(g) => {
                let c = chars_of(g.as_str());
                let year = parse_u32(c.as_slice());
                match year {
                    Some(y) => {
                        if 1000 <= y && y <= 2100 {
                            let ghost before = views_of(r@);
                            r.push(c);
                            assert(views_of(r@) =~= before.push(g@));
                        }
                    },
                    None => {},
                }
            },
            None => {},
        }
        i += 1;
    }
    assert(gv.take(groups@.len() as int) =~= gv);
    r
}

proof fn lemma_push_to_set(s: Seq<Seq<char>>, x: Seq<char>)
    ensures
        s.push(x).to_set() == s.to_set().insert(x),
{
    assert forall|e: Seq<char>| #[trigger] s.push(x).to_set().contains(e) <==> s.to_set().insert(
        x,
    ).contains(e) by {
        if s.push(x).contains(e) {
            let k = choose|k: int| 0 <= k < s.push(x).len() && s.push(x)[k] == e;
            if k < s.len() {
                assert(s[k] == e);
            }
        }
        if s.contains(e) {
            let k = choose|k: int| 0 <= k < s.len() && s[k] == e;
            assert(s.push(x)[k] == e);
        }
        if e == x {
            assert(s.push(x)[s.len() as int] == e);
        }
    }
    assert(s.push(x).to_set() =~= s.to_set().insert(x));
}

/// Adds `x` to the strictly sorted `v`, unless it is there already.
fn insert_sorted(v: &mut Vec<Vec<char>>, x: Vec<char>)
    requires
        strictly_sorted(views_of(old(v)@)),
    ensures
        strictly_sorted(views_of(final(v)@)),
        views_of(final(v)@).to_set() == views_of(old(v)@).to_set().insert(x@),
{
    let ghost old_v = views_of(v@);
    let mut p: usize = 0;
    while p < v.len() && lex_less(v[p].as_slice(), x.as_slice())
        invariant
            p <= v@.len(),
            old_v == views_of(v@),
            forall|k: int| 0 <= k < p ==> lex_lt(#[trigger] old_v[k], x@),
        decreases v@.len() - p,
    {
        assert(old_v[p as int] == v@[p as int]@);
        p += 1;
    }
    if p < v.len() {
        assert(old_v[p as int] == v@[p as int]@);
        if eq_chars(v[p].as_slice(), x.as_slice()) {
            assert(old_v.to_set().insert(x@) =~= old_v.to_set());
            return;
        }
        proof {
            lemma_lex_total(old_v[p as int], x@);
        }
    }
    v.insert(p, x);
    let ghost new_v = views_of(v@);
    assert(new_v =~= old_v.insert(p as int, x@));
    assert forall|i: int, j: int| 0 <= i < j < new_v.len() implies lex_lt(
        #[trigger] new_v[i],
        #[trigger] new_v[j],
    ) by {
        if j < p {
            assert(lex_lt(old_v[i], old_v[j]));
        } else if j == p {
            assert(lex_lt(old_v[i], x@));
        } else if i < p {
            assert(lex_lt(old_v[i], x@));
            if j - 1 > p {
                assert(lex_lt(old_v[p as int], old_v[j - 1]));
                lemma_lex_transitive(x@, old_v[p as int], old_v[j - 1]);
            }
            lemma_lex_transitive(old_v[i], x@, old_v[j - 1]);
        } else if i == p {
            if j - 1 > p {
                assert(lex_lt(old_v[p as int], old_v[j - 1]));
                lemma_lex_transitive(x@, old_v[p as int], old_v[j - 1]);
            }
        } else {
            assert(lex_lt(old_v[i - 1], old_v[j - 1]));
        }
    }
    assert forall|e: Seq<char>| #[trigger] new_v.to_set().contains(e) <==> old_v.to_set().insert(
        x@,
    ).contains(e) by {
        if new_v.contains(e) {
            let k = choose|k: int| 0 <= k < new_v.len() && new_v[k] == e;
            if k < p {
                assert(old_v[k] == e);
            } else if k > p {
                assert(old_v[k - 1] == e);
            }
        }
        if old_v.contains(e) {
            let k = choose|k: int| 0 <= k < old_v.len() && old_v[k] == e;
            if k < p {
                assert(new_v[k] == e);
            } else {
                assert(new_v[k + 1] == e);
            }
        }
        if e == x@ {
            assert(new_v[p as int] == e);
        }
    }
    assert(new_v.to_set() =~= old_v.to_set().insert(x@));
}

/// The sorted, duplicate-free entities of `claim`, given the capture groups
/// of `YEAR_PATTERN` in it: the capitalised names, then the years among the
/// groups.
pub fn collect_entities(claim: &str, groups: &[Option<String>]) -> (r: Vec<String>)
    ensures
        strictly_sorted(string_views(r@)),
        string_views(r@).to_set() == (claim_names(claim@) + years_in(group_views(groups@))).to_set(),
{
    let text = chars_of(claim);
    let tws = trimmed_words_of(text.as_slice());
    let mut all = names_of(&tws);
    let years = years_of(groups);
    let ghost names_v = views_of(all@);
    let mut k: usize = 0;
    while k < years.len()
        invariant
            k <= years@.len(),
            views_of(all@) == names_v + views_of(years@).take(k as int),
        decreases years@.len() - k,
    {
        let ghost before = views_of(all@);
        let c = copy_chars(years[k].as_slice());
        all.push(c);
        assert(views_of(all@) =~= before.push(c@));
        assert(views_of(years@).take(k + 1) =~= views_of(years@).take(k as int).push(c@));
        assert(names_v + views_of(years@).take(k + 1) =~= before.push(c@));
        k += 1;
    }
    assert(views_of(years@).take(years@.len() as int) =~= views_of(years@));
    let ghost all_v = views_of(all@);
    let mut sorted: Vec<Vec<char>> = Vec::new();
    let mut i: usize = 0;
    while i < all.len()
        invariant
            i <= all@.len(),
            all_v == views_of(all@),
            strictly_sorted(views_of(sorted@)),
            views_of(sorted@).to_set() == all_v.take(i as int).to_set(),
        decreases all@.len() - i,
    {
        let c = copy_chars(all[i].as_slice());
        assert(all_v[i as int] == c@);
        insert_sorted(&mut sorted, c);
        proof {
            assert(all_v.take(i + 1) =~= all_v.take(i as int).push(c@));
            lemma_push_to_set(all_v.take(i as int), c@);
        }
        i += 1;
    }
    assert(all_v.take(all@.len() as int) =~= all_v);
    strings_of(&sorted)
}

/// Extract named entities from a claim text: capitalised names (e.g.
/// "Albert Einstein", "New York") and four-digit years (e.g. "1879"),
/// sorted and without duplicates.
pub fn extract_entities_from_claim(claim: &str) -> (r: Vec<String>)
    ensures
        strictly_sorted(string_views(r@)),
        string_views(r@).to_set() == (claim_names(claim@) + years_in(year_groups(claim@))).to_set(),
{
    let groups = match regex_group_one(YEAR_PATTERN, claim) {
        Ok(g) => g,
        Err(_) => Vec::new(),
    };
    proof {
        if !regex_compiles(YEAR_PATTERN@) {
            assert(group_views(groups@) =~= seq![]);
        }
    }
    collect_entities(claim, groups.as_slice())
}

// ── Looking entities up in Wikidata ─────────────────────────────────────
//
// The lookup itself is a network request made by the caller; this library
// decides what to look up, writes the request and reads the answer.

/// Years are not entities to look up: four ASCII digits.
pub open spec fn year_entity(e: Seq<char>) -> bool {
    e.len() == 4 && all_ascii_digits(e)
}

/// Whether `entity` is a year (four ASCII digits), which is not looked up.
pub fn is_year_entity(entity: &str) -> (b: bool)
    ensures
        b == year_entity(entity@),
{
    let c = chars_of(entity);
    if c.len() != 4 {
        return false;
    }
    let mut k: usize = 0;
    while k < 4
        invariant
            c@ == entity@,
            c@.len() == 4,
            k <= 4,
            forall|m: int| 0 <= m < k ==> is_ascii_digit(#[trigger] c@[m]),
        decreases 4 - k,
    {
        if !ascii_digit(c[k]) {
            return false;
        }
        k += 1;
    }
    true
}

/// The start of the SPARQL query for a person, up to the quoted label.
pub const PERSON_QUERY_HEAD: &'static str =
    "SELECT ?item ?itemLabel ?birthYear ?birthPlaceLabel WHERE {\n  ?item rdfs:label \"";

/// The rest of the SPARQL query for a person, after the quoted label.
pub const PERSON_QUERY_TAIL: &'static str =
    "\"@en .\n  ?item wdt:P31 wd:Q5 .\n  OPTIONAL { ?item wdt:P569 ?birthDate . BIND(YEAR(?birthDate) AS ?birthYear) }\n  OPTIONAL { ?item wdt:P19 ?birthPlace . }\n  SERVICE wikibase:label { bd:serviceParam wikibase:language \"en\" . }\n} LIMIT 1";

/// The start of the SPARQL query for a place, up to the quoted label.
pub const PLACE_QUERY_HEAD: &'static str = "SELECT ?item ?itemLabel WHERE {\n  ?item rdfs:label \"";

/// The rest of the SPARQL query for a place (a city, a country or a
/// geographic region), after the quoted label.
pub const PLACE_QUERY_TAIL: &'static str =
    "\"@en .\n  { ?item wdt:P31/wdt:P279* wd:Q515 . }\n  UNION\n  { ?item wdt:P31/wdt:P279* wd:Q6256 . }\n  UNION\n  { ?item wdt:P31/wdt:P279* wd:Q82794 . }\n  SERVICE wikibase:label { bd:serviceParam wikibase:language \"en\" . }\n} LIMIT 1";

/// The address of the Wikidata SPARQL endpoint, up to the query.
pub const WIKIDATA_ENDPOINT: &'static str = "https://query.wikidata.org/sparql?query=";

/// A person's name: two or more words, each starting upper-case.
pub open spec fn looks_like_person(e: Seq<char>) -> bool {
    let ws = words(e);
    &&& ws.len() >= 2
    &&& forall|k: int| 0 <= k < ws.len() ==> (#[trigger] ws[k]).len() > 0 && unicode_uppercase(ws[k][0])
}

/// `s` with every `"` written `\"`.
pub open spec fn escape_quotes(s: Seq<char>) -> Seq<char>
    decreases s.len(),
{
    if s.len() == 0 {
        seq![]
    } else {
        escape_quotes(s.drop_last()) + if s.last() == '"' {
            seq!['\\', '"']
        } else {
            seq![s.last()]
        }
    }
}

/// The SPARQL query that looks `e` up: as a person when it looks like one,
/// else as a place.
pub open spec fn query_text(e: Seq<char>) -> Seq<char> {
    if looks_like_person(e) {
        PERSON_QUERY_HEAD@ + escape_quotes(e) + PERSON_QUERY_TAIL@
    } else {
        PLACE_QUERY_HEAD@ + escape_quotes(e) + PLACE_QUERY_TAIL@
    }
}

fn person_like(e: &[char]) -> (b: bool)
    ensures
        b == looks_like_person(e@),
{
    let ws = split_whitespace(e);
    let ghost wv = views_of(ws@);
    if ws.len() < 2 {
        return false;
    }
    let mut k: usize = 0;
    while k < ws.len()
        invariant
            k <= ws@.len(),
            wv == views_of(ws@),
            wv == words(e@),
            wv.len() >= 2,
            forall|m: int| 0 <= m < k ==> (#[trigger] wv[m]).len() > 0 && unicode_uppercase(wv[m][0]),
        decreases ws@.len() - k,
    {
        assert(wv[k as int] == ws@[k as int]@);
        if ws[k].len() == 0 || !is_uppercase(ws[k][0]) {
            return false;
        }
        k += 1;
    }
    true
}

fn push_escaped(r: &mut Vec<char>, e: &[char])
    ensures
        final(r)@ == old(r)@ + escape_quotes(e@),
{
    let ghost start = r@;
    let mut k: usize = 0;
    while k < e.len()
        invariant
            k <= e@.len(),
            r@ == start + escape_quotes(e@.take(k as int)),
        decreases e@.len() - k,
    {
        assert(e@.take(k + 1).drop_last() =~= e@.take(k as int));
        let c = e[k];
        if c == '"' {
            r.push('\\');
            r.push('"');
            assert(r@ =~= start + escape_quotes(e@.take(k + 1)));
        } else {
            r.push(c);
            assert(r@ =~= start + escape_quotes(e@.take(k + 1)));
        }
        k += 1;
    }
    assert(e@.take(e@.len() as int) =~= e@);
}

/// The SPARQL query that looks `entity` up in Wikidata: a person (an
/// instance of human, with birth year and birthplace) when it is two or more
/// capitalised words, else a city, country or geographic region.  Quotes in
/// the name are escaped.
pub fn wikidata_query(entity: &str) -> (q: String)
    ensures
        q@ == query_text(entity@),
{
    let e = chars_of(entity);
    let person = person_like(e.as_slice());
    let head = if person {
        chars_of(PERSON_QUERY_HEAD)
    } else {
        chars_of(PLACE_QUERY_HEAD)
    };
    let tail = if person {
        chars_of(PERSON_QUERY_TAIL)
    } else {
        chars_of(PLACE_QUERY_TAIL)
    };
    let mut r: Vec<char> = Vec::new();
    extend_chars(&mut r, head.as_slice());
    push_escaped(&mut r, e.as_slice());
    extend_chars(&mut r, tail.as_slice());
    string_of(r.as_slice())
}

/// Bytes that a URL carries as they are: ASCII letters and digits, `-`,
/// `_`, `.` and `~`.
pub open spec fn unreserved(b: u8) -> bool {
    ||| 65 <= b <= 90
    ||| 97 <= b <= 122
    ||| 48 <= b <= 57
    ||| b == 45
    ||| b == 95
    ||| b == 46
    ||| b == 126
}

/// An upper-case hexadecimal digit.
pub open spec fn hex_digit(n: nat) -> char {
    if n < 10 {
        (48 + n) as char
    } else {
        (55 + n) as char
    }
}

/// One byte of a URL: itself when unreserved, else `%` and two hex digits.
pub open spec fn percent_encoded(b: u8) -> Seq<char> {
    if unreserved(b) {
        seq![b as char]
    } else {
        seq!['%', hex_digit((b / 16) as nat), hex_digit((b % 16) as nat)]
    }
}

/// Percent-encoding of a byte string.
pub open spec fn url_encoded(bs: Seq<u8>) -> Seq<char>
    decreases bs.len(),
{
    if bs.len() == 0 {
        seq![]
    } else {
        url_encoded(bs.drop_last()) + percent_encoded(bs.last())
    }
}

/// The characters a percent-encoded URL part is made of: ASCII letters and
/// digits, `-`, `_`, `.`, `~` and `%`.
pub open spec fn url_safe(c: char) -> bool {
    ||| 'A' <= c <= 'Z'
    ||| 'a' <= c <= 'z'
    ||| '0' <= c <= '9'
    ||| c == '-'
    ||| c == '_'
    ||| c == '.'
    ||| c == '~'
    ||| c == '%'
}

/// The length of the percent-encoding of `bs`: one character per unreserved
/// byte, three per other byte.
pub open spec fn encoded_len(bs: Seq<u8>) -> nat
    decreases bs.len(),
{
    if bs.len() == 0 {
        0
    } else {
        encoded_len(bs.drop_last()) + if unreserved(bs.last()) {
            1nat
        } else {
            3nat
        }
    }
}

/// Percent-encoding uses only URL-safe characters, one per unreserved byte
/// and three per other byte.
pub proof fn law_url_encoded_alphabet(bs: Seq<u8>)
    ensures
        forall|i: int| 0 <= i < url_encoded(bs).len() ==> url_safe(#[trigger] url_encoded(bs)[i]),
        url_encoded(bs).len() == encoded_len(bs),
    decreases bs.len(),
{
    if bs.len() > 0 {
        law_url_encoded_alphabet(bs.drop_last());
        let r = url_encoded(bs.drop_last());
        let b = bs.last();
        let p = percent_encoded(b);
        assert forall|i: int| 0 <= i < p.len() implies url_safe(#[trigger] p[i]) by {
            if unreserved(b) {
                assert(p[i] == b as char);
            } else {
                let hi = (b / 16) as nat;
                let lo = (b % 16) as nat;
                assert(hi < 16 && lo < 16);
            }
        }
        assert forall|i: int| 0 <= i < url_encoded(bs).len() implies url_safe(
            #[trigger] url_encoded(bs)[i],
        ) by {
            if i < r.len() {
                assert(url_encoded(bs)[i] == r[i]);
            } else {
                assert(url_encoded(bs)[i] == p[i - r.len()]);
            }
        }
    }
}

/// The value of a hexadecimal digit (`0`-`9`, `A`-`F`).
pub open spec fn hex_value(c: char) -> int {
    if '0' <= c <= '9' {
        (c as int) - 48
    } else {
        (c as int) - 55
    }
}

/// Percent-decoding: `%` and two hexadecimal digits give one byte; any
/// other character gives its own code as a byte.
pub open spec fn url_decoded(s: Seq<char>) -> Seq<u8>
    decreases s.len(),
{
    if s.len() == 0 {
        seq![]
    } else if s.len() >= 3 && s[s.len() - 3] == '%' {
        url_decoded(s.take(s.len() - 3)).push((16 * hex_value(s[s.len() - 2]) + hex_value(s.last())) as u8)
    } else {
        url_decoded(s.drop_last()).push(s.last() as u8)
    }
}

proof fn lemma_percent_not_last(bs: Seq<u8>)
    ensures
        forall|i: int|
            0 <= i < url_encoded(bs).len() && #[trigger] url_encoded(bs)[i] == '%' ==> i + 2 < url_encoded(
                bs,
            ).len(),
    decreases bs.len(),
{
    if bs.len() > 0 {
        lemma_percent_not_last(bs.drop_last());
        let r = url_encoded(bs.drop_last());
        let b = bs.last();
        let p = percent_encoded(b);
        assert forall|i: int|
            0 <= i < url_encoded(bs).len() && #[trigger] url_encoded(bs)[i] == '%' implies i + 2
            < url_encoded(bs).len() by {
            if i < r.len() {
                assert(url_encoded(bs)[i] == r[i]);
            } else {
                assert(url_encoded(bs)[i] == p[i - r.len()]);
                if unreserved(b) {
                    assert(p[0] == b as char);
                } else {
                    let lo = (b % 16) as nat;
                    let hi = (b / 16) as nat;
                    assert(lo < 16 && hi < 16);
                }
            }
        }
    }
}

/// Percent-decoding undoes percent-encoding.
pub proof fn law_url_round_trip(bs: Seq<u8>)
    ensures
        url_decoded(url_encoded(bs)) == bs,
    decreases bs.len(),
{
    if bs.len() > 0 {
        law_url_round_trip(bs.drop_last());
        lemma_percent_not_last(bs.drop_last());
        let r = url_encoded(bs.drop_last());
        let b = bs.last();
        let s = url_encoded(bs);
        assert(s == r + percent_encoded(b));
        if unreserved(b) {
            assert(s.drop_last() =~= r);
            assert(s.last() == b as char);
            if s.len() >= 3 {
                assert(s[s.len() - 3] == r[r.len() - 2]);
                if r[r.len() - 2] == '%' {
                    assert(false);
                }
            }
            assert(((b as char) as u8) == b);
        } else {
            let hi = b / 16;
            let lo = b % 16;
            assert(s[s.len() - 3] == '%');
            assert(s.take(s.len() - 3) =~= r);
            assert(s[s.len() - 2] == hex_digit(hi as nat));
            assert(s.last() == hex_digit(lo as nat));
            assert(hex_value(hex_digit(hi as nat)) == hi);
            assert(hex_value(hex_digit(lo as nat)) == lo);
            assert(16 * (b / 16) + b % 16 == b) by (bit_vector);
        }
        assert(url_decoded(s) =~= bs);
    }
}

fn byte_char(b: u8) -> (c: char)
    ensures
        c == b as char,
{
    b as char
}

fn hex_char(n: u8) -> (c: char)
    requires
        n < 16,
    ensures
        c == hex_digit(n as nat),
{
    if n < 10 {
        byte_char(48 + n)
    } else {
        byte_char(55 + n)
    }
}

/// Percent-encodes the UTF-8 bytes of `s` for use in a URL.
pub fn urlencoded(s: &str) -> (r: String)
    ensures
        r@ == url_encoded(encode_utf8(s@)),
{
    let bytes = s.as_bytes();
    let ghost bs = encode_utf8(s@);
    let mut r = String::new();
    let mut k: usize = 0;
    while k < bytes.len()
        invariant
            bytes@ == bs,
            k <= bs.len(),
            r@ == url_encoded(bs.take(k as int)),
        decreases bs.len() - k,
    {
        let b = bytes[k];
        assert(bs.take(k + 1).drop_last() =~= bs.take(k as int));
        let ghost before = r@;
        let unres = (65 <= b && b <= 90) || (97 <= b && b <= 122) || (48 <= b && b <= 57) || b
            == 45 || b == 95 || b == 46 || b == 126;
        if unres {
            push_char(&mut r, byte_char(b));
        } else {
            push_char(&mut r, '%');
            push_char(&mut r, hex_char(b / 16));
            push_char(&mut r, hex_char(b % 16));
        }
        assert(r@ =~= before + percent_encoded(b));
        k += 1;
    }
    assert(bs.take(bs.len() as int) =~= bs);
    r
}

/// The address that asks Wikidata about `entity`.
pub fn wikidata_query_url(entity: &str) -> (u: String)
    ensures
        u@ == WIKIDATA_ENDPOINT@ + url_encoded(encode_utf8(query_text(entity@))),
{
    let q = wikidata_query(entity);
    let enc = urlencoded(q.as_str());
    let mut r = chars_of(WIKIDATA_ENDPOINT);
    let e = chars_of(enc.as_str());
    extend_chars(&mut r, e.as_slice());
    string_of(r.as_slice())
}

/// The first row of a Wikidata answer, as plain values: the item's address,
/// the birth year and the birthplace label, where the answer has them.
#[derive(Debug, Clone)]
pub struct WikidataBinding {
    pub item: Option<String>,
    pub birth_year: Option<String>,
    pub birth_place: Option<String>,
}

/// What follows the last `/` of `u` (all of `u` when it has none).
pub open spec fn last_segment(u: Seq<char>) -> Seq<char>
    decreases u.len(),
{
    if u.len() == 0 || u.last() == '/' {
        seq![]
    } else {
        last_segment(u.drop_last()).push(u.last())
    }
}

/// The properties that the answer confirms: the birth year, and the
/// birthplace when it differs from the entity itself.
pub open spec fn binding_properties(
    entity: Seq<char>,
    birth_year: Option<Seq<char>>,
    birth_place: Option<Seq<char>>,
) -> Seq<Seq<char>> {
    let years = match birth_year {
        Some(y) => seq!["birth year: "@ + y],
        None => seq![],
    };
    let places = match birth_place {
        Some(p) => if p != entity {
            seq!["birthplace: "@ + p]
        } else {
            seq![]
        },
        None => seq![],
    };
    years + places
}

fn last_segment_chars(u: &[char]) -> (r: Vec<char>)
    ensures
        r@ == last_segment(u@),
{
    let mut start: usize = u.len();
    assert(u@.take(start as int) =~= u@);
    assert(u@.subrange(start as int, u@.len() as int) =~= seq![]);
    while start > 0 && u[start - 1] != '/'
        invariant
            start <= u@.len(),
            last_segment(u@) == last_segment(u@.take(start as int)) + u@.subrange(
                start as int,
                u@.len() as int,
            ),
        decreases start,
    {
        assert(u@.take(start as int).drop_last() =~= u@.take(start - 1));
        assert(u@.subrange(start - 1, u@.len() as int) =~= seq![u@[start - 1]] + u@.subrange(
            start as int,
            u@.len() as int,
        ));
        assert(last_segment(u@.take(start as int)) =~= last_segment(u@.take(start - 1)).push(
            u@[start - 1],
        ));
        start -= 1;
    }
    assert(last_segment(u@.take(start as int)) =~= seq![]);
    let mut r: Vec<char> = Vec::new();
    let mut k: usize = start;
    while k < u.len()
        invariant
            start <= k <= u@.len(),
            r@ == u@.subrange(start as int, k as int),
        decreases u@.len() - k,
    {
        r.push(u[k]);
        assert(u@.subrange(start as int, k + 1) =~= u@.subrange(start as int, k as int).push(
            u@[k as int],
        ));
        k += 1;
    }
    assert(last_segment(u@) =~= r@);
    r
}

fn labelled(label: &str, value: &str) -> (s: String)
    ensures
        s@ == label@ + value@,
{
    let mut r = chars_of(label);
    let v = chars_of(value);
    extend_chars(&mut r, v.as_slice());
    string_of(r.as_slice())
}

/// The match that a Wikidata answer gives for `entity`: its QID (the last
/// segment of the item's address), the confirmed properties, and a
/// confidence of 0.8 with properties, 0.6 without.
pub fn match_from_binding(entity: &str, binding: &WikidataBinding) -> (m: EntityMatch)
    ensures
        m.entity_name@ == entity@,
        option_view(m.wikidata_id) == (match option_view(binding.item) {
            Some(u) => Some(last_segment(u)),
            None => None,
        }),
        string_views(m.verified_properties@) == binding_properties(
            entity@,
            option_view(binding.birth_year),
            option_view(binding.birth_place),
        ),
        m.confidence == if m.verified_properties@.len() > 0 {
            2_400_000_000_000_000u64
        } else {
            1_800_000_000_000_000u64
        },
{
    let qid = match &binding.item {
        Some(u) => {
            let c = chars_of(u.as_str());
            let seg = last_segment_chars(c.as_slice());
            Some(string_of(seg.as_slice()))
        },
        None => None,
    };
    let mut properties: Vec<String> = Vec::new();
    match &binding.birth_year {
        Some(y) => {
            properties.push(labelled("birth year: ", y.as_str()));
        },
        None => {},
    }
    let e = chars_of(entity);
    let ghost years_part = string_views(properties@);
    match &binding.birth_place {
        Some(p) => {
            let pc = chars_of(p.as_str());
            if !eq_chars(pc.as_slice(), e.as_slice()) {
                properties.push(labelled("birthplace: ", p.as_str()));
            }
        },
        None => {},
    }
    assert(string_views(properties@) =~= binding_properties(
        entity@,
        option_view(binding.birth_year),
        option_view(binding.birth_place),
    ));
    let confidence: u64 = if properties.len() > 0 {
        2_400_000_000_000_000
    } else {
        1_800_000_000_000_000
    };
    EntityMatch {
        entity_name: entity.to_owned(),
        wikidata_id: qid,
        verified_properties: properties,
        confidence,
    }
}

/// The match recorded for an entity that Wikidata does not know, or that
/// could not be looked up: no QID, no properties, confidence 0.
pub fn unmatched_entity(entity: &str) -> (m: EntityMatch)
    ensures
        m.entity_name@ == entity@,
        m.wikidata_id is None,
        m.verified_properties@.len() == 0,
        m.confidence == 0,
{
    EntityMatch {
        entity_name: entity.to_owned(),
        wikidata_id: None,
        verified_properties: Vec::new(),
        confidence: 0,
    }
}

/// What a lookup of `entity` records: the match of the answer's first row
/// when Wikidata answered with one, else an unmatched entity (no such item,
/// or the lookup failed).
pub fn match_from_lookup(entity: &str, outcome: Result<Option<WikidataBinding>, String>) -> (m:
    EntityMatch)
    ensures
        m.entity_name@ == entity@,
        match outcome {
            Ok(Some(b)) => {
                &&& option_view(m.wikidata_id) == (match option_view(b.item) {
                    Some(u) => Some(last_segment(u)),
                    None => None,
                })
                &&& string_views(m.verified_properties@) == binding_properties(
                    entity@,
                    option_view(b.birth_year),
                    option_view(b.birth_place),
                )
                &&& m.confidence == if m.verified_properties@.len() > 0 {
                    2_400_000_000_000_000u64
                } else {
                    1_800_000_000_000_000u64
                }
            },
            _ => m.wikidata_id is None && m.verified_properties@.len() == 0 && m.confidence == 0,
        },
{
    match outcome {
        Ok(Some(b)) => match_from_binding(entity, &b),
        _ => unmatched_entity(entity),
    }
}

/// Some match has a QID and a confidence above 0.5.
pub open spec fn has_verified_match(ms: Seq<EntityMatch>) -> bool {
    exists|k: int| 0 <= k < ms.len() && (#[trigger] ms[k]).wikidata_id is Some && ms[k].confidence > 1_500_000_000_000_000
}

fn any_verified(matches: &Vec<EntityMatch>) -> (b: bool)
    ensures
        b == has_verified_match(matches@),
{
    let mut k: usize = 0;
    while k < matches.len()
        invariant
            k <= matches@.len(),
            forall|m: int| 0 <= m < k ==> !((#[trigger] matches@[m]).wikidata_id is Some
                && matches@[m].confidence > 1_500_000_000_000_000),
        decreases matches@.len() - k,
    {
        if matches[k].wikidata_id.is_some() && matches[k].confidence > 1_500_000_000_000_000 {
            return true;
        }
        k += 1;
    }
    false
}

/// The verification result of a claim whose entities gave `matches`:
/// verified when some match has a QID and a confidence above 0.5, else
/// unknown.
pub fn verification_from_matches(claim_text: &str, matches: Vec<EntityMatch>) -> (r: VerificationResult)
    ensures
        r.claim_text@ == claim_text@,
        r.matches@ == matches@,
        r.status == if has_verified_match(matches@) {
            VerificationStatus::Verified
        } else {
            VerificationStatus::Unknown
        },
{
    let verified = any_verified(&matches);
    let status = if verified {
        VerificationStatus::Verified
    } else {
        VerificationStatus::Unknown
    };
    VerificationResult { claim_text: claim_text.to_owned(), matches, status }
}

/// Verify a claim's entities without a network lookup: the claim is kept,
/// no entity is matched and the status is unknown.
pub fn verify_claim(claim_text: &str) -> (r: VerificationResult)
    ensures
        r.claim_text@ == claim_text@,
        r.matches@.len() == 0,
        r.status == VerificationStatus::Unknown,
{
    VerificationResult {
        claim_text: claim_text.to_owned(),
        matches: Vec::new(),
        status: VerificationStatus::Unknown,
    }
}

// ── Verification modifier ───────────────────────────────────────────────

/// The number of results of `rs` that have status `st`.
pub open spec fn count_status(rs: Seq<VerificationResult>, st: VerificationStatus) -> nat
    decreases rs.len(),
{
    if rs.len() == 0 {
        0
    } else {
        count_status(rs.drop_last(), st) + if rs.last().status == st {
            1nat
        } else {
            0nat
        }
    }
}

/// `0.15 · (verified - contradicted) / total` in fixed point, rounded toward
/// zero; 0 when there is nothing to count.
pub open spec fn modifier_from_counts(verified: nat, contradicted: nat, total: nat) -> int {
    if total == 0 {
        0
    } else if verified >= contradicted {
        (450_000_000_000_000 * (verified - contradicted) as nat / total) as int
    } else {
        -((450_000_000_000_000 * (contradicted - verified) as nat / total) as int)
    }
}

/// The verification modifier of a list of results.
pub open spec fn verification_modifier(rs: Seq<VerificationResult>) -> int {
    modifier_from_counts(
        count_status(rs, VerificationStatus::Verified),
        count_status(rs, VerificationStatus::Contradicted),
        rs.len(),
    )
}

proof fn lemma_count_step(rs: Seq<VerificationResult>, i: int, st: VerificationStatus)
    requires
        0 <= i < rs.len(),
    ensures
        count_status(rs.take(i + 1), st) == count_status(rs.take(i), st) + if rs[i].status
            == st {
            1nat
        } else {
            0nat
        },
{
    assert(rs.take(i + 1).drop_last() =~= rs.take(i));
}

proof fn lemma_counts_partition(rs: Seq<VerificationResult>)
    ensures
        count_status(rs, VerificationStatus::Verified) + count_status(
            rs,
            VerificationStatus::Contradicted,
        ) + count_status(rs, VerificationStatus::Unknown) == rs.len(),
    decreases rs.len(),
{
    if rs.len() > 0 {
        lemma_counts_partition(rs.drop_last());
    }
}

/// Compute a trust score modifier based on verification results.
///
/// Returns a fixed-point value in [-0.15, +0.15]: verified entities
/// increase trust, contradicted entities decrease it, unknown entities have
/// no effect.
pub fn compute_verification_modifier(results: &[VerificationResult]) -> (m: i64)
    ensures
        m == verification_modifier(results@),
        -450_000_000_000_000 <= m <= 450_000_000_000_000,
{
    let n = results.len();
    if n == 0 {
        return 0;
    }
    let ghost rs = results@;
    let mut verified: usize = 0;
    let mut contradicted: usize = 0;
    let mut i: usize = 0;
    while i < n
        invariant
            n == rs.len(),
            rs == results@,
            i <= n,
            verified == count_status(rs.take(i as int), VerificationStatus::Verified),
            contradicted == count_status(rs.take(i as int), VerificationStatus::Contradicted),
            verified + contradicted <= i,
        decreases n - i,
    {
        proof {
            lemma_count_step(rs, i as int, VerificationStatus::Verified);
            lemma_count_step(rs, i as int, VerificationStatus::Contradicted);
        }
        match results[i].status {
            VerificationStatus::Verified => verified += 1,
            VerificationStatus::Contradicted => contradicted += 1,
            VerificationStatus::Unknown => {},
        }
        i += 1;
    }
    assert(rs.take(n as int) =~= rs);
    if verified >= contradicted {
        let d: u128 = (verified - contradicted) as u128;
        assert(450_000_000_000_000 * (d as int) / (n as int) <= 450_000_000_000_000) by (nonlinear_arith)
            requires
                d <= n,
                n > 0,
        ;
        (450_000_000_000_000 * d / (n as u128)) as i64
    } else {
        let d: u128 = (contradicted - verified) as u128;
        assert(450_000_000_000_000 * (d as int) / (n as int) <= 450_000_000_000_000) by (nonlinear_arith)
            requires
                d <= n,
                n > 0,
        ;
        -((450_000_000_000_000 * d / (n as u128)) as i64)
    }
}

// ── Laws of the verification modifier ───────────────────────────────────

/// Entity partition: every result is verified, contradicted or unknown, so
/// the verified and the contradicted together are at most all of them.
pub proof fn law_statuses_partition(rs: Seq<VerificationResult>)
    ensures
        count_status(rs, VerificationStatus::Verified) + count_status(
            rs,
            VerificationStatus::Contradicted,
        ) + count_status(rs, VerificationStatus::Unknown) == rs.len(),
        count_status(rs, VerificationStatus::Verified) + count_status(
            rs,
            VerificationStatus::Contradicted,
        ) <= rs.len(),
{
    lemma_counts_partition(rs);
}

/// Without results the modifier is neutral.
pub proof fn law_empty_verification_neutral()
    ensures
        verification_modifier(Seq::<VerificationResult>::empty()) == 0,
{
}

pub proof fn lemma_all_status(rs: Seq<VerificationResult>, st: VerificationStatus, other: VerificationStatus)
    requires
        forall|i: int| 0 <= i < rs.len() ==> (#[trigger] rs[i]).status == st,
    ensures
        count_status(rs, st) == rs.len(),
        other != st ==> count_status(rs, other) == 0,
    decreases rs.len(),
{
    if rs.len() > 0 {
        let d = rs.drop_last();
        assert forall|i: int| 0 <= i < d.len() implies (#[trigger] d[i]).status == st by {
            assert(d[i] == rs[i]);
        }
        lemma_all_status(d, st, other);
        assert(rs.last() == rs[rs.len() - 1]);
    }
}

/// All verified gives the maximum modifier, +0.15.
pub proof fn law_all_verified_max(rs: Seq<VerificationResult>)
    requires
        rs.len() > 0,
        forall|i: int| 0 <= i < rs.len() ==> (#[trigger] rs[i]).status
            == VerificationStatus::Verified,
    ensures
        verification_modifier(rs) == 450_000_000_000_000,
{
    lemma_all_status(rs, VerificationStatus::Verified, VerificationStatus::Contradicted);
    let n = rs.len();
    assert(450_000_000_000_000 * n / n == 450_000_000_000_000) by (nonlinear_arith)
        requires
            n > 0,
    ;
}

/// All contradicted gives the minimum modifier, -0.15.
pub proof fn law_all_contradicted_min(rs: Seq<VerificationResult>)
    requires
        rs.len() > 0,
        forall|i: int| 0 <= i < rs.len() ==> (#[trigger] rs[i]).status
            == VerificationStatus::Contradicted,
    ensures
        verification_modifier(rs) == -450_000_000_000_000,
{
    lemma_all_status(rs, VerificationStatus::Contradicted, VerificationStatus::Verified);
    let n = rs.len();
    assert(450_000_000_000_000 * n / n == 450_000_000_000_000) by (nonlinear_arith)
        requires
            n > 0,
    ;
}

/// The modifier always lies within [-0.15, +0.15].
pub proof fn law_verification_modifier_bounded(rs: Seq<VerificationResult>)
    ensures
        -450_000_000_000_000 <= verification_modifier(rs) <= 450_000_000_000_000,
{
    lemma_counts_partition(rs);
    let v = count_status(rs, VerificationStatus::Verified);
    let c = count_status(rs, VerificationStatus::Contradicted);
    let n = rs.len();
    if n > 0 {
        if v >= c {
            let d: nat = (v - c) as nat;
            assert(450_000_000_000_000 * d / n <= 450_000_000_000_000) by (nonlinear_arith)
                requires
                    d <= n,
                    n > 0,
            ;
        } else {
            let d: nat = (c - v) as nat;
            assert(450_000_000_000_000 * d / n <= 450_000_000_000_000) by (nonlinear_arith)
                requires
                    d <= n,
                    n > 0,
            ;
        }
    }
}

proof fn lemma_floor_le(a: nat, b: nat, d1: nat, d2: nat)
    requires
        d1 > 0,
        d2 > 0,
        a * d2 <= b * d1,
    ensures
        a / d1 <= b / d2,
{
    let q = a / d1;
    assert(q * d1 <= a) by (nonlinear_arith)
        requires
            q == a / d1,
            d1 > 0,
    ;
    assert(q * d2 <= b) by (nonlinear_arith)
        requires
            q * d1 <= a,
            a * d2 <= b * d1,
            d1 > 0,
            d2 > 0,
    ;
    assert(q <= b / d2) by (nonlinear_arith)
        requires
            q * d2 <= b,
            d2 > 0,
    ;
}

proof fn lemma_modifier_step_up(v: nat, c: nat, t: nat)
    requires
        v + c <= t,
    ensures
        modifier_from_counts(v + 1, c, t + 1) >= modifier_from_counts(v, c, t),
{
    if t > 0 {
        if v >= c {
            let a: nat = (450_000_000_000_000 * (v - c)) as nat;
            let b: nat = (450_000_000_000_000 * (v + 1 - c)) as nat;
            assert(a * (t + 1) <= b * t) by (nonlinear_arith)
                requires
                    a == 450_000_000_000_000 * (v - c),
                    b == 450_000_000_000_000 * (v + 1 - c),
                    v - c <= t,
            ;
            lemma_floor_le(a, b, t, t + 1);
        } else if v + 1 <= c {
            let a: nat = (450_000_000_000_000 * (c - v - 1)) as nat;
            let b: nat = (450_000_000_000_000 * (c - v)) as nat;
            assert(a * t <= b * (t + 1)) by (nonlinear_arith)
                requires
                    a == 450_000_000_000_000 * (c - v - 1),
                    b == 450_000_000_000_000 * (c - v),
                    c - v - 1 >= 0,
            ;
            lemma_floor_le(a, b, t + 1, t);
        }
    }
}

proof fn lemma_modifier_step_down(v: nat, c: nat, t: nat)
    requires
        v + c <= t,
    ensures
        modifier_from_counts(v, c + 1, t + 1) <= modifier_from_counts(v, c, t),
{
    if t > 0 {
        if c >= v {
            let a: nat = (450_000_000_000_000 * (c - v)) as nat;
            let b: nat = (450_000_000_000_000 * (c + 1 - v)) as nat;
            assert(a * (t + 1) <= b * t) by (nonlinear_arith)
                requires
                    a == 450_000_000_000_000 * (c - v),
                    b == 450_000_000_000_000 * (c + 1 - v),
                    c - v <= t,
            ;
            lemma_floor_le(a, b, t, t + 1);
        } else if c + 1 <= v {
            let a: nat = (450_000_000_000_000 * (v - c - 1)) as nat;
            let b: nat = (450_000_000_000_000 * (v - c)) as nat;
            assert(a * t <= b * (t + 1)) by (nonlinear_arith)
                requires
                    a == 450_000_000_000_000 * (v - c - 1),
                    b == 450_000_000_000_000 * (v - c),
                    v - c - 1 >= 0,
            ;
            lemma_floor_le(a, b, t + 1, t);
        }
    }
}

proof fn lemma_push_counts(rs: Seq<VerificationResult>, r: VerificationResult)
    ensures
        forall|st: VerificationStatus| #[trigger] count_status(rs.push(r), st) == count_status(rs, st)
            + if r.status == st {
            1nat
        } else {
            0nat
        },
{
    assert(rs.push(r).drop_last() =~= rs);
}

/// Monotonicity: adding a verified result never lowers the modifier.
pub proof fn law_more_verified_improves(rs: Seq<VerificationResult>, r: VerificationResult)
    requires
        r.status == VerificationStatus::Verified,
    ensures
        verification_modifier(rs.push(r)) >= verification_modifier(rs),
{
    lemma_push_counts(rs, r);
    lemma_counts_partition(rs);
    lemma_modifier_step_up(
        count_status(rs, VerificationStatus::Verified),
        count_status(rs, VerificationStatus::Contradicted),
        rs.len(),
    );
}

/// Monotonicity: adding a contradicted result never raises the modifier.
pub proof fn law_more_contradicted_worsens(rs: Seq<VerificationResult>, r: VerificationResult)
    requires
        r.status == VerificationStatus::Contradicted,
    ensures
        verification_modifier(rs.push(r)) <= verification_modifier(rs),
{
    lemma_push_counts(rs, r);
    lemma_counts_partition(rs);
    lemma_modifier_step_down(
        count_status(rs, VerificationStatus::Verified),
        count_status(rs, VerificationStatus::Contradicted),
        rs.len(),
    );
}

} // verus!
