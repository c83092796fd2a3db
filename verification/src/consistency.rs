//! Multi-response consistency checking.
//!
//! Given N responses to the same prompt, detects contradictions between them.
//! Different "branches" of the generative process should agree on facts;
//! when they don't, the outlier is likely a hallucination.
//!
//! # Method
//!
//! 1. Extract subject–value pairs from each response
//! 2. Group them by subject (fuzzy match on key words)
//! 3. Detect contradictions between responses
//! 4. Score: pairs that appear across responses are trusted; pairs unique to
//!    one response are flagged
use vstd::prelude::*;
use crate::claim::is_terminator;
use crate::format::SCALE;
use crate::text::{
    any_ascii_digit, chars_of, contains, eq_chars, eq_str, extend_chars, has_ascii_digit, is_uppercase, join,
    join_words, seq_contains, split_whitespace, strip_prefix_or_keep,
    strip_prefix_or_keep_chars, to_lowercase, trim, trim_chars, trim_end_punctuation,
    trim_end_punctuation_chars, unicode_lowercase, unicode_uppercase, utf8_len,
    utf8_len_exceeds, views_of, words, lemma_words_len, lemma_trim_len, string_of,
};

verus! {

/// A subject–value pair found in a response, with the sentence it came from.
#[derive(Debug, Clone)]
pub struct ClaimEntity {
    pub subject: Vec<char>,
    pub value: Vec<char>,
    pub full_text: Vec<char>,
}

/// `(subject, value, full text)` of a claim entity.
pub type EntityView = (Seq<char>, Seq<char>, Seq<char>);

pub open spec fn entity_view(e: ClaimEntity) -> EntityView {
    (e.subject@, e.value@, e.full_text@)
}

pub open spec fn entity_views(es: Seq<ClaimEntity>) -> Seq<EntityView> {
    es.map_values(|e: ClaimEntity| entity_view(e))
}

// ── Sentences and entities ──────────────────────────────────────────────

/// The pieces of `cur ++ t` between sentence terminators, empty ones included
/// (`str::split` on `['.', '!', '?']`).
pub open spec fn pieces_from(t: Seq<char>, cur: Seq<char>) -> Seq<Seq<char>>
    decreases t.len(),
{
    if t.len() == 0 {
        seq![cur]
    } else if is_terminator(t[0]) {
        seq![cur] + pieces_from(t.drop_first(), seq![])
    } else {
        pieces_from(t.drop_first(), cur.push(t[0]))
    }
}

pub open spec fn pieces(t: Seq<char>) -> Seq<Seq<char>> {
    pieces_from(t, seq![])
}

/// A subject, trimmed and lower-cased, without a leading article.
pub open spec fn normalized_subject(s: Seq<char>) -> Seq<char> {
    strip_prefix_or_keep(
        strip_prefix_or_keep(strip_prefix_or_keep(unicode_lowercase(trim(s)), "the "@), "a "@),
        "an "@,
    )
}

/// A value, trimmed, without trailing ASCII punctuation.
pub open spec fn normalized_value(s: Seq<char>) -> Seq<char> {
    trim_end_punctuation(trim(s))
}

/// The entity made of word `i` when it is a number of at most 10 bytes: its
/// subject is the words before it (the first word when there are fewer
/// than two).
pub open spec fn number_entity(ws: Seq<Seq<char>>, s: Seq<char>, i: int) -> Seq<EntityView> {
    if has_ascii_digit(ws[i]) && utf8_len(ws[i]) <= 10 {
        let subject = if i >= 2 {
            join(ws.take(i), seq![' '])
        } else {
            ws[0]
        };
        seq![(normalized_subject(subject), ws[i], s)]
    } else {
        seq![]
    }
}

pub open spec fn number_entities(ws: Seq<Seq<char>>, s: Seq<char>, k: int) -> Seq<EntityView>
    decreases k,
{
    if k <= 0 {
        seq![]
    } else {
        number_entities(ws, s, k - 1) + number_entity(ws, s, k - 1)
    }
}

pub open spec fn is_place_marker(w: Seq<char>) -> bool {
    w == "in"@ || w == "at"@ || w == "from"@
}

/// The entity made of word `i` when it is `in`, `at` or `from` followed by
/// a capitalised place: the place is everything after it, the subject
/// everything before it.
pub open spec fn place_entity(ws: Seq<Seq<char>>, s: Seq<char>, i: int) -> Seq<EntityView> {
    if is_place_marker(ws[i]) && i + 1 < ws.len() {
        let place = join(ws.subrange(i + 1, ws.len() as int), seq![' ']);
        if place.len() > 0 && unicode_uppercase(place[0]) {
            seq![(normalized_subject(join(ws.take(i), seq![' '])), normalized_value(place), s)]
        } else {
            seq![]
        }
    } else {
        seq![]
    }
}

pub open spec fn place_entities(ws: Seq<Seq<char>>, s: Seq<char>, k: int) -> Seq<EntityView>
    decreases k,
{
    if k <= 0 {
        seq![]
    } else {
        place_entities(ws, s, k - 1) + place_entity(ws, s, k - 1)
    }
}

/// The entities of one trimmed sentence: numbers first, then places.
pub open spec fn sentence_entities(s: Seq<char>) -> Seq<EntityView> {
    let ws = words(s);
    if ws.len() < 3 {
        seq![]
    } else {
        number_entities(ws, s, ws.len() as int) + place_entities(ws, s, ws.len() as int)
    }
}

/// The entities of the pieces `ps` that hold more than 10 bytes once trimmed.
pub open spec fn entities_in(ps: Seq<Seq<char>>) -> Seq<EntityView>
    decreases ps.len(),
{
    if ps.len() == 0 {
        seq![]
    } else {
        entities_in(ps.drop_last()) + if utf8_len(trim(ps.last())) > 10 {
            sentence_entities(trim(ps.last()))
        } else {
            seq![]
        }
    }
}

/// The subject–value pairs of a response.
pub open spec fn entities_of(text: Seq<char>) -> Seq<EntityView> {
    entities_in(pieces(text))
}

// ── Implementation of the extraction ────────────────────────────────────

fn split_pieces(t: &[char]) -> (r: Vec<Vec<char>>)
    ensures
        views_of(r@) == pieces(t@),
{
    let mut r: Vec<Vec<char>> = Vec::new();
    let mut cur: Vec<char> = Vec::new();
    let mut i: usize = 0;
    assert(t@.skip(0) =~= t@);
    while i < t.len()
        invariant
            i <= t@.len(),
            views_of(r@) + pieces_from(t@.skip(i as int), cur@) == pieces(t@),
        decreases t@.len() - i,
    {
        let ghost before = views_of(r@);
        let ghost rest = t@.skip(i as int);
        assert(rest.drop_first() =~= t@.skip(i + 1));
        let c = t[i];
        if c == '.' || c == '!' || c == '?' {
            let w = cur;
            let ghost wv = w@;
            r.push(w);
            cur = Vec::new();
            assert(views_of(r@) =~= before + seq![wv]);
            assert(before + (seq![wv] + pieces_from(t@.skip(i + 1), seq![])) =~= (before
                + seq![wv]) + pieces_from(t@.skip(i + 1), seq![]));
            assert(cur@ =~= Seq::<char>::empty());
        } else {
            cur.push(c);
        }
        i += 1;
    }
    assert(t@.skip(i as int) =~= Seq::<char>::empty());
    let ghost before = views_of(r@);
    let w = cur;
    let ghost wv = w@;
    r.push(w);
    assert(views_of(r@) =~= before + seq![wv]);
    r
}

/// Normalizes a subject: trimmed, lower-cased, without a leading article.
fn subject_chars(s: &[char]) -> (r: Vec<char>)
    ensures
        r@ == normalized_subject(s@),
{
    let t = trim_chars(s);
    let l = to_lowercase(t.as_slice());
    let a = strip_prefix_or_keep_chars(l.as_slice(), "the ");
    let b = strip_prefix_or_keep_chars(a.as_slice(), "a ");
    strip_prefix_or_keep_chars(b.as_slice(), "an ")
}

/// Normalizes a subject: trimmed, lower-cased, without a leading article.
pub fn normalize_subject(s: &str) -> (r: String)
    ensures
        r@ == normalized_subject(s@),
{
    let c = chars_of(s);
    let r = subject_chars(c.as_slice());
    string_of(r.as_slice())
}

/// Normalizes a value: trimmed, without trailing ASCII punctuation.
fn value_chars(s: &[char]) -> (r: Vec<char>)
    ensures
        r@ == normalized_value(s@),
{
    let t = trim_chars(s);
    trim_end_punctuation_chars(t.as_slice())
}

/// Normalizes a value: trimmed, without trailing ASCII punctuation.
pub fn normalize_value(s: &str) -> (r: String)
    ensures
        r@ == normalized_value(s@),
{
    let c = chars_of(s);
    let r = value_chars(c.as_slice());
    string_of(r.as_slice())
}

fn copy_chars(v: &[char]) -> (r: Vec<char>)
    ensures
        r@ == v@,
{
    let mut r: Vec<char> = Vec::new();
    extend_chars(&mut r, v);
    assert(Seq::<char>::empty() + v@ =~= v@);
    r
}

fn sentence_entity_list(s: &[char]) -> (r: Vec<ClaimEntity>)
    ensures
        entity_views(r@) == sentence_entities(s@),
{
    let ws = split_whitespace(s);
    let ghost wv = views_of(ws@);
    let n = ws.len();
    let mut r: Vec<ClaimEntity> = Vec::new();
    if n < 3 {
        assert(entity_views(r@) =~= Seq::<EntityView>::empty());
        return r;
    }
    let mut i: usize = 0;
    while i < n
        invariant
            n == ws@.len(),
            n >= 3,
            wv == views_of(ws@),
            wv == words(s@),
            i <= n,
            entity_views(r@) == number_entities(wv, s@, i as int),
        decreases n - i,
    {
        let ghost before = entity_views(r@);
        assert(wv[i as int] == ws@[i as int]@);
        let w = &ws[i];
        let digits = any_ascii_digit(w.as_slice());
        if digits && !utf8_len_exceeds(w.as_slice(), 10) {
            let subject_words = if i >= 2 {
                join_words(&ws, 0, i)
            } else {
                copy_chars(ws[0].as_slice())
            };
            proof {
                if i >= 2 {
                    assert(wv.subrange(0, i as int) =~= wv.take(i as int));
                } else {
                    assert(wv[0] == ws@[0]@);
                }
            }
            let e = ClaimEntity {
                subject: subject_chars(subject_words.as_slice()),
                value: copy_chars(w.as_slice()),
                full_text: copy_chars(s),
            };
            r.push(e);
        }
        assert(entity_views(r@) =~= before + number_entity(wv, s@, i as int));
        i += 1;
    }
    let ghost numbers = entity_views(r@);
    let mut i: usize = 0;
    while i < n
        invariant
            n == ws@.len(),
            n >= 3,
            wv == views_of(ws@),
            wv == words(s@),
            i <= n,
            numbers == number_entities(wv, s@, n as int),
            entity_views(r@) == numbers + place_entities(wv, s@, i as int),
        decreases n - i,
    {
        let ghost before = entity_views(r@);
        assert(wv[i as int] == ws@[i as int]@);
        let w = &ws[i];
        let marker = eq_str(w.as_slice(), "in") || eq_str(w.as_slice(), "at") || eq_str(
            w.as_slice(),
            "from",
        );
        if marker && i + 1 < n {
            let place = join_words(&ws, i + 1, n);
            if place.len() > 0 && is_uppercase(place[0]) {
                let subject_words = join_words(&ws, 0, i);
                assert(wv.subrange(0, i as int) =~= wv.take(i as int));
                let e = ClaimEntity {
                    subject: subject_chars(subject_words.as_slice()),
                    value: value_chars(place.as_slice()),
                    full_text: copy_chars(s),
                };
                r.push(e);
            }
        }
        assert(entity_views(r@) =~= before + place_entity(wv, s@, i as int));
        i += 1;
    }
    r
}

/// Extract subject–value pairs from text.
///
/// Simple heuristic: numbers are values whose subject is the words before
/// them, and "in/at/from <Place>" gives a place value for the words before.
fn entities_of_chars(text: &[char]) -> (r: Vec<ClaimEntity>)
    ensures
        entity_views(r@) == entities_of(text@),
{
    let ps = split_pieces(text);
    let ghost pv = views_of(ps@);
    let mut r: Vec<ClaimEntity> = Vec::new();
    let mut i: usize = 0;
    while i < ps.len()
        invariant
            i <= ps@.len(),
            pv == views_of(ps@),
            pv == pieces(text@),
            entity_views(r@) == entities_in(pv.take(i as int)),
        decreases ps@.len() - i,
    {
        let ghost before = entity_views(r@);
        assert(pv.take(i + 1).drop_last() =~= pv.take(i as int));
        assert(pv[i as int] == ps@[i as int]@);
        let s = trim_chars(ps[i].as_slice());
        if utf8_len_exceeds(s.as_slice(), 10) {
            let es = sentence_entity_list(s.as_slice());
            let mut k: usize = 0;
            while k < es.len()
                invariant
                    k <= es@.len(),
                    entity_views(r@) == before + entity_views(es@).take(k as int),
                decreases es@.len() - k,
            {
                let ghost prev = r@;
                let e = es[k].clone_entity();
                r.push(e);
                assert(r@ == prev.push(e));
                assert(entity_views(r@) =~= entity_views(prev).push(entity_view(e)));
                assert(entity_views(es@)[k as int] == entity_view(es@[k as int]));
                assert(entity_views(es@).take(k + 1) =~= entity_views(es@).take(k as int).push(
                    entity_view(e),
                ));
                assert(entity_views(r@) =~= before + entity_views(es@).take(k + 1));
                k += 1;
            }
            assert(entity_views(es@).take(es@.len() as int) =~= entity_views(es@));
        } else {
            assert(entity_views(r@) =~= before + Seq::<EntityView>::empty());
        }
        i += 1;
    }
    assert(pv.take(ps@.len() as int) =~= pv);
    r
}

/// Extract subject–value pairs from text: numbers are values whose subject is
/// the words before them, and "in/at/from <Place>" gives a place value for
/// the words before.
pub fn extract_entities(text: &str) -> (r: Vec<ClaimEntity>)
    ensures
        entity_views(r@) == entities_of(text@),
{
    let c = chars_of(text);
    entities_of_chars(c.as_slice())
}

impl ClaimEntity {
    /// A copy of the entity.
    pub fn clone_entity(&self) -> (c: ClaimEntity)
        ensures
            entity_view(c) == entity_view(*self),
    {
        ClaimEntity {
            subject: copy_chars(self.subject.as_slice()),
            value: copy_chars(self.value.as_slice()),
            full_text: copy_chars(self.full_text.as_slice()),
        }
    }
}

// ── Subject matching and contradictions ─────────────────────────────────

/// The words of more than 3 bytes.
pub open spec fn long_words(ws: Seq<Seq<char>>) -> Seq<Seq<char>>
    decreases ws.len(),
{
    if ws.len() == 0 {
        seq![]
    } else {
        long_words(ws.drop_last()) + if utf8_len(ws.last()) > 3 {
            seq![ws.last()]
        } else {
            seq![]
        }
    }
}

/// The number of words of `aw` (counted with repetition) that occur in `bw`.
pub open spec fn shared_count(aw: Seq<Seq<char>>, bw: Seq<Seq<char>>) -> nat
    decreases aw.len(),
{
    if aw.len() == 0 {
        0
    } else {
        shared_count(aw.drop_last(), bw) + if bw.contains(aw.last()) {
            1nat
        } else {
            0nat
        }
    }
}

pub open spec fn min_nat(a: nat, b: nat) -> nat {
    if a < b {
        a
    } else {
        b
    }
}

/// Counted from the words of `aw`, the two lists share at least one word and
/// at least half as many as the shorter list holds.
pub open spec fn overlaps_from(aw: Seq<Seq<char>>, bw: Seq<Seq<char>>) -> bool {
    let shared = shared_count(aw, bw);
    shared > 0 && shared >= min_nat(aw.len(), bw.len()) / 2
}

/// Two subjects match when they are equal, one contains the other, or their
/// long words overlap, counted from either side.
pub open spec fn subjects_match(a: Seq<char>, b: Seq<char>) -> bool {
    let aw = long_words(words(a));
    let bw = long_words(words(b));
    ||| a == b
    ||| seq_contains(a, b)
    ||| seq_contains(b, a)
    ||| overlaps_from(aw, bw)
    ||| overlaps_from(bw, aw)
}

/// Whether `bw` holds a word equal to `w` once both are lower-cased.
pub open spec fn has_word_ignoring_case(bw: Seq<Seq<char>>, w: Seq<char>) -> bool {
    exists|k: int| 0 <= k < bw.len() && unicode_lowercase(#[trigger] bw[k]) == unicode_lowercase(w)
}

/// The number of words of `aw` that occur in `bw`, ignoring case.
pub open spec fn shared_ignoring_case(aw: Seq<Seq<char>>, bw: Seq<Seq<char>>) -> nat
    decreases aw.len(),
{
    if aw.len() == 0 {
        0
    } else {
        shared_ignoring_case(aw.drop_last(), bw) + if has_word_ignoring_case(bw, aw.last()) {
            1nat
        } else {
            0nat
        }
    }
}

/// `(claim_a, response_a, claim_b, response_b, conflict, confidence)` of a
/// contradiction.
pub type ConflictView = (Seq<char>, usize, Seq<char>, usize, Seq<char>, u64);

/// The description of a conflict between values `av` and `bv` on `subject`.
pub open spec fn conflict_text(av: Seq<char>, bv: Seq<char>, subject: Seq<char>) -> Seq<char> {
    "\""@ + av + "\" vs \""@ + bv + "\" (subject: "@ + subject + ")"@
}

/// Counted from the words of `aw`, the two lists share at least one word
/// (ignoring case) and as many as the shorter list holds.
pub open spec fn covers_from(aw: Seq<Seq<char>>, bw: Seq<Seq<char>>) -> bool {
    let shared = shared_ignoring_case(aw, bw);
    shared > 0 && shared >= min_nat(aw.len(), bw.len())
}

/// Whether two values are really different: not equal, neither contains the
/// other ignoring case, neither side's count finds all the words of the
/// shorter one shared (ignoring case), and both or neither are numeric.
pub open spec fn values_conflict(av: Seq<char>, bv: Seq<char>) -> bool {
    let al = unicode_lowercase(av);
    let bl = unicode_lowercase(bv);
    let aw = words(av);
    let bw = words(bv);
    &&& av != bv
    &&& !seq_contains(al, bl)
    &&& !seq_contains(bl, al)
    &&& !covers_from(aw, bw)
    &&& !covers_from(bw, aw)
    &&& has_ascii_digit(av) == has_ascii_digit(bv)
}

/// The confidence of a conflict: 0.9 for numbers, 0.8 for two capitalised
/// values, 0.5 otherwise.
pub open spec fn conflict_confidence(av: Seq<char>, bv: Seq<char>) -> u64 {
    if has_ascii_digit(av) && has_ascii_digit(bv) {
        2_700_000_000_000_000
    } else if av.len() > 0 && bv.len() > 0 && unicode_uppercase(av[0]) && unicode_uppercase(
        bv[0],
    ) {
        2_400_000_000_000_000
    } else {
        1_500_000_000_000_000
    }
}

/// The contradiction between entity `a` of response `ra` and entity `b` of
/// response `rb`, if their subjects match and their values conflict.
pub open spec fn contradiction_between(a: EntityView, b: EntityView, ra: usize, rb: usize) -> Option<
    ConflictView,
> {
    let av = normalized_value(a.1);
    let bv = normalized_value(b.1);
    if subjects_match(a.0, b.0) && values_conflict(av, bv) {
        Some((a.2, ra, b.2, rb, conflict_text(av, bv, a.0), conflict_confidence(av, bv)))
    } else {
        None
    }
}

fn contains_word(bw: &Vec<Vec<char>>, w: &[char]) -> (b: bool)
    ensures
        b == views_of(bw@).contains(w@),
{
    let ghost v = views_of(bw@);
    let mut k: usize = 0;
    while k < bw.len()
        invariant
            k <= bw@.len(),
            v == views_of(bw@),
            forall|j: int| 0 <= j < k ==> v[j] != w@,
        decreases bw@.len() - k,
    {
        assert(v[k as int] == bw@[k as int]@);
        if eq_chars(bw[k].as_slice(), w) {
            return true;
        }
        k += 1;
    }
    false
}

fn long_word_list(ws: &Vec<Vec<char>>) -> (r: Vec<Vec<char>>)
    ensures
        views_of(r@) == long_words(views_of(ws@)),
{
    let ghost v = views_of(ws@);
    let mut r: Vec<Vec<char>> = Vec::new();
    let mut i: usize = 0;
    while i < ws.len()
        invariant
            i <= ws@.len(),
            v == views_of(ws@),
            views_of(r@) == long_words(v.take(i as int)),
        decreases ws@.len() - i,
    {
        assert(v.take(i + 1).drop_last() =~= v.take(i as int));
        assert(v[i as int] == ws@[i as int]@);
        let ghost before = views_of(r@);
        if utf8_len_exceeds(ws[i].as_slice(), 3) {
            let w = copy_chars(ws[i].as_slice());
            let ghost wv = w@;
            r.push(w);
            assert(views_of(r@) =~= before + seq![wv]);
        } else {
            assert(views_of(r@) =~= before + Seq::<Seq<char>>::empty());
        }
        i += 1;
    }
    assert(v.take(ws@.len() as int) =~= v);
    r
}

/// Fuzzy comparison of two normalized subjects.
fn subjects_match_chars(a: &[char], b: &[char]) -> (m: bool)
    ensures
        m == subjects_match(a@, b@),
{
    if eq_chars(a, b) {
        return true;
    }
    if contains(a, b) || contains(b, a) {
        return true;
    }
    let aw = long_word_list(&split_whitespace(a));
    let bw = long_word_list(&split_whitespace(b));
    let smaller = if aw.len() < bw.len() {
        aw.len()
    } else {
        bw.len()
    };
    let ab = count_shared(&aw, &bw);
    if ab > 0 && ab >= smaller / 2 {
        return true;
    }
    let ba = count_shared(&bw, &aw);
    ba > 0 && ba >= smaller / 2
}

fn count_shared(aw: &Vec<Vec<char>>, bw: &Vec<Vec<char>>) -> (n: usize)
    ensures
        n == shared_count(views_of(aw@), views_of(bw@)),
{
    let ghost av = views_of(aw@);
    let ghost bv = views_of(bw@);
    let mut shared: usize = 0;
    let mut i: usize = 0;
    while i < aw.len()
        invariant
            i <= aw@.len(),
            av == views_of(aw@),
            bv == views_of(bw@),
            shared == shared_count(av.take(i as int), bv),
            shared <= i,
        decreases aw@.len() - i,
    {
        assert(av.take(i + 1).drop_last() =~= av.take(i as int));
        assert(av[i as int] == aw@[i as int]@);
        if contains_word(bw, aw[i].as_slice()) {
            shared = shared + 1;
        }
        i += 1;
    }
    assert(av.take(aw@.len() as int) =~= av);
    shared
}

/// Fuzzy comparison of two normalized subjects.
pub fn fuzzy_match_subject(a: &str, b: &str) -> (m: bool)
    ensures
        m == subjects_match(a@, b@),
{
    let ac = chars_of(a);
    let bc = chars_of(b);
    subjects_match_chars(ac.as_slice(), bc.as_slice())
}

fn has_word_ci(bw: &Vec<Vec<char>>, w: &[char]) -> (b: bool)
    ensures
        b == has_word_ignoring_case(views_of(bw@), w@),
{
    let ghost v = views_of(bw@);
    let lw = to_lowercase(w);
    let mut k: usize = 0;
    while k < bw.len()
        invariant
            k <= bw@.len(),
            v == views_of(bw@),
            lw@ == unicode_lowercase(w@),
            forall|j: int| 0 <= j < k ==> unicode_lowercase(#[trigger] v[j]) != unicode_lowercase(
                w@,
            ),
        decreases bw@.len() - k,
    {
        assert(v[k as int] == bw@[k as int]@);
        let lb = to_lowercase(bw[k].as_slice());
        if eq_chars(lb.as_slice(), lw.as_slice()) {
            return true;
        }
        k += 1;
    }
    false
}

fn values_conflict_exec(av: &[char], bv: &[char]) -> (b: bool)
    ensures
        b == values_conflict(av@, bv@),
{
    if eq_chars(av, bv) {
        return false;
    }
    let al = to_lowercase(av);
    let bl = to_lowercase(bv);
    if contains(al.as_slice(), bl.as_slice()) || contains(bl.as_slice(), al.as_slice()) {
        return false;
    }
    let aw = split_whitespace(av);
    let bw = split_whitespace(bv);
    let smaller = if aw.len() < bw.len() {
        aw.len()
    } else {
        bw.len()
    };
    let ab = count_shared_ci(&aw, &bw);
    if ab > 0 && ab >= smaller {
        return false;
    }
    let ba = count_shared_ci(&bw, &aw);
    if ba > 0 && ba >= smaller {
        return false;
    }
    any_ascii_digit(av) == any_ascii_digit(bv)
}

fn count_shared_ci(aw: &Vec<Vec<char>>, bw: &Vec<Vec<char>>) -> (n: usize)
    ensures
        n == shared_ignoring_case(views_of(aw@), views_of(bw@)),
{
    let ghost awv = views_of(aw@);
    let ghost bwv = views_of(bw@);
    let mut shared: usize = 0;
    let mut i: usize = 0;
    while i < aw.len()
        invariant
            i <= aw@.len(),
            awv == views_of(aw@),
            bwv == views_of(bw@),
            shared == shared_ignoring_case(awv.take(i as int), bwv),
            shared <= i,
        decreases aw@.len() - i,
    {
        assert(awv.take(i + 1).drop_last() =~= awv.take(i as int));
        assert(awv[i as int] == aw@[i as int]@);
        if has_word_ci(bw, aw[i].as_slice()) {
            shared = shared + 1;
        }
        i += 1;
    }
    assert(awv.take(aw@.len() as int) =~= awv);
    shared
}

/// A contradiction between two claims from different responses.
#[derive(Debug, Clone)]
pub struct Contradiction {
    /// Claim from response A
    pub claim_a: String,
    /// Index of response A
    pub response_a: usize,
    /// Claim from response B
    pub claim_b: String,
    /// Index of response B
    pub response_b: usize,
    /// What specifically conflicts
    pub conflict: String,
    /// Confidence that this is a real contradiction, fixed-point (`SCALE` = 1.0)
    pub confidence: u64,
}

pub open spec fn contradiction_view(c: Contradiction) -> ConflictView {
    (c.claim_a@, c.response_a, c.claim_b@, c.response_b, c.conflict@, c.confidence)
}

pub open spec fn contradiction_views(cs: Seq<Contradiction>) -> Seq<ConflictView> {
    cs.map_values(|c: Contradiction| contradiction_view(c))
}

/// Detects a contradiction between entity `a` of response `resp_a` and
/// entity `b` of response `resp_b`: same subject, different values.
pub fn detect_contradiction(a: &ClaimEntity, b: &ClaimEntity, resp_a: usize, resp_b: usize) -> (r:
    Option<Contradiction>)
    ensures
        match r {
            Some(c) => contradiction_between(entity_view(*a), entity_view(*b), resp_a, resp_b)
                == Some(contradiction_view(c)),
            None => contradiction_between(entity_view(*a), entity_view(*b), resp_a, resp_b)
                is None,
        },
{
    if !subjects_match_chars(a.subject.as_slice(), b.subject.as_slice()) {
        return None;
    }
    let av = value_chars(a.value.as_slice());
    let bv = value_chars(b.value.as_slice());
    if !values_conflict_exec(av.as_slice(), bv.as_slice()) {
        return None;
    }
    let a_num = any_ascii_digit(av.as_slice());
    let b_num = any_ascii_digit(bv.as_slice());
    let confidence: u64 = if a_num && b_num {
        2_700_000_000_000_000
    } else if av.len() > 0 && bv.len() > 0 && is_uppercase(av[0]) && is_uppercase(bv[0]) {
        2_400_000_000_000_000
    } else {
        1_500_000_000_000_000
    };
    let mut text: Vec<char> = Vec::new();
    extend_chars(&mut text, chars_of("\"").as_slice());
    extend_chars(&mut text, av.as_slice());
    extend_chars(&mut text, chars_of("\" vs \"").as_slice());
    extend_chars(&mut text, bv.as_slice());
    extend_chars(&mut text, chars_of("\" (subject: ").as_slice());
    extend_chars(&mut text, a.subject.as_slice());
    extend_chars(&mut text, chars_of(")").as_slice());
    assert(Seq::<char>::empty() + "\""@ =~= "\""@);
    assert(text@ =~= conflict_text(av@, bv@, a.subject@));
    Some(
        Contradiction {
            claim_a: crate::text::string_of(a.full_text.as_slice()),
            response_a: resp_a,
            claim_b: crate::text::string_of(b.full_text.as_slice()),
            response_b: resp_b,
            conflict: crate::text::string_of(text.as_slice()),
            confidence,
        },
    )
}

// ── Grouping by subject ─────────────────────────────────────────────────

/// Entities of one subject: the first subject and value seen, and the
/// responses (in order of first appearance) that mention the subject.
#[derive(Debug)]
pub struct SubjectGroup {
    pub subject: Vec<char>,
    pub value: Vec<char>,
    pub responses: Vec<usize>,
}

/// `(subject, value, responses)` of a group.
pub type GroupView = (Seq<char>, Seq<char>, Seq<usize>);

pub open spec fn group_view(g: SubjectGroup) -> GroupView {
    (g.subject@, g.value@, g.responses@)
}

pub open spec fn group_views(gs: Seq<SubjectGroup>) -> Seq<GroupView> {
    gs.map_values(|g: SubjectGroup| group_view(g))
}

/// An entity tagged with the index of its response.
pub type Tagged = (usize, EntityView);

/// The first group from position `k` on whose subject matches `subject`.
pub open spec fn first_match_from(gs: Seq<GroupView>, subject: Seq<char>, k: int) -> Option<int>
    decreases gs.len() - k,
{
    if k < 0 || k >= gs.len() {
        None
    } else if subjects_match(gs[k].0, subject) {
        Some(k)
    } else {
        first_match_from(gs, subject, k + 1)
    }
}

/// Records entity `e` of response `r`: the first group whose subject matches
/// gains the response (once); without such a group, a new one starts.
pub open spec fn add_to_groups(gs: Seq<GroupView>, t: Tagged) -> Seq<GroupView> {
    let (r, e) = t;
    match first_match_from(gs, e.0, 0) {
        Some(j) => if gs[j].2.contains(r) {
            gs
        } else {
            gs.update(j, (gs[j].0, gs[j].1, gs[j].2.push(r)))
        },
        None => gs.push((e.0, e.1, seq![r])),
    }
}

pub open spec fn tag(es: Seq<EntityView>, r: usize) -> Seq<Tagged> {
    es.map_values(|e: EntityView| (r, e))
}

/// All entities, tagged with their response, response by response.
pub open spec fn tagged(all: Seq<Seq<EntityView>>) -> Seq<Tagged>
    decreases all.len(),
{
    if all.len() == 0 {
        seq![]
    } else {
        tagged(all.drop_last()) + tag(all.last(), (all.len() - 1) as usize)
    }
}

/// The groups formed by recording the tagged entities in order.
pub open spec fn groups_of(ts: Seq<Tagged>) -> Seq<GroupView>
    decreases ts.len(),
{
    if ts.len() == 0 {
        seq![]
    } else {
        add_to_groups(groups_of(ts.drop_last()), ts.last())
    }
}

pub open spec fn all_views(all: Seq<Vec<ClaimEntity>>) -> Seq<Seq<EntityView>> {
    all.map_values(|v: Vec<ClaimEntity>| entity_views(v@))
}

fn find_group(groups: &Vec<SubjectGroup>, subject: &[char]) -> (r: Option<usize>)
    ensures
        match r {
            Some(j) => first_match_from(group_views(groups@), subject@, 0) == Some(j as int) && j
                < groups@.len(),
            None => first_match_from(group_views(groups@), subject@, 0) is None,
        },
{
    let ghost gv = group_views(groups@);
    let mut j: usize = 0;
    while j < groups.len()
        invariant
            j <= groups@.len(),
            gv == group_views(groups@),
            first_match_from(gv, subject@, 0) == first_match_from(gv, subject@, j as int),
        decreases groups@.len() - j,
    {
        assert(gv[j as int] == group_view(groups@[j as int]));
        if subjects_match_chars(groups[j].subject.as_slice(), subject) {
            return Some(j);
        }
        j += 1;
    }
    None
}

fn contains_index(v: &Vec<usize>, r: usize) -> (b: bool)
    ensures
        b == v@.contains(r),
{
    let mut k: usize = 0;
    while k < v.len()
        invariant
            k <= v@.len(),
            forall|j: int| 0 <= j < k ==> v@[j] != r,
        decreases v@.len() - k,
    {
        if v[k] == r {
            return true;
        }
        k += 1;
    }
    false
}

fn copy_indices(v: &Vec<usize>) -> (r: Vec<usize>)
    ensures
        r@ == v@,
{
    let mut r: Vec<usize> = Vec::new();
    let mut k: usize = 0;
    while k < v.len()
        invariant
            k <= v@.len(),
            r@ == v@.take(k as int),
        decreases v@.len() - k,
    {
        r.push(v[k]);
        assert(v@.take(k as int).push(v@[k as int]) =~= v@.take(k + 1));
        k += 1;
    }
    assert(v@.take(v@.len() as int) =~= v@);
    r
}

fn add_entity(groups: &mut Vec<SubjectGroup>, r: usize, e: &ClaimEntity)
    ensures
        group_views(final(groups)@) == add_to_groups(group_views(old(groups)@), (r, entity_view(*e))),
{
    let ghost gv = group_views(groups@);
    match find_group(groups, e.subject.as_slice()) {
        Some(j) => {
            assert(gv[j as int] == group_view(groups@[j as int]));
            if !contains_index(&groups[j].responses, r) {
                let mut responses = copy_indices(&groups[j].responses);
                responses.push(r);
                let g = SubjectGroup {
                    subject: copy_chars(groups[j].subject.as_slice()),
                    value: copy_chars(groups[j].value.as_slice()),
                    responses,
                };
                let ghost gview = group_view(g);
                groups.set(j, g);
                assert(group_views(groups@) =~= gv.update(j as int, gview));
            }
        },
        None => {
            let mut responses: Vec<usize> = Vec::new();
            responses.push(r);
            let g = SubjectGroup {
                subject: copy_chars(e.subject.as_slice()),
                value: copy_chars(e.value.as_slice()),
                responses,
            };
            let ghost gview = group_view(g);
            groups.push(g);
            assert(gview.2 =~= seq![r]);
            assert(group_views(groups@) =~= gv.push(gview));
        },
    }
}

proof fn lemma_tagged_step(all: Seq<Seq<EntityView>>, r: int, k: int)
    requires
        0 <= r < all.len(),
        0 <= k < all[r].len(),
        r <= usize::MAX,
    ensures
        tagged(all.take(r)) + tag(all[r], r as usize).take(k + 1) == (tagged(all.take(r)) + tag(
            all[r],
            r as usize,
        ).take(k)).push((r as usize, all[r][k])),
{
    assert(tagged(all.take(r)) + tag(all[r], r as usize).take(k + 1) =~= (tagged(all.take(r))
        + tag(all[r], r as usize).take(k)).push((r as usize, all[r][k])));
}

proof fn lemma_tagged_next(all: Seq<Seq<EntityView>>, r: int)
    requires
        0 <= r < all.len(),
        r <= usize::MAX,
    ensures
        tagged(all.take(r + 1)) == tagged(all.take(r)) + tag(all[r], r as usize).take(
            all[r].len() as int,
        ),
{
    assert(all.take(r + 1).drop_last() =~= all.take(r));
    assert(tag(all[r], r as usize).take(all[r].len() as int) =~= tag(all[r], r as usize));
}

/// Groups the entities of all responses by subject.
fn group_entities(all: &Vec<Vec<ClaimEntity>>) -> (gs: Vec<SubjectGroup>)
    ensures
        group_views(gs@) == groups_of(tagged(all_views(all@))),
{
    let ghost av = all_views(all@);
    let mut groups: Vec<SubjectGroup> = Vec::new();
    let mut r: usize = 0;
    while r < all.len()
        invariant
            r <= all@.len(),
            av == all_views(all@),
            group_views(groups@) == groups_of(tagged(av.take(r as int))),
        decreases all@.len() - r,
    {
        assert(av[r as int] == entity_views(all@[r as int]@));
        let claims = &all[r];
        let mut k: usize = 0;
        assert(tagged(av.take(r as int)) + tag(av[r as int], r).take(0) =~= tagged(
            av.take(r as int),
        ));
        while k < claims.len()
            invariant
                r < all@.len(),
                k <= claims@.len(),
                av == all_views(all@),
                claims@ == all@[r as int]@,
                av[r as int] == entity_views(claims@),
                group_views(groups@) == groups_of(
                    tagged(av.take(r as int)) + tag(av[r as int], r).take(k as int),
                ),
            decreases claims@.len() - k,
        {
            proof {
                lemma_tagged_step(av, r as int, k as int);
            }
            let ghost prefix = tagged(av.take(r as int)) + tag(av[r as int], r).take(k + 1);
            assert(prefix.drop_last() == tagged(av.take(r as int)) + tag(av[r as int], r).take(
                k as int,
            ));
            assert(av[r as int][k as int] == entity_view(claims@[k as int]));
            add_entity(&mut groups, r, &claims[k]);
            k += 1;
        }
        proof {
            lemma_tagged_next(av, r as int);
        }
        r += 1;
    }
    assert(av.take(all@.len() as int) =~= av);
    groups
}

// ── Contradictions ──────────────────────────────────────────────────────

pub open spec fn option_seq(o: Option<ConflictView>) -> Seq<ConflictView> {
    match o {
        Some(c) => seq![c],
        None => seq![],
    }
}

/// The contradictions of entity `a` of response `ra` with the entities `bs`
/// of response `rb`, in order.
pub open spec fn row_candidates(a: EntityView, bs: Seq<EntityView>, ra: usize, rb: usize) -> Seq<
    ConflictView,
>
    decreases bs.len(),
{
    if bs.len() == 0 {
        seq![]
    } else {
        row_candidates(a, bs.drop_last(), ra, rb) + option_seq(
            contradiction_between(a, bs.last(), ra, rb),
        )
    }
}

/// The contradictions between the entities of responses `ra` and `rb`.
pub open spec fn pair_candidates(
    as_: Seq<EntityView>,
    bs: Seq<EntityView>,
    ra: usize,
    rb: usize,
) -> Seq<ConflictView>
    decreases as_.len(),
{
    if as_.len() == 0 {
        seq![]
    } else {
        pair_candidates(as_.drop_last(), bs, ra, rb) + row_candidates(as_.last(), bs, ra, rb)
    }
}

/// The contradictions between response `ra` and the responses `rb < k`
/// that come after it.
pub open spec fn response_candidates(all: Seq<Seq<EntityView>>, ra: int, k: int) -> Seq<
    ConflictView,
>
    decreases k,
{
    if k <= 0 {
        seq![]
    } else {
        response_candidates(all, ra, k - 1) + if k - 1 > ra {
            pair_candidates(all[ra], all[k - 1], ra as usize, (k - 1) as usize)
        } else {
            seq![]
        }
    }
}

/// The contradictions between every pair of responses `ra < rb` with
/// `ra < k`, in order.
pub open spec fn all_candidates(all: Seq<Seq<EntityView>>, k: int) -> Seq<ConflictView>
    decreases k,
{
    if k <= 0 {
        seq![]
    } else {
        all_candidates(all, k - 1) + response_candidates(all, k - 1, all.len() as int)
    }
}

/// Keeps `c` unless a kept contradiction already has the same conflict text.
pub open spec fn dedup_step(d: Seq<ConflictView>, c: ConflictView) -> Seq<ConflictView> {
    if exists|i: int| 0 <= i < d.len() && (#[trigger] d[i]).4 == c.4 {
        d
    } else {
        d.push(c)
    }
}

/// `d` extended with the contradictions of `cs` whose conflict text is new.
pub open spec fn dedup_from(d: Seq<ConflictView>, cs: Seq<ConflictView>) -> Seq<ConflictView>
    decreases cs.len(),
{
    if cs.len() == 0 {
        d
    } else {
        dedup_step(dedup_from(d, cs.drop_last()), cs.last())
    }
}

proof fn lemma_dedup_append(d: Seq<ConflictView>, xs: Seq<ConflictView>, ys: Seq<ConflictView>)
    ensures
        dedup_from(d, xs + ys) == dedup_from(dedup_from(d, xs), ys),
    decreases ys.len(),
{
    if ys.len() == 0 {
        assert(xs + ys =~= xs);
    } else {
        assert((xs + ys).drop_last() =~= xs + ys.drop_last());
        lemma_dedup_append(d, xs, ys.drop_last());
    }
}

fn has_conflict(res: &Vec<Contradiction>, conflict: &String) -> (b: bool)
    ensures
        b == exists|i: int|
            0 <= i < res@.len() && (#[trigger] contradiction_views(res@)[i]).4 == conflict@,
{
    let ghost v = contradiction_views(res@);
    let target = chars_of(conflict.as_str());
    let mut k: usize = 0;
    while k < res.len()
        invariant
            k <= res@.len(),
            v == contradiction_views(res@),
            target@ == conflict@,
            forall|j: int| 0 <= j < k ==> (#[trigger] v[j]).4 != conflict@,
        decreases res@.len() - k,
    {
        assert(v[k as int] == contradiction_view(res@[k as int]));
        let other = chars_of(res[k].conflict.as_str());
        if eq_chars(other.as_slice(), target.as_slice()) {
            return true;
        }
        k += 1;
    }
    false
}

fn add_row_contradictions(
    res: &mut Vec<Contradiction>,
    a: &ClaimEntity,
    bs: &Vec<ClaimEntity>,
    ra: usize,
    rb: usize,
)
    ensures
        contradiction_views(final(res)@) == dedup_from(
            contradiction_views(old(res)@),
            row_candidates(entity_view(*a), entity_views(bs@), ra, rb),
        ),
{
    let ghost start = contradiction_views(res@);
    let ghost bv = entity_views(bs@);
    let mut j: usize = 0;
    while j < bs.len()
        invariant
            j <= bs@.len(),
            bv == entity_views(bs@),
            contradiction_views(res@) == dedup_from(
                start,
                row_candidates(entity_view(*a), bv.take(j as int), ra, rb),
            ),
        decreases bs@.len() - j,
    {
        let ghost before = row_candidates(entity_view(*a), bv.take(j as int), ra, rb);
        assert(bv.take(j + 1).drop_last() =~= bv.take(j as int));
        assert(bv[j as int] == entity_view(bs@[j as int]));
        let ghost o = contradiction_between(entity_view(*a), bv[j as int], ra, rb);
        assert(row_candidates(entity_view(*a), bv.take(j + 1), ra, rb) == before + option_seq(o));
        proof {
            lemma_dedup_append(start, before, option_seq(o));
        }
        match detect_contradiction(a, &bs[j], ra, rb) {
            Some(c) => {
                let ghost x = contradiction_views(res@);
                let ghost cv = contradiction_view(c);
                assert(option_seq(o) =~= seq![cv]);
                assert(seq![cv].drop_last() =~= Seq::<ConflictView>::empty());
                assert(dedup_from(x, seq![cv]) == dedup_step(dedup_from(x, Seq::<ConflictView>::empty()), cv));
                assert(dedup_from(x, seq![cv]) == dedup_step(x, cv));
                if !has_conflict(res, &c.conflict) {
                    let ghost prev = contradiction_views(res@);
                    res.push(c);
                    assert(contradiction_views(res@) =~= prev.push(contradiction_view(c)));
                }
            },
            None => {
                assert(option_seq(o) =~= Seq::<ConflictView>::empty());
                assert(dedup_from(contradiction_views(res@), Seq::<ConflictView>::empty())
                    == contradiction_views(res@));
            },
        }
        j += 1;
    }
    assert(bv.take(bs@.len() as int) =~= bv);
}

fn add_pair_contradictions(
    res: &mut Vec<Contradiction>,
    as_: &Vec<ClaimEntity>,
    bs: &Vec<ClaimEntity>,
    ra: usize,
    rb: usize,
)
    ensures
        contradiction_views(final(res)@) == dedup_from(
            contradiction_views(old(res)@),
            pair_candidates(entity_views(as_@), entity_views(bs@), ra, rb),
        ),
{
    let ghost start = contradiction_views(res@);
    let ghost av = entity_views(as_@);
    let ghost bv = entity_views(bs@);
    let mut i: usize = 0;
    while i < as_.len()
        invariant
            i <= as_@.len(),
            av == entity_views(as_@),
            bv == entity_views(bs@),
            contradiction_views(res@) == dedup_from(
                start,
                pair_candidates(av.take(i as int), bv, ra, rb),
            ),
        decreases as_@.len() - i,
    {
        let ghost before = pair_candidates(av.take(i as int), bv, ra, rb);
        assert(av.take(i + 1).drop_last() =~= av.take(i as int));
        assert(av[i as int] == entity_view(as_@[i as int]));
        proof {
            lemma_dedup_append(start, before, row_candidates(av[i as int], bv, ra, rb));
        }
        add_row_contradictions(res, &as_[i], bs, ra, rb);
        i += 1;
    }
    assert(av.take(as_@.len() as int) =~= av);
}

/// Finds the contradictions between every pair of responses, keeping the
/// first of those that describe the same conflict.
fn find_contradictions(all: &Vec<Vec<ClaimEntity>>) -> (res: Vec<Contradiction>)
    ensures
        contradiction_views(res@) == dedup_from(
            seq![],
            all_candidates(all_views(all@), all@.len() as int),
        ),
{
    let ghost av = all_views(all@);
    let n = all.len();
    let mut res: Vec<Contradiction> = Vec::new();
    let mut ra: usize = 0;
    assert(contradiction_views(res@) =~= Seq::<ConflictView>::empty());
    while ra < n
        invariant
            n == all@.len(),
            av == all_views(all@),
            ra <= n,
            contradiction_views(res@) == dedup_from(seq![], all_candidates(av, ra as int)),
        decreases n - ra,
    {
        let ghost base = all_candidates(av, ra as int);
        let mut rb: usize = 0;
        assert(base + response_candidates(av, ra as int, 0) =~= base);
        while rb < n
            invariant
                n == all@.len(),
                av == all_views(all@),
                ra < n,
                rb <= n,
                base == all_candidates(av, ra as int),
                contradiction_views(res@) == dedup_from(
                    seq![],
                    base + response_candidates(av, ra as int, rb as int),
                ),
            decreases n - rb,
        {
            let ghost prefix = base + response_candidates(av, ra as int, rb as int);
            if rb > ra {
                assert(av[ra as int] == entity_views(all@[ra as int]@));
                assert(av[rb as int] == entity_views(all@[rb as int]@));
                let ghost pc = pair_candidates(av[ra as int], av[rb as int], ra, rb);
                proof {
                    lemma_dedup_append(seq![], prefix, pc);
                }
                add_pair_contradictions(&mut res, &all[ra], &all[rb], ra, rb);
                assert(base + response_candidates(av, ra as int, rb + 1) =~= prefix + pc);
            } else {
                assert(base + response_candidates(av, ra as int, rb + 1) =~= prefix);
            }
            rb += 1;
        }
        assert(all_candidates(av, ra + 1) == base + response_candidates(av, ra as int, n as int));
        ra += 1;
    }
    res
}

// ── Size bounds ─────────────────────────────────────────────────────────

/// `Σ |ps[i]|`.
pub open spec fn total_len(ps: Seq<Seq<char>>) -> nat
    decreases ps.len(),
{
    if ps.len() == 0 {
        0
    } else {
        total_len(ps.drop_last()) + ps.last().len()
    }
}

proof fn lemma_total_len_prepend(x: Seq<char>, ps: Seq<Seq<char>>)
    ensures
        total_len(seq![x] + ps) == x.len() + total_len(ps),
    decreases ps.len(),
{
    if ps.len() == 0 {
        assert(seq![x] + ps =~= seq![x]);
        assert(seq![x].drop_last() =~= Seq::<Seq<char>>::empty());
        assert(total_len(Seq::<Seq<char>>::empty()) == 0);
        assert(total_len(seq![x]) == x.len());
    } else {
        assert((seq![x] + ps).drop_last() =~= seq![x] + ps.drop_last());
        assert((seq![x] + ps).last() == ps.last());
        lemma_total_len_prepend(x, ps.drop_last());
    }
}

proof fn lemma_pieces_len(t: Seq<char>, cur: Seq<char>)
    ensures
        total_len(pieces_from(t, cur)) <= t.len() + cur.len(),
    decreases t.len(),
{
    if t.len() == 0 {
        assert(seq![cur].drop_last() =~= Seq::<Seq<char>>::empty());
        assert(total_len(Seq::<Seq<char>>::empty()) == 0);
        assert(total_len(seq![cur]) == cur.len());
    } else if is_terminator(t[0]) {
        lemma_pieces_len(t.drop_first(), seq![]);
        lemma_total_len_prepend(cur, pieces_from(t.drop_first(), seq![]));
    } else {
        lemma_pieces_len(t.drop_first(), cur.push(t[0]));
    }
}

proof fn lemma_number_entities_len(ws: Seq<Seq<char>>, s: Seq<char>, k: int)
    ensures
        number_entities(ws, s, k).len() <= if k > 0 {
            k
        } else {
            0
        },
    decreases k,
{
    if k > 0 {
        lemma_number_entities_len(ws, s, k - 1);
    }
}

proof fn lemma_place_entities_len(ws: Seq<Seq<char>>, s: Seq<char>, k: int)
    ensures
        place_entities(ws, s, k).len() <= if k > 0 {
            k
        } else {
            0
        },
    decreases k,
{
    if k > 0 {
        lemma_place_entities_len(ws, s, k - 1);
    }
}

proof fn lemma_entities_in_len(ps: Seq<Seq<char>>)
    ensures
        entities_in(ps).len() <= 2 * total_len(ps),
    decreases ps.len(),
{
    if ps.len() > 0 {
        lemma_entities_in_len(ps.drop_last());
        let s = trim(ps.last());
        lemma_trim_len(ps.last());
        lemma_words_len(s);
        let ws = words(s);
        lemma_number_entities_len(ws, s, ws.len() as int);
        lemma_place_entities_len(ws, s, ws.len() as int);
    }
}

/// A response yields at most two subject–value pairs per character.
pub proof fn lemma_entities_len(t: Seq<char>)
    ensures
        entities_of(t).len() <= 2 * t.len(),
{
    lemma_pieces_len(t, seq![]);
    lemma_entities_in_len(pieces(t));
}

/// The subject–value pairs of each response.
pub open spec fn response_entities(responses: Seq<&str>) -> Seq<Seq<EntityView>> {
    responses.map_values(|r: &str| entities_of(r@))
}

/// `Σ |responses[i]|` in characters.
pub open spec fn total_chars(responses: Seq<&str>) -> nat
    decreases responses.len(),
{
    if responses.len() == 0 {
        0
    } else {
        total_chars(responses.drop_last()) + responses.last()@.len()
    }
}

/// `Σ |all[i]|`.
pub open spec fn total_entities(all: Seq<Seq<EntityView>>) -> nat
    decreases all.len(),
{
    if all.len() == 0 {
        0
    } else {
        total_entities(all.drop_last()) + all.last().len()
    }
}

proof fn lemma_tagged_len(all: Seq<Seq<EntityView>>)
    ensures
        tagged(all).len() == total_entities(all),
    decreases all.len(),
{
    if all.len() > 0 {
        lemma_tagged_len(all.drop_last());
    }
}

// ── Laws of grouping ────────────────────────────────────────────────────

/// Response indices of the tagged entities are below `n` and never decrease.
pub open spec fn tags_ordered(ts: Seq<Tagged>, n: nat) -> bool {
    &&& forall|i: int| 0 <= i < ts.len() ==> (#[trigger] ts[i]).0 < n
    &&& forall|i: int, j: int| 0 <= i <= j < ts.len() ==> (#[trigger] ts[i]).0 <= (#[trigger] ts[j]).0
}

proof fn lemma_tagged_ordered(all: Seq<Seq<EntityView>>)
    requires
        all.len() <= usize::MAX + 1,
    ensures
        tags_ordered(tagged(all), all.len()),
    decreases all.len(),
{
    if all.len() > 0 {
        let d = all.drop_last();
        lemma_tagged_ordered(d);
        let prev = tagged(d);
        let t = tag(all.last(), (all.len() - 1) as usize);
        assert(tagged(all) == prev + t);
        assert forall|i: int| 0 <= i < tagged(all).len() implies (#[trigger] tagged(all)[i]).0
            < all.len() by {
            if i < prev.len() {
                assert(tagged(all)[i] == prev[i]);
            } else {
                assert(tagged(all)[i] == t[i - prev.len()]);
            }
        }
        assert forall|i: int, j: int| 0 <= i <= j < tagged(all).len() implies (#[trigger] tagged(
            all,
        )[i]).0 <= (#[trigger] tagged(all)[j]).0 by {
            if j < prev.len() {
                assert(tagged(all)[i] == prev[i]);
                assert(tagged(all)[j] == prev[j]);
            } else if i < prev.len() {
                assert(tagged(all)[i] == prev[i]);
                assert(tagged(all)[j] == t[j - prev.len()]);
            } else {
                assert(tagged(all)[i] == t[i - prev.len()]);
                assert(tagged(all)[j] == t[j - prev.len()]);
            }
        }
    }
}

/// The responses of every group are strictly increasing, below `n` and at
/// most `bound`.
pub open spec fn groups_well_formed(gs: Seq<GroupView>, n: nat, bound: int) -> bool {
    forall|g: int|
        0 <= g < gs.len() ==> {
            let rs = (#[trigger] gs[g]).2;
            &&& rs.len() > 0
            &&& forall|i: int| 0 <= i < rs.len() ==> (#[trigger] rs[i]) < n && rs[i] <= bound
            &&& forall|i: int, j: int| 0 <= i < j < rs.len() ==> (#[trigger] rs[i]) < (#[trigger] rs[j])
        }
}

proof fn lemma_first_match_in_range(gs: Seq<GroupView>, subject: Seq<char>, k: int)
    ensures
        first_match_from(gs, subject, k) matches Some(j) ==> 0 <= j < gs.len(),
    decreases gs.len() - k,
{
    if 0 <= k < gs.len() && !subjects_match(gs[k].0, subject) {
        lemma_first_match_in_range(gs, subject, k + 1);
    }
}

proof fn lemma_groups_well_formed(ts: Seq<Tagged>, n: nat)
    requires
        tags_ordered(ts, n),
    ensures
        groups_well_formed(groups_of(ts), n, if ts.len() > 0 {
            ts.last().0 as int
        } else {
            -1
        }),
        groups_of(ts).len() <= ts.len(),
    decreases ts.len(),
{
    if ts.len() > 0 {
        let d = ts.drop_last();
        assert(tags_ordered(d, n)) by {
            assert forall|i: int| 0 <= i < d.len() implies (#[trigger] d[i]).0 < n by {
                assert(d[i] == ts[i]);
            }
            assert forall|i: int, j: int| 0 <= i <= j < d.len() implies (#[trigger] d[i]).0 <= (
            #[trigger] d[j]).0 by {
                assert(d[i] == ts[i]);
                assert(d[j] == ts[j]);
            }
        }
        lemma_groups_well_formed(d, n);
        let gs = groups_of(d);
        let (r, e) = ts.last();
        let bound: int = if d.len() > 0 {
            d.last().0 as int
        } else {
            -1
        };
        assert(bound <= r) by {
            if d.len() > 0 {
                assert(d.last() == ts[d.len() - 1]);
                assert(ts[d.len() - 1].0 <= ts[ts.len() - 1].0);
            }
        }
        assert(r < n) by {
            assert(ts[ts.len() - 1].0 < n);
        }
        lemma_first_match_in_range(gs, e.0, 0);
        let out = groups_of(ts);
        assert(out == add_to_groups(gs, (r, e)));
        match first_match_from(gs, e.0, 0) {
            Some(j) => {
                if !gs[j].2.contains(r) {
                    let rs = gs[j].2;
                    let rs2 = rs.push(r);
                    assert forall|g: int| 0 <= g < out.len() implies {
                        let q = (#[trigger] out[g]).2;
                        &&& q.len() > 0
                        &&& forall|i: int| 0 <= i < q.len() ==> (#[trigger] q[i]) < n && q[i] <= r
                        &&& forall|i: int, k: int| 0 <= i < k < q.len() ==> (#[trigger] q[i]) < (
                        #[trigger] q[k])
                    } by {
                        if g == j {
                            assert(out[g].2 == rs2);
                            assert forall|i: int, k: int| 0 <= i < k < rs2.len() implies (
                            #[trigger] rs2[i]) < (#[trigger] rs2[k]) by {
                                if k == rs.len() {
                                    assert(rs[i] <= bound);
                                    assert(rs[i] != r) by {
                                        if rs[i] == r {
                                            assert(rs.contains(r));
                                        }
                                    }
                                }
                            }
                        } else {
                            assert(out[g] == gs[g]);
                        }
                    }
                } else {
                    assert forall|g: int| 0 <= g < out.len() implies {
                        let q = (#[trigger] out[g]).2;
                        &&& q.len() > 0
                        &&& forall|i: int| 0 <= i < q.len() ==> (#[trigger] q[i]) < n && q[i] <= r
                        &&& forall|i: int, k: int| 0 <= i < k < q.len() ==> (#[trigger] q[i]) < (
                        #[trigger] q[k])
                    } by {
                        assert(out[g] == gs[g]);
                    }
                }
            },
            None => {
                assert forall|g: int| 0 <= g < out.len() implies {
                    let q = (#[trigger] out[g]).2;
                    &&& q.len() > 0
                    &&& forall|i: int| 0 <= i < q.len() ==> (#[trigger] q[i]) < n && q[i] <= r
                    &&& forall|i: int, k: int| 0 <= i < k < q.len() ==> (#[trigger] q[i]) < (
                    #[trigger] q[k])
                } by {
                    if g < gs.len() {
                        assert(out[g] == gs[g]);
                    } else {
                        assert(out[g].2 == seq![r]);
                    }
                }
            },
        }
    }
}

proof fn lemma_increasing_len(rs: Seq<usize>, n: nat)
    requires
        forall|i: int| 0 <= i < rs.len() ==> (#[trigger] rs[i]) < n,
        forall|i: int, j: int| 0 <= i < j < rs.len() ==> (#[trigger] rs[i]) < (#[trigger] rs[j]),
    ensures
        rs.len() <= n,
    decreases rs.len(),
{
    if rs.len() > 0 {
        let d = rs.drop_last();
        let last = rs[rs.len() - 1];
        assert forall|i: int| 0 <= i < d.len() implies (#[trigger] d[i]) < last by {
            assert(d[i] == rs[i]);
        }
        lemma_increasing_len(d, last as nat);
    }
}

/// Agreement bounded: every group of subjects built from the responses is
/// mentioned by distinct responses, so no more than there are responses.
pub proof fn law_agreement_at_most_responses(all: Seq<Seq<EntityView>>, g: int)
    requires
        all.len() <= usize::MAX + 1,
        0 <= g < groups_of(tagged(all)).len(),
    ensures
        1 <= groups_of(tagged(all))[g].2.len() <= all.len(),
{
    let ts = tagged(all);
    lemma_tagged_ordered(all);
    lemma_groups_well_formed(ts, all.len());
    let rs = groups_of(ts)[g].2;
    lemma_increasing_len(rs, all.len());
}

// ── Laws of the report's counts ─────────────────────────────────────────

/// The number of entity comparisons between response `ra` and the
/// responses after it, below `k`.
pub open spec fn response_pairs(all: Seq<Seq<EntityView>>, ra: int, k: int) -> nat
    decreases k,
{
    if k <= 0 {
        0
    } else {
        response_pairs(all, ra, k - 1) + if k - 1 > ra {
            all[ra].len() * all[k - 1].len()
        } else {
            0
        }
    }
}

/// The number of entity comparisons between responses `ra < rb`, `ra < k`.
pub open spec fn comparison_pairs(all: Seq<Seq<EntityView>>, k: int) -> nat
    decreases k,
{
    if k <= 0 {
        0
    } else {
        comparison_pairs(all, k - 1) + response_pairs(all, k - 1, all.len() as int)
    }
}

proof fn lemma_dedup_len(d: Seq<ConflictView>, cs: Seq<ConflictView>)
    ensures
        dedup_from(d, cs).len() <= d.len() + cs.len(),
    decreases cs.len(),
{
    if cs.len() > 0 {
        lemma_dedup_len(d, cs.drop_last());
    }
}

proof fn lemma_row_len(a: EntityView, bs: Seq<EntityView>, ra: usize, rb: usize)
    ensures
        row_candidates(a, bs, ra, rb).len() <= bs.len(),
    decreases bs.len(),
{
    if bs.len() > 0 {
        lemma_row_len(a, bs.drop_last(), ra, rb);
    }
}

proof fn lemma_pair_len(as_: Seq<EntityView>, bs: Seq<EntityView>, ra: usize, rb: usize)
    ensures
        pair_candidates(as_, bs, ra, rb).len() <= as_.len() * bs.len(),
    decreases as_.len(),
{
    if as_.len() > 0 {
        lemma_pair_len(as_.drop_last(), bs, ra, rb);
        lemma_row_len(as_.last(), bs, ra, rb);
        let n = as_.len();
        let m = bs.len();
        assert((n - 1) * m + m == n * m) by (nonlinear_arith);
    }
}

proof fn lemma_response_len(all: Seq<Seq<EntityView>>, ra: int, k: int)
    requires
        0 <= ra,
        k <= all.len(),
    ensures
        response_candidates(all, ra, k).len() <= response_pairs(all, ra, k),
    decreases k,
{
    if k > 0 {
        lemma_response_len(all, ra, k - 1);
        if k - 1 > ra {
            lemma_pair_len(all[ra], all[k - 1], ra as usize, (k - 1) as usize);
        }
    }
}

proof fn lemma_all_len(all: Seq<Seq<EntityView>>, k: int)
    requires
        k <= all.len(),
    ensures
        all_candidates(all, k).len() <= comparison_pairs(all, k),
    decreases k,
{
    if k > 0 {
        lemma_all_len(all, k - 1);
        lemma_response_len(all, k - 1, all.len() as int);
    }
}

/// Contradictions bounded: the contradictions reported between the
/// responses are no more than the pairs of entities that were compared.
pub proof fn law_contradictions_bounded(all: Seq<Seq<EntityView>>)
    ensures
        dedup_from(seq![], all_candidates(all, all.len() as int)).len() <= comparison_pairs(
            all,
            all.len() as int,
        ),
{
    lemma_dedup_len(seq![], all_candidates(all, all.len() as int));
    lemma_all_len(all, all.len() as int);
}

proof fn lemma_groups_len(ts: Seq<Tagged>)
    ensures
        groups_of(ts).len() <= ts.len(),
    decreases ts.len(),
{
    if ts.len() > 0 {
        lemma_groups_len(ts.drop_last());
        lemma_first_match_in_range(groups_of(ts.drop_last()), ts.last().1.0, 0);
    }
}

proof fn lemma_unique_len(gs: Seq<GroupView>)
    ensures
        unique_of(gs).len() <= gs.len(),
    decreases gs.len(),
{
    if gs.len() > 0 {
        lemma_unique_len(gs.drop_last());
    }
}

proof fn lemma_consistent_len(gs: Seq<GroupView>, n: nat)
    ensures
        consistent_of(gs, n).len() <= gs.len(),
        unique_of(gs).len() + consistent_of(gs, n).len() <= gs.len(),
    decreases gs.len(),
{
    if gs.len() > 0 {
        lemma_consistent_len(gs.drop_last(), n);
    }
}

/// Unique claims bounded: the claims found in a single response, together
/// with the claims found in several, are no more than the entities of all
/// responses.
pub proof fn law_unique_bounded(all: Seq<Seq<EntityView>>)
    ensures
        unique_of(groups_of(tagged(all))).len() + consistent_of(groups_of(tagged(all)), all.len()).len()
            <= total_entities(all),
{
    lemma_tagged_len(all);
    lemma_groups_len(tagged(all));
    lemma_consistent_len(groups_of(tagged(all)), all.len());
}

// ── Symmetry of contradictions ──────────────────────────────────────────

/// Subject matching is symmetric.
pub proof fn law_subjects_match_symmetric(a: Seq<char>, b: Seq<char>)
    ensures
        subjects_match(a, b) == subjects_match(b, a),
        subjects_match(a, a),
        seq_contains(b, a) ==> subjects_match(a, b),
{
}

/// Conflicting values are symmetric.
pub proof fn law_values_conflict_symmetric(av: Seq<char>, bv: Seq<char>)
    ensures
        values_conflict(av, bv) == values_conflict(bv, av),
        !values_conflict(av, av),
{
}

/// Contradiction symmetric: if entity `a` of one response contradicts entity
/// `b` of another, then `b` contradicts `a`, with the same confidence; and
/// entities with equal normalized values never contradict each other.
pub proof fn law_contradiction_symmetric(a: EntityView, b: EntityView, ra: usize, rb: usize)
    ensures
        contradiction_between(a, b, ra, rb) is Some <==> contradiction_between(b, a, rb, ra) is Some,
        contradiction_between(a, b, ra, rb) matches Some(c) ==> contradiction_between(b, a, rb, ra)
            matches Some(d) && c.5 == d.5,
        normalized_value(a.1) == normalized_value(b.1) ==> contradiction_between(a, b, ra, rb) is None,
{
    law_subjects_match_symmetric(a.0, b.0);
    law_values_conflict_symmetric(normalized_value(a.1), normalized_value(b.1));
}

/// Agreeing response improves: recording an entity of a new response whose
/// subject matches a group adds that response to the group's agreement.
pub proof fn law_agreeing_response_improves(gs: Seq<GroupView>, r: usize, e: EntityView, j: int)
    requires
        first_match_from(gs, e.0, 0) == Some(j),
        !gs[j].2.contains(r),
    ensures
        add_to_groups(gs, (r, e)).len() == gs.len(),
        add_to_groups(gs, (r, e))[j].2.len() == gs[j].2.len() + 1,
        add_to_groups(gs, (r, e))[j].2.contains(r),
{
    lemma_first_match_in_range(gs, e.0, 0);
    assert(add_to_groups(gs, (r, e))[j].2.last() == r);
}

// ── Report ──────────────────────────────────────────────────────────────

/// A claim that appears consistently across responses.
#[derive(Debug, Clone)]
pub struct ConsistentClaim {
    /// Representative text of the claim
    pub text: String,
    /// How many responses contain this claim
    pub agreement_count: usize,
    /// Agreement ratio (agreement_count / n_responses), fixed-point (`SCALE` = 1.0)
    pub agreement_ratio: u64,
}

/// A claim that appears in only one response.
#[derive(Debug, Clone)]
pub struct UniqueClaim {
    /// The claim text
    pub text: String,
    /// Which response it came from
    pub response_idx: usize,
}

/// Result of consistency analysis across multiple responses.
#[derive(Debug, Clone)]
pub struct ConsistencyReport {
    /// Number of responses analyzed
    pub n_responses: usize,
    /// Total subject–value pairs extracted across all responses
    pub total_claims: usize,
    /// Claims that appear consistently (agreement across responses)
    pub consistent_claims: Vec<ConsistentClaim>,
    /// Detected contradictions
    pub contradictions: Vec<Contradiction>,
    /// Claims unique to a single response (potential hallucination)
    pub unique_claims: Vec<UniqueClaim>,
    /// Overall consistency score, fixed-point (0 = highly inconsistent, `SCALE` = fully consistent)
    pub consistency_score: u64,
}

/// `(text, agreement count, agreement ratio)` of a consistent claim.
pub type ConsistentView = (Seq<char>, usize, u64);

/// `(text, response)` of a unique claim.
pub type UniqueView = (Seq<char>, usize);

pub open spec fn consistent_view(c: ConsistentClaim) -> ConsistentView {
    (c.text@, c.agreement_count, c.agreement_ratio)
}

pub open spec fn unique_view(u: UniqueClaim) -> UniqueView {
    (u.text@, u.response_idx)
}

/// `subject: value`.
pub open spec fn group_text(g: GroupView) -> Seq<char> {
    g.0 + ": "@ + g.1
}

/// The groups mentioned by more than one response, with their agreement.
pub open spec fn consistent_of(gs: Seq<GroupView>, n: nat) -> Seq<ConsistentView>
    decreases gs.len(),
{
    if gs.len() == 0 {
        seq![]
    } else {
        consistent_of(gs.drop_last(), n) + if gs.last().2.len() > 1 {
            seq![
                (
                    group_text(gs.last()),
                    gs.last().2.len() as usize,
                    (gs.last().2.len() * (SCALE as nat) / n) as u64,
                ),
            ]
        } else {
            seq![]
        }
    }
}

/// The groups mentioned by exactly one response.
pub open spec fn unique_of(gs: Seq<GroupView>) -> Seq<UniqueView>
    decreases gs.len(),
{
    if gs.len() == 0 {
        seq![]
    } else {
        unique_of(gs.drop_last()) + if gs.last().2.len() == 1 {
            seq![(group_text(gs.last()), gs.last().2[0])]
        } else {
            seq![]
        }
    }
}

/// `Σ` of the agreement ratios.
pub open spec fn ratio_sum(cs: Seq<ConsistentView>) -> nat
    decreases cs.len(),
{
    if cs.len() == 0 {
        0
    } else {
        ratio_sum(cs.drop_last()) + cs.last().2 as nat
    }
}

/// The consistency score: the average agreement ratio (0.5 without
/// consistent claims), less 0.15 per contradiction (at most 0.5) and 0.05 per
/// unique claim (at most 0.3), clamped to [0, 1]; 1 when there is nothing to
/// compare.
pub open spec fn consistency_score(
    consistent: Seq<ConsistentView>,
    n_contradictions: nat,
    n_unique: nat,
    total: nat,
    n: nat,
) -> nat {
    if total == 0 || n < 2 {
        SCALE as nat
    } else {
        let avg: int = if consistent.len() == 0 {
            1_500_000_000_000_000
        } else {
            (ratio_sum(consistent) / consistent.len()) as int
        };
        let contradiction_penalty: int = if 450_000_000_000_000 * n_contradictions > 1_500_000_000_000_000 {
            1_500_000_000_000_000
        } else {
            450_000_000_000_000 * n_contradictions as int
        };
        let unique_penalty: int = if 150_000_000_000_000 * n_unique > 900_000_000_000_000 {
            900_000_000_000_000
        } else {
            150_000_000_000_000 * n_unique as int
        };
        let raw = avg - contradiction_penalty - unique_penalty;
        if raw < 0 {
            0
        } else if raw > SCALE {
            SCALE as nat
        } else {
            raw as nat
        }
    }
}

pub open spec fn consistent_views(cs: Seq<ConsistentClaim>) -> Seq<ConsistentView> {
    cs.map_values(|c: ConsistentClaim| consistent_view(c))
}

pub open spec fn unique_views(us: Seq<UniqueClaim>) -> Seq<UniqueView> {
    us.map_values(|u: UniqueClaim| unique_view(u))
}

/// The consistency score of a report's parts (see `consistency_score`).
pub fn compute_consistency_score(
    consistent: &[ConsistentClaim],
    contradictions: &[Contradiction],
    unique: &[UniqueClaim],
    total_claims: usize,
    n_responses: usize,
) -> (s: u64)
    ensures
        s == consistency_score(
            consistent_views(consistent@),
            contradictions@.len(),
            unique@.len(),
            total_claims as nat,
            n_responses as nat,
        ),
        s <= SCALE,
{
    if total_claims == 0 || n_responses < 2 {
        return SCALE;
    }
    let ghost cv = consistent_views(consistent@);
    let avg: i128 = if consistent.len() == 0 {
        1_500_000_000_000_000
    } else {
        let mut sum: u128 = 0;
        let mut i: usize = 0;
        while i < consistent.len()
            invariant
                i <= consistent@.len(),
                cv == consistent_views(consistent@),
                sum == ratio_sum(cv.take(i as int)),
                sum <= i * 0x1_0000_0000_0000_0000,
            decreases consistent@.len() - i,
        {
            assert(cv.take(i + 1).drop_last() =~= cv.take(i as int));
            assert(cv[i as int] == consistent_view(consistent@[i as int]));
            sum = sum + consistent[i].agreement_ratio as u128;
            i += 1;
        }
        assert(cv.take(consistent@.len() as int) =~= cv);
        assert(sum / (consistent.len() as u128) <= 0x1_0000_0000_0000_0000) by (nonlinear_arith)
            requires
                sum <= consistent.len() * 0x1_0000_0000_0000_0000,
                consistent.len() > 0,
        ;
        (sum / (consistent.len() as u128)) as i128
    };
    let cp: i128 = if contradictions.len() > 3 {
        1_500_000_000_000_000
    } else {
        450_000_000_000_000 * (contradictions.len() as i128)
    };
    let up: i128 = if unique.len() > 6 {
        900_000_000_000_000
    } else {
        150_000_000_000_000 * (unique.len() as i128)
    };
    let raw = avg - cp - up;
    if raw < 0 {
        0
    } else if raw > SCALE as i128 {
        SCALE
    } else {
        raw as u64
    }
}

proof fn lemma_total_chars_step(rs: Seq<&str>, i: int)
    requires
        0 <= i < rs.len(),
    ensures
        total_chars(rs.take(i + 1)) == total_chars(rs.take(i)) + rs[i]@.len(),
        total_chars(rs.take(i + 1)) <= total_chars(rs),
    decreases rs.len() - i,
{
    assert(rs.take(i + 1).drop_last() =~= rs.take(i));
    if i + 1 < rs.len() {
        lemma_total_chars_step(rs, i + 1);
    } else {
        assert(rs.take(i + 1) =~= rs);
    }
}

proof fn lemma_total_entities_step(all: Seq<Seq<EntityView>>, i: int)
    requires
        0 <= i < all.len(),
    ensures
        total_entities(all.take(i + 1)) == total_entities(all.take(i)) + all[i].len(),
{
    assert(all.take(i + 1).drop_last() =~= all.take(i));
}

fn group_text_string(g: &SubjectGroup) -> (s: String)
    ensures
        s@ == group_text(group_view(*g)),
{
    let mut t: Vec<char> = Vec::new();
    extend_chars(&mut t, g.subject.as_slice());
    extend_chars(&mut t, chars_of(": ").as_slice());
    extend_chars(&mut t, g.value.as_slice());
    assert(t@ =~= group_text(group_view(*g)));
    string_of(t.as_slice())
}

/// Check consistency across multiple responses to the same prompt.
///
/// Takes two or more text responses to the same prompt and reports the
/// contradictions, agreements and unique claims among them.  The responses
/// hold at most `usize::MAX / 2` characters in all.
pub fn check_consistency(responses: &[&str]) -> (report: ConsistencyReport)
    requires
        total_chars(responses@) <= usize::MAX / 2,
    ensures
        report.n_responses == responses@.len(),
        report.consistency_score <= SCALE,
        responses@.len() < 2 ==> {
            &&& report.total_claims == 0
            &&& report.consistent_claims@.len() == 0
            &&& report.contradictions@.len() == 0
            &&& report.unique_claims@.len() == 0
            &&& report.consistency_score == SCALE
        },
        responses@.len() >= 2 ==> {
            let all = response_entities(responses@);
            let n = responses@.len();
            let gs = groups_of(tagged(all));
            &&& report.total_claims == total_entities(all)
            &&& consistent_views(report.consistent_claims@) == consistent_of(gs, n)
            &&& unique_views(report.unique_claims@) == unique_of(gs)
            &&& contradiction_views(report.contradictions@) == dedup_from(
                seq![],
                all_candidates(all, n as int),
            )
            &&& report.consistency_score == consistency_score(
                consistent_of(gs, n),
                report.contradictions@.len(),
                unique_of(gs).len(),
                total_entities(all),
                n,
            )
        },
{
    let n = responses.len();
    if n < 2 {
        return ConsistencyReport {
            n_responses: n,
            total_claims: 0,
            consistent_claims: Vec::new(),
            contradictions: Vec::new(),
            unique_claims: Vec::new(),
            consistency_score: SCALE,
        };
    }
    let ghost rs = responses@;
    let ghost expected = response_entities(rs);
    // Extract entities from each response
    let mut all: Vec<Vec<ClaimEntity>> = Vec::new();
    let mut total_claims: usize = 0;
    let mut r: usize = 0;
    while r < n
        invariant
            n == rs.len(),
            rs == responses@,
            expected == response_entities(rs),
            total_chars(rs) <= usize::MAX / 2,
            r <= n,
            all_views(all@) == expected.take(r as int),
            total_claims == total_entities(expected.take(r as int)),
            total_claims <= 2 * total_chars(rs.take(r as int)),
        decreases n - r,
    {
        proof {
            lemma_total_chars_step(rs, r as int);
            lemma_total_entities_step(expected, r as int);
            lemma_entities_len(rs[r as int]@);
        }
        let text = chars_of(responses[r]);
        let es = entities_of_chars(text.as_slice());
        total_claims = total_claims + es.len();
        let ghost prev = all_views(all@);
        all.push(es);
        assert(all_views(all@) =~= prev.push(expected[r as int]));
        assert(expected.take(r + 1) =~= expected.take(r as int).push(expected[r as int]));
        r += 1;
    }
    assert(expected.take(n as int) =~= expected);
    let ghost av = all_views(all@);
    let ghost ts = tagged(av);
    proof {
        lemma_tagged_len(av);
        lemma_tagged_ordered(av);
        lemma_groups_well_formed(ts, n as nat);
    }
    let groups = group_entities(&all);
    let ghost gv = group_views(groups@);
    // Claims that appear in several responses, and claims unique to one
    let mut consistent_claims: Vec<ConsistentClaim> = Vec::new();
    let mut unique_claims: Vec<UniqueClaim> = Vec::new();
    let mut g: usize = 0;
    while g < groups.len()
        invariant
            g <= groups@.len(),
            gv == group_views(groups@),
            gv == groups_of(ts),
            ts == tagged(av),
            av.len() == n,
            n >= 2,
            n <= usize::MAX,
            consistent_views(consistent_claims@) == consistent_of(gv.take(g as int), n as nat),
            unique_views(unique_claims@) == unique_of(gv.take(g as int)),
        decreases groups@.len() - g,
    {
        assert(gv.take(g + 1).drop_last() =~= gv.take(g as int));
        assert(gv[g as int] == group_view(groups@[g as int]));
        proof {
            law_agreement_at_most_responses(av, g as int);
        }
        let count = groups[g].responses.len();
        if count > 1 {
            assert((count as int) * 3_000_000_000_000_000 / (n as int) <= 3_000_000_000_000_000) by (nonlinear_arith)
                requires
                    count <= n,
                    n > 0,
            ;
            let ratio: u64 = ((count as u128) * (SCALE as u128) / (n as u128)) as u64;
            let c = ConsistentClaim {
                text: group_text_string(&groups[g]),
                agreement_count: count,
                agreement_ratio: ratio,
            };
            let ghost prev = consistent_views(consistent_claims@);
            consistent_claims.push(c);
            assert(consistent_views(consistent_claims@) =~= prev.push(consistent_view(c)));
        }
        if count == 1 {
            let u = UniqueClaim {
                text: group_text_string(&groups[g]),
                response_idx: groups[g].responses[0],
            };
            let ghost prev = unique_views(unique_claims@);
            unique_claims.push(u);
            assert(unique_views(unique_claims@) =~= prev.push(unique_view(u)));
        }
        assert(consistent_views(consistent_claims@) =~= consistent_of(gv.take(g + 1), n as nat));
        assert(unique_views(unique_claims@) =~= unique_of(gv.take(g + 1)));
        g += 1;
    }
    assert(gv.take(groups@.len() as int) =~= gv);
    // Contradictions: same subject, different values across responses
    let contradictions = find_contradictions(&all);
    let consistency_score = compute_consistency_score(
        consistent_claims.as_slice(),
        contradictions.as_slice(),
        unique_claims.as_slice(),
        total_claims,
        n,
    );
    ConsistencyReport {
        n_responses: n,
        total_claims,
        consistent_claims,
        contradictions,
        unique_claims,
        consistency_score,
    }
}

// ── Laws of the report's parts ──────────────────────────────────────────

/// A contradiction between responses `a < b < n`.
pub open spec fn response_ordered(c: ConflictView, n: int) -> bool {
    c.1 < c.3 && c.3 < n
}

/// No two contradictions describe the same conflict.
pub open spec fn distinct_conflicts(cs: Seq<ConflictView>) -> bool {
    forall|i: int, j: int| 0 <= i < j < cs.len() ==> (#[trigger] cs[i]).4 != (#[trigger] cs[j]).4
}

proof fn lemma_row_responses(a: EntityView, bs: Seq<EntityView>, ra: usize, rb: usize)
    ensures
        forall|i: int|
            0 <= i < row_candidates(a, bs, ra, rb).len() ==> (#[trigger] row_candidates(a, bs, ra, rb)[i]).1
                == ra && row_candidates(a, bs, ra, rb)[i].3 == rb,
    decreases bs.len(),
{
    if bs.len() > 0 {
        lemma_row_responses(a, bs.drop_last(), ra, rb);
        let r = row_candidates(a, bs.drop_last(), ra, rb);
        let o = option_seq(contradiction_between(a, bs.last(), ra, rb));
        assert forall|i: int| 0 <= i < row_candidates(a, bs, ra, rb).len() implies (
        #[trigger] row_candidates(a, bs, ra, rb)[i]).1 == ra && row_candidates(a, bs, ra, rb)[i].3
            == rb by {
            if i < r.len() {
                assert(row_candidates(a, bs, ra, rb)[i] == r[i]);
            } else {
                assert(row_candidates(a, bs, ra, rb)[i] == o[i - r.len()]);
            }
        }
    }
}

proof fn lemma_pair_responses(as_: Seq<EntityView>, bs: Seq<EntityView>, ra: usize, rb: usize)
    ensures
        forall|i: int|
            0 <= i < pair_candidates(as_, bs, ra, rb).len() ==> (#[trigger] pair_candidates(
                as_,
                bs,
                ra,
                rb,
            )[i]).1 == ra && pair_candidates(as_, bs, ra, rb)[i].3 == rb,
    decreases as_.len(),
{
    if as_.len() > 0 {
        lemma_pair_responses(as_.drop_last(), bs, ra, rb);
        lemma_row_responses(as_.last(), bs, ra, rb);
        let p = pair_candidates(as_.drop_last(), bs, ra, rb);
        let r = row_candidates(as_.last(), bs, ra, rb);
        assert forall|i: int| 0 <= i < pair_candidates(as_, bs, ra, rb).len() implies (
        #[trigger] pair_candidates(as_, bs, ra, rb)[i]).1 == ra && pair_candidates(as_, bs, ra, rb)[i].3
            == rb by {
            if i < p.len() {
                assert(pair_candidates(as_, bs, ra, rb)[i] == p[i]);
            } else {
                assert(pair_candidates(as_, bs, ra, rb)[i] == r[i - p.len()]);
            }
        }
    }
}

proof fn lemma_response_ordered(all: Seq<Seq<EntityView>>, ra: int, k: int)
    requires
        0 <= ra,
        k <= all.len() <= usize::MAX + 1,
    ensures
        forall|i: int|
            0 <= i < response_candidates(all, ra, k).len() ==> response_ordered(
                #[trigger] response_candidates(all, ra, k)[i],
                k,
            ) && response_candidates(all, ra, k)[i].1 == ra,
    decreases k,
{
    if k > 0 {
        lemma_response_ordered(all, ra, k - 1);
        let r = response_candidates(all, ra, k - 1);
        if k - 1 > ra {
            lemma_pair_responses(all[ra], all[k - 1], ra as usize, (k - 1) as usize);
            let p = pair_candidates(all[ra], all[k - 1], ra as usize, (k - 1) as usize);
            assert forall|i: int| 0 <= i < response_candidates(all, ra, k).len() implies response_ordered(
                #[trigger] response_candidates(all, ra, k)[i],
                k,
            ) && response_candidates(all, ra, k)[i].1 == ra by {
                if i < r.len() {
                    assert(response_candidates(all, ra, k)[i] == r[i]);
                } else {
                    assert(response_candidates(all, ra, k)[i] == p[i - r.len()]);
                }
            }
        } else {
            assert(response_candidates(all, ra, k) =~= r);
        }
    }
}

proof fn lemma_all_ordered(all: Seq<Seq<EntityView>>, k: int)
    requires
        k <= all.len() <= usize::MAX + 1,
    ensures
        forall|i: int|
            0 <= i < all_candidates(all, k).len() ==> response_ordered(
                #[trigger] all_candidates(all, k)[i],
                all.len() as int,
            ),
    decreases k,
{
    if k > 0 {
        lemma_all_ordered(all, k - 1);
        lemma_response_ordered(all, k - 1, all.len() as int);
        let a = all_candidates(all, k - 1);
        let r = response_candidates(all, k - 1, all.len() as int);
        assert forall|i: int| 0 <= i < all_candidates(all, k).len() implies response_ordered(
            #[trigger] all_candidates(all, k)[i],
            all.len() as int,
        ) by {
            if i < a.len() {
                assert(all_candidates(all, k)[i] == a[i]);
            } else {
                assert(all_candidates(all, k)[i] == r[i - a.len()]);
            }
        }
    }
}

proof fn lemma_dedup_ordered(d: Seq<ConflictView>, cs: Seq<ConflictView>, n: int)
    requires
        forall|i: int| 0 <= i < d.len() ==> response_ordered(#[trigger] d[i], n),
        forall|i: int| 0 <= i < cs.len() ==> response_ordered(#[trigger] cs[i], n),
        distinct_conflicts(d),
    ensures
        forall|i: int|
            0 <= i < dedup_from(d, cs).len() ==> response_ordered(#[trigger] dedup_from(d, cs)[i], n),
        distinct_conflicts(dedup_from(d, cs)),
    decreases cs.len(),
{
    if cs.len() > 0 {
        let c = cs.drop_last();
        assert forall|i: int| 0 <= i < c.len() implies response_ordered(#[trigger] c[i], n) by {
            assert(c[i] == cs[i]);
        }
        lemma_dedup_ordered(d, c, n);
        let r = dedup_from(d, c);
        let x = cs.last();
        assert(response_ordered(cs[cs.len() - 1], n));
        if !(exists|i: int| 0 <= i < r.len() && (#[trigger] r[i]).4 == x.4) {
            assert(dedup_from(d, cs) == r.push(x));
            assert forall|i: int, j: int| 0 <= i < j < r.push(x).len() implies (#[trigger] r.push(
                x,
            )[i]).4 != (#[trigger] r.push(x)[j]).4 by {
                if j < r.len() {
                    assert(r.push(x)[i] == r[i] && r.push(x)[j] == r[j]);
                } else {
                    assert(r.push(x)[i] == r[i]);
                }
            }
        }
    }
}

proof fn lemma_consistent_parts(gs: Seq<GroupView>, n: nat)
    requires
        n <= usize::MAX,
        n > 0,
        forall|g: int| 0 <= g < gs.len() ==> (#[trigger] gs[g]).2.len() <= n,
    ensures
        forall|k: int|
            0 <= k < consistent_of(gs, n).len() ==> 2 <= (#[trigger] consistent_of(gs, n)[k]).1 <= n
                && consistent_of(gs, n)[k].2 == consistent_of(gs, n)[k].1 * SCALE / (n as int),
    decreases gs.len(),
{
    if gs.len() > 0 {
        let d = gs.drop_last();
        assert forall|g: int| 0 <= g < d.len() implies (#[trigger] d[g]).2.len() <= n by {
            assert(d[g] == gs[g]);
        }
        lemma_consistent_parts(d, n);
        let r = consistent_of(d, n);
        let m = gs.last().2.len();
        assert(gs[gs.len() - 1].2.len() <= n);
        assert(m * 3_000_000_000_000_000 / n <= 3_000_000_000_000_000) by (nonlinear_arith)
            requires
                m <= n,
                n > 0,
        ;
        assert forall|k: int| 0 <= k < consistent_of(gs, n).len() implies 2 <= (
        #[trigger] consistent_of(gs, n)[k]).1 <= n && consistent_of(gs, n)[k].2
            == consistent_of(gs, n)[k].1 * SCALE / (n as int) by {
            if k < r.len() {
                assert(consistent_of(gs, n)[k] == r[k]);
            }
        }
    }
}

proof fn lemma_unique_parts(gs: Seq<GroupView>, n: nat)
    requires
        forall|g: int| 0 <= g < gs.len() ==> (#[trigger] gs[g]).2.len() > 0 ==> gs[g].2[0] < n,
    ensures
        forall|k: int| 0 <= k < unique_of(gs).len() ==> (#[trigger] unique_of(gs)[k]).1 < n,
    decreases gs.len(),
{
    if gs.len() > 0 {
        let d = gs.drop_last();
        assert forall|g: int| 0 <= g < d.len() implies (#[trigger] d[g]).2.len() > 0 ==> d[g].2[0]
            < n by {
            assert(d[g] == gs[g]);
        }
        lemma_unique_parts(d, n);
        let r = unique_of(d);
        assert(gs[gs.len() - 1] == gs.last());
        assert forall|k: int| 0 <= k < unique_of(gs).len() implies (#[trigger] unique_of(gs)[k]).1
            < n by {
            if k < r.len() {
                assert(unique_of(gs)[k] == r[k]);
            }
        }
    }
}

/// The parts of a consistency report on the entities `all` of `n`
/// responses: every consistent claim is agreed on by 2 to `n` responses and
/// carries the ratio `count / n` (rounded down); every unique claim comes
/// from a response below `n`; every contradiction names two responses
/// `a < b < n`; and no two contradictions describe the same conflict.
pub proof fn law_consistency_report_parts(all: Seq<Seq<EntityView>>)
    requires
        all.len() <= usize::MAX,
    ensures
        forall|k: int|
            0 <= k < consistent_of(groups_of(tagged(all)), all.len()).len() ==> {
                let c = #[trigger] consistent_of(groups_of(tagged(all)), all.len())[k];
                2 <= c.1 <= all.len() && c.2 == c.1 * SCALE / (all.len() as int)
            },
        forall|k: int|
            0 <= k < unique_of(groups_of(tagged(all))).len() ==> (#[trigger] unique_of(
                groups_of(tagged(all)),
            )[k]).1 < all.len(),
        forall|k: int|
            0 <= k < dedup_from(seq![], all_candidates(all, all.len() as int)).len()
                ==> response_ordered(
                #[trigger] dedup_from(seq![], all_candidates(all, all.len() as int))[k],
                all.len() as int,
            ),
        distinct_conflicts(dedup_from(seq![], all_candidates(all, all.len() as int))),
{
    let gs = groups_of(tagged(all));
    let n = all.len();
    lemma_tagged_ordered(all);
    lemma_groups_well_formed(tagged(all), n);
    assert forall|g: int| 0 <= g < gs.len() implies (#[trigger] gs[g]).2.len() <= n by {
        law_agreement_at_most_responses(all, g);
    }
    if n > 0 {
        lemma_consistent_parts(gs, n);
    } else {
        assert(gs.len() == 0) by {
            lemma_tagged_len(all);
            lemma_groups_len(tagged(all));
            assert(total_entities(all) == 0);
        }
    }
    assert forall|g: int| 0 <= g < gs.len() implies (#[trigger] gs[g]).2.len() > 0 ==> gs[g].2[0]
        < n by {
        assert(gs[g].2[0] == gs[g].2[0]);
    }
    lemma_unique_parts(gs, n);
    lemma_all_ordered(all, n as int);
    lemma_dedup_ordered(seq![], all_candidates(all, n as int), n as int);
}

/// The entities of the responses after `ra` and before `k`.
pub open spec fn entities_between(all: Seq<Seq<EntityView>>, ra: int, k: int) -> nat
    decreases k,
{
    if k <= 0 {
        0
    } else {
        entities_between(all, ra, k - 1) + if k - 1 > ra {
            all[k - 1].len()
        } else {
            0
        }
    }
}

proof fn lemma_response_pairs_product(all: Seq<Seq<EntityView>>, ra: int, k: int)
    requires
        0 <= ra < all.len(),
        k <= all.len(),
    ensures
        response_pairs(all, ra, k) == all[ra].len() * entities_between(all, ra, k),
    decreases k,
{
    if k > 0 {
        lemma_response_pairs_product(all, ra, k - 1);
        let x = all[ra].len();
        let e = entities_between(all, ra, k - 1);
        if k - 1 > ra {
            let y = all[k - 1].len();
            assert(response_pairs(all, ra, k) == response_pairs(all, ra, k - 1) + x * y);
            assert(entities_between(all, ra, k) == e + y);
            assert(x * e + x * y == x * (e + y)) by (nonlinear_arith);
        } else {
            assert(response_pairs(all, ra, k) == response_pairs(all, ra, k - 1));
            assert(entities_between(all, ra, k) == e);
        }
    } else {
        let x = all[ra].len();
        assert(x * 0 == 0) by (nonlinear_arith);
    }
}

proof fn lemma_between_total(all: Seq<Seq<EntityView>>, ra: int, k: int)
    requires
        0 <= ra < k <= all.len(),
    ensures
        entities_between(all, ra, k) == total_entities(all.take(k)) - total_entities(
            all.take(ra + 1),
        ),
    decreases k,
{
    assert(all.take(k).drop_last() =~= all.take(k - 1));
    assert(all.take(k).last() == all[k - 1]);
    assert(total_entities(all.take(k)) == total_entities(all.take(k - 1)) + all[k - 1].len());
    if k - 1 > ra {
        lemma_between_total(all, ra, k - 1);
    } else {
        lemma_between_zero(all, ra, k - 1);
    }
}

proof fn lemma_total_prefix(all: Seq<Seq<EntityView>>, k: int)
    requires
        0 <= k <= all.len(),
    ensures
        total_entities(all.take(k)) <= total_entities(all),
    decreases all.len() - k,
{
    if k < all.len() {
        lemma_total_prefix(all, k + 1);
        assert(all.take(k + 1).drop_last() =~= all.take(k));
    } else {
        assert(all.take(k) =~= all);
    }
}

/// The number of unordered pairs of `t` things: `t(t-1)/2`.
pub open spec fn pairs_of(t: nat) -> nat
    decreases t,
{
    if t == 0 {
        0
    } else {
        pairs_of((t - 1) as nat) + (t - 1) as nat
    }
}

proof fn lemma_pairs_sum(a: nat, b: nat)
    ensures
        pairs_of(a + b) == pairs_of(a) + a * b + pairs_of(b),
    decreases b,
{
    if b == 0 {
        assert(a * 0 == 0) by (nonlinear_arith);
    } else {
        lemma_pairs_sum(a, (b - 1) as nat);
        assert(a + (b - 1) as nat == (a + b - 1) as nat);
        assert(pairs_of(a + b) == pairs_of((a + b - 1) as nat) + (a + b - 1) as nat);
        assert(pairs_of(b) == pairs_of((b - 1) as nat) + (b - 1) as nat);
        assert(a * (b - 1) + a == a * b) by (nonlinear_arith);
    }
}

proof fn lemma_pairs_step(r: nat, x: nat)
    requires
        x <= r,
    ensures
        pairs_of((r - x) as nat) + x * (r - x) <= pairs_of(r),
{
    let rr = (r - x) as nat;
    lemma_pairs_sum(rr, x);
    assert(rr * x == x * rr) by (nonlinear_arith);
    assert(rr + x == r);
}

proof fn lemma_comparisons_below_pairs(all: Seq<Seq<EntityView>>, k: int)
    requires
        0 <= k <= all.len(),
    ensures
        comparison_pairs(all, k) + pairs_of(
            (total_entities(all) - total_entities(all.take(k))) as nat,
        ) <= pairs_of(total_entities(all)),
    decreases k,
{
    lemma_total_prefix(all, k);
    if k == 0 {
        assert(all.take(0) =~= Seq::<Seq<EntityView>>::empty());
    } else {
        lemma_comparisons_below_pairs(all, k - 1);
        lemma_total_prefix(all, k - 1);
        lemma_response_pairs_product(all, k - 1, all.len() as int);
        assert(all.take(k).drop_last() =~= all.take(k - 1));
        let t = total_entities(all);
        let x = all[k - 1].len();
        let r = (t - total_entities(all.take(k - 1))) as nat;
        if k < all.len() {
            lemma_between_total(all, k - 1, all.len() as int);
            assert(all.take(all.len() as int) =~= all);
        } else {
            assert(entities_between(all, k - 1, all.len() as int) == 0) by {
                lemma_between_zero(all, k - 1, all.len() as int);
            }
            assert(all.take(k) =~= all);
        }
        lemma_pairs_step(r, x);
    }
}

proof fn lemma_between_zero(all: Seq<Seq<EntityView>>, ra: int, k: int)
    requires
        k <= ra + 1,
    ensures
        entities_between(all, ra, k) == 0,
    decreases k,
{
    if k > 0 {
        lemma_between_zero(all, ra, k - 1);
    }
}

/// Contradictions bounded by pairs: no more contradictions are reported than
/// there are pairs of entities among all the responses' entities.
pub proof fn law_contradictions_at_most_entity_pairs(all: Seq<Seq<EntityView>>)
    ensures
        dedup_from(seq![], all_candidates(all, all.len() as int)).len() <= pairs_of(
            total_entities(all),
        ),
{
    law_contradictions_bounded(all);
    lemma_comparisons_below_pairs(all, all.len() as int);
    assert(all.take(all.len() as int) =~= all);
}

// ── Every pair of responses is compared ─────────────────────────────────

/// Some contradiction of `r` describes the conflict `t`.
pub open spec fn has_conflict_text(r: Seq<ConflictView>, t: Seq<char>) -> bool {
    exists|k: int| 0 <= k < r.len() && (#[trigger] r[k]).4 == t
}

proof fn lemma_row_contains(a: EntityView, bs: Seq<EntityView>, ra: usize, rb: usize, j: int)
    requires
        0 <= j < bs.len(),
        contradiction_between(a, bs[j], ra, rb) is Some,
    ensures
        row_candidates(a, bs, ra, rb).contains(contradiction_between(a, bs[j], ra, rb)->0),
    decreases bs.len(),
{
    let c = contradiction_between(a, bs[j], ra, rb)->0;
    let r = row_candidates(a, bs.drop_last(), ra, rb);
    if j == bs.len() - 1 {
        assert(row_candidates(a, bs, ra, rb)[r.len() as int] == c);
    } else {
        assert(bs.drop_last()[j] == bs[j]);
        lemma_row_contains(a, bs.drop_last(), ra, rb, j);
        let k = choose|k: int| 0 <= k < r.len() && r[k] == c;
        assert(row_candidates(a, bs, ra, rb)[k] == c);
    }
}

proof fn lemma_pair_contains(
    as_: Seq<EntityView>,
    bs: Seq<EntityView>,
    ra: usize,
    rb: usize,
    i: int,
    c: ConflictView,
)
    requires
        0 <= i < as_.len(),
        row_candidates(as_[i], bs, ra, rb).contains(c),
    ensures
        pair_candidates(as_, bs, ra, rb).contains(c),
    decreases as_.len(),
{
    let p = pair_candidates(as_.drop_last(), bs, ra, rb);
    if i == as_.len() - 1 {
        let r = row_candidates(as_.last(), bs, ra, rb);
        let k = choose|k: int| 0 <= k < r.len() && r[k] == c;
        assert(pair_candidates(as_, bs, ra, rb)[p.len() + k] == c);
    } else {
        assert(as_.drop_last()[i] == as_[i]);
        lemma_pair_contains(as_.drop_last(), bs, ra, rb, i, c);
        let k = choose|k: int| 0 <= k < p.len() && p[k] == c;
        assert(pair_candidates(as_, bs, ra, rb)[k] == c);
    }
}

proof fn lemma_response_contains(all: Seq<Seq<EntityView>>, ra: int, rb: int, k: int, c: ConflictView)
    requires
        0 <= ra < rb < k,
        pair_candidates(all[ra], all[rb], ra as usize, rb as usize).contains(c),
    ensures
        response_candidates(all, ra, k).contains(c),
    decreases k,
{
    let r = response_candidates(all, ra, k - 1);
    if rb == k - 1 {
        let p = pair_candidates(all[ra], all[rb], ra as usize, rb as usize);
        let j = choose|j: int| 0 <= j < p.len() && p[j] == c;
        assert(response_candidates(all, ra, k)[r.len() + j] == c);
    } else {
        lemma_response_contains(all, ra, rb, k - 1, c);
        let j = choose|j: int| 0 <= j < r.len() && r[j] == c;
        assert(response_candidates(all, ra, k)[j] == c);
    }
}

proof fn lemma_all_contains(all: Seq<Seq<EntityView>>, ra: int, k: int, c: ConflictView)
    requires
        0 <= ra < k,
        response_candidates(all, ra, all.len() as int).contains(c),
    ensures
        all_candidates(all, k).contains(c),
    decreases k,
{
    let a = all_candidates(all, k - 1);
    if ra == k - 1 {
        let r = response_candidates(all, ra, all.len() as int);
        let j = choose|j: int| 0 <= j < r.len() && r[j] == c;
        assert(all_candidates(all, k)[a.len() + j] == c);
    } else {
        lemma_all_contains(all, ra, k - 1, c);
        let j = choose|j: int| 0 <= j < a.len() && a[j] == c;
        assert(all_candidates(all, k)[j] == c);
    }
}

proof fn lemma_dedup_keeps_texts(d: Seq<ConflictView>, cs: Seq<ConflictView>, t: Seq<char>)
    requires
        has_conflict_text(d, t) || exists|j: int| 0 <= j < cs.len() && (#[trigger] cs[j]).4 == t,
    ensures
        has_conflict_text(dedup_from(d, cs), t),
    decreases cs.len(),
{
    if cs.len() > 0 {
        let dl = cs.drop_last();
        let r = dedup_from(d, dl);
        let x = cs.last();
        if has_conflict_text(d, t) || exists|j: int| 0 <= j < dl.len() && (#[trigger] dl[j]).4 == t {
            lemma_dedup_keeps_texts(d, dl, t);
            let k = choose|k: int| 0 <= k < r.len() && (#[trigger] r[k]).4 == t;
            if !(exists|i: int| 0 <= i < r.len() && (#[trigger] r[i]).4 == x.4) {
                assert(dedup_from(d, cs)[k] == r[k]);
            }
        } else {
            let j = choose|j: int| 0 <= j < cs.len() && (#[trigger] cs[j]).4 == t;
            if j < dl.len() {
                assert(dl[j] == cs[j]);
            }
            assert(j == cs.len() - 1);
            if !(exists|i: int| 0 <= i < r.len() && (#[trigger] r[i]).4 == x.4) {
                assert(dedup_from(d, cs)[r.len() as int] == x);
            }
        }
    } else {
        if exists|j: int| 0 <= j < cs.len() && (#[trigger] cs[j]).4 == t {
            assert(false);
        }
    }
}

/// Every pair of responses is compared: whenever an entity of response `ra`
/// and an entity of a later response `rb` (adjacent or not) have matching
/// subjects and conflicting values, the report holds a contradiction with
/// that conflict text (the first pair found for it).
pub proof fn law_every_pair_compared(all: Seq<Seq<EntityView>>, ra: int, rb: int, i: int, j: int)
    requires
        0 <= ra < rb < all.len(),
        all.len() <= usize::MAX,
        0 <= i < all[ra].len(),
        0 <= j < all[rb].len(),
        contradiction_between(all[ra][i], all[rb][j], ra as usize, rb as usize) is Some,
    ensures
        has_conflict_text(
            dedup_from(seq![], all_candidates(all, all.len() as int)),
            (contradiction_between(all[ra][i], all[rb][j], ra as usize, rb as usize)->0).4,
        ),
{
    let c = contradiction_between(all[ra][i], all[rb][j], ra as usize, rb as usize)->0;
    lemma_row_contains(all[ra][i], all[rb], ra as usize, rb as usize, j);
    lemma_pair_contains(all[ra], all[rb], ra as usize, rb as usize, i, c);
    lemma_response_contains(all, ra, rb, all.len() as int, c);
    lemma_all_contains(all, ra, all.len() as int, c);
    let cs = all_candidates(all, all.len() as int);
    let k = choose|k: int| 0 <= k < cs.len() && cs[k] == c;
    assert(cs[k].4 == c.4);
    lemma_dedup_keeps_texts(seq![], cs, c.4);
}

} // verus!
