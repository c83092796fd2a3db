//! Claim extraction: the sentences of a passage and their linguistic features.
use vstd::prelude::*;
use crate::format::SCALE;
use crate::patterns::{regex_compiles, regex_is_match, regex_matches};
use crate::text::{
    any_ascii_digit, chars_of, contains_str, ends_with, has_ascii_digit, eq_str, is_ascii_digit, ascii_digit, is_uppercase,
    seq_contains, seq_ends_with, split_whitespace, string_of, to_lowercase, trim, trim_chars,
    unicode_lowercase, unicode_uppercase, utf8_len, utf8_len_exceeds, views_of, words, string_views,
    strings_of, trim_end, trim_start, unicode_whitespace,
};

verus! {

/// An atomic claim extracted from text.
///
/// Text is decomposed into individual factual claims that can be
/// independently verified. Each claim carries metadata about its
/// verifiability and specificity.
#[derive(Debug, Clone)]
pub struct Claim {
    /// The text of the claim, as the passage has it
    pub text: String,
    /// Sentence index in the passage
    pub sentence_idx: usize,
    /// Whether the claim contains verifiable facts (names, dates, numbers)
    pub is_verifiable: bool,
    /// Specificity score, fixed-point (`SCALE` = 1.0): how specific/concrete the claim is
    pub specificity: u64,
    /// Whether the claim contains hedging language
    pub is_hedged: bool,
}

/// Years and month names, as whole words.
pub const DATE_PATTERN: &'static str =
    r"\b\d{4}\b|\b(?:January|February|March|April|May|June|July|August|September|October|November|December)\b";

// ── Sentences ───────────────────────────────────────────────────────────

pub open spec fn is_terminator(c: char) -> bool {
    c == '.' || c == '!' || c == '?'
}

/// Abbreviations after which a full stop does not end a sentence.
pub open spec fn ends_with_abbreviation(s: Seq<char>) -> bool {
    ||| seq_ends_with(s, "Dr."@)
    ||| seq_ends_with(s, "Mr."@)
    ||| seq_ends_with(s, "Mrs."@)
    ||| seq_ends_with(s, "vs."@)
    ||| seq_ends_with(s, "etc."@)
    ||| seq_ends_with(s, "e.g."@)
    ||| seq_ends_with(s, "i.e."@)
}

/// The `.` that ends `cur` stands between two digits (a decimal point, as
/// in `21,196.18`), `rest` being the text that follows.
pub open spec fn decimal_point(cur: Seq<char>, rest: Seq<char>) -> bool {
    &&& cur.len() >= 2
    &&& cur.last() == '.'
    &&& is_ascii_digit(cur[cur.len() - 2])
    &&& rest.len() > 0
    &&& is_ascii_digit(rest[0])
}

/// A sentence ends at `.`, `!` or `?` once it holds more than 10 bytes,
/// unless it ends with a known abbreviation or the `.` is a decimal point.
pub open spec fn closes_sentence(cur: Seq<char>, rest: Seq<char>) -> bool {
    &&& cur.len() > 0
    &&& is_terminator(cur.last())
    &&& utf8_len(cur) > 10
    &&& !ends_with_abbreviation(trim(cur))
    &&& !decimal_point(cur, rest)
}

/// The sentences of `text`, where `cur` is the sentence read so far.
pub open spec fn sentences_from(text: Seq<char>, cur: Seq<char>) -> Seq<Seq<char>>
    decreases text.len(),
{
    if text.len() == 0 {
        if trim(cur).len() > 0 {
            seq![trim(cur)]
        } else {
            seq![]
        }
    } else {
        let next = cur.push(text[0]);
        if closes_sentence(next, text.drop_first()) {
            seq![trim(next)] + sentences_from(text.drop_first(), seq![])
        } else {
            sentences_from(text.drop_first(), next)
        }
    }
}

/// The sentences of a text, each trimmed.
pub open spec fn sentences(text: Seq<char>) -> Seq<Seq<char>> {
    sentences_from(text, seq![])
}

fn is_abbreviation_end(s: &[char]) -> (b: bool)
    ensures
        b == ends_with_abbreviation(s@),
{
    ends_with(s, "Dr.") || ends_with(s, "Mr.") || ends_with(s, "Mrs.") || ends_with(s, "vs.")
        || ends_with(s, "etc.") || ends_with(s, "e.g.") || ends_with(s, "i.e.")
}

proof fn lemma_trim_empty(s: Seq<char>)
    requires
        s.len() == 0,
    ensures
        trim(s).len() == 0,
{
}

proof fn lemma_sentences_count(text: Seq<char>, cur: Seq<char>)
    ensures
        sentences_from(text, cur).len() <= text.len() + if cur.len() > 0 {
            1int
        } else {
            0int
        },
    decreases text.len(),
{
    if text.len() == 0 {
        if cur.len() == 0 {
            lemma_trim_empty(cur);
        }
    } else {
        let next = cur.push(text[0]);
        lemma_sentences_count(text.drop_first(), seq![]);
        lemma_sentences_count(text.drop_first(), next);
    }
}

fn sentences_of(text: &[char]) -> (r: Vec<Vec<char>>)
    ensures
        views_of(r@) == sentences(text@),
        r@.len() <= text@.len(),
{
    proof {
        lemma_sentences_count(text@, seq![]);
    }
    let mut r: Vec<Vec<char>> = Vec::new();
    let mut cur: Vec<char> = Vec::new();
    let mut i: usize = 0;
    assert(text@.skip(0) =~= text@);
    while i < text.len()
        invariant
            i <= text@.len(),
            views_of(r@) + sentences_from(text@.skip(i as int), cur@) == sentences(text@),
        decreases text@.len() - i,
    {
        let ghost before = views_of(r@);
        let ghost rest = text@.skip(i as int);
        assert(rest.drop_first() =~= text@.skip(i + 1));
        let c = text[i];
        cur.push(c);
        let n = cur.len();
        let decimal = c == '.' && n >= 2 && ascii_digit(cur[n - 2]) && i + 1 < text.len()
            && ascii_digit(text[i + 1]);
        let closes = if c == '.' || c == '!' || c == '?' {
            if utf8_len_exceeds(cur.as_slice(), 10) && !decimal {
                let t = trim_chars(cur.as_slice());
                !is_abbreviation_end(t.as_slice())
            } else {
                false
            }
        } else {
            false
        };
        assert(closes == closes_sentence(cur@, rest.drop_first()));
        if closes {
            let t = trim_chars(cur.as_slice());
            let ghost tv = t@;
            r.push(t);
            cur = Vec::new();
            assert(views_of(r@) =~= before + seq![tv]);
            assert(before + (seq![tv] + sentences_from(text@.skip(i + 1), seq![])) =~= (before
                + seq![tv]) + sentences_from(text@.skip(i + 1), seq![]));
            assert(cur@ =~= Seq::<char>::empty());
        }
        i += 1;
    }
    let ghost before = views_of(r@);
    assert(text@.skip(i as int) =~= Seq::<char>::empty());
    let t = trim_chars(cur.as_slice());
    if t.len() > 0 {
        let ghost tv = t@;
        r.push(t);
        assert(views_of(r@) =~= before + seq![tv]);
    } else {
        assert(before + Seq::<Seq<char>>::empty() =~= before);
    }
    r
}

/// Split text into sentences using basic heuristics: a sentence ends at
/// `.`, `!` or `?` once it holds more than 10 bytes, unless it ends with a
/// common abbreviation or the `.` is a decimal point between two digits;
/// sentences are trimmed and blank ones dropped.
pub fn split_sentences(text: &str) -> (r: Vec<String>)
    ensures
        string_views(r@) == sentences(text@),
{
    let t = chars_of(text);
    let ss = sentences_of(t.as_slice());
    strings_of(&ss)
}

// ── Word-level features ─────────────────────────────────────────────────

/// Words that commonly start a sentence and so say nothing about proper nouns.
pub open spec fn is_common_starter(w: Seq<char>) -> bool {
    ||| w == "The"@
    ||| w == "This"@
    ||| w == "That"@
    ||| w == "These"@
    ||| w == "Those"@
    ||| w == "It"@
    ||| w == "They"@
    ||| w == "He"@
    ||| w == "She"@
    ||| w == "We"@
    ||| w == "However"@
    ||| w == "Although"@
    ||| w == "Moreover"@
    ||| w == "Furthermore"@
    ||| w == "Additionally"@
    ||| w == "In"@
    ||| w == "On"@
    ||| w == "At"@
    ||| w == "For"@
    ||| w == "With"@
    ||| w == "But"@
    ||| w == "And"@
    ||| w == "Or"@
    ||| w == "As"@
    ||| w == "If"@
}

fn common_starter(word: &[char]) -> (b: bool)
    ensures
        b == is_common_starter(word@),
{
    eq_str(word, "The") || eq_str(word, "This") || eq_str(word, "That") || eq_str(word, "These")
        || eq_str(word, "Those") || eq_str(word, "It") || eq_str(word, "They") || eq_str(word, "He")
        || eq_str(word, "She") || eq_str(word, "We") || eq_str(word, "However") || eq_str(
        word,
        "Although",
    ) || eq_str(word, "Moreover") || eq_str(word, "Furthermore") || eq_str(word, "Additionally")
        || eq_str(word, "In") || eq_str(word, "On") || eq_str(word, "At") || eq_str(word, "For")
        || eq_str(word, "With") || eq_str(word, "But") || eq_str(word, "And") || eq_str(word, "Or")
        || eq_str(word, "As") || eq_str(word, "If")
}

/// Whether `word` is one of the common words that start sentences.
pub fn is_common_sentence_starter(word: &str) -> (b: bool)
    ensures
        b == is_common_starter(word@),
{
    let w = chars_of(word);
    common_starter(w.as_slice())
}

/// A capitalised word of more than one byte that is not a common starter.
pub open spec fn is_proper_noun_like(w: Seq<char>) -> bool {
    utf8_len(w) > 1 && w.len() > 0 && unicode_uppercase(w[0]) && !is_common_starter(w)
}

fn proper_noun_like(w: &[char]) -> (b: bool)
    ensures
        b == is_proper_noun_like(w@),
{
    utf8_len_exceeds(w, 1) && w.len() > 0 && is_uppercase(w[0]) && !common_starter(w)
}

/// Vague quantifiers (compared in lower case).
pub open spec fn is_vague_word(lw: Seq<char>) -> bool {
    ||| lw == "some"@
    ||| lw == "many"@
    ||| lw == "several"@
    ||| lw == "few"@
    ||| lw == "various"@
    ||| lw == "numerous"@
    ||| lw == "often"@
    ||| lw == "sometimes"@
    ||| lw == "generally"@
    ||| lw == "typically"@
    ||| lw == "usually"@
    ||| lw == "about"@
    ||| lw == "approximately"@
    ||| lw == "roughly"@
    ||| lw == "around"@
    ||| lw == "nearly"@
}

/// Definitive words (compared in lower case).
pub open spec fn is_definitive_word(lw: Seq<char>) -> bool {
    ||| lw == "exactly"@
    ||| lw == "precisely"@
    ||| lw == "specifically"@
    ||| lw == "always"@
    ||| lw == "never"@
    ||| lw == "every"@
}

fn vague_word(lw: &[char]) -> (b: bool)
    ensures
        b == is_vague_word(lw@),
{
    eq_str(lw, "some") || eq_str(lw, "many") || eq_str(lw, "several") || eq_str(lw, "few")
        || eq_str(lw, "various") || eq_str(lw, "numerous") || eq_str(lw, "often") || eq_str(
        lw,
        "sometimes",
    ) || eq_str(lw, "generally") || eq_str(lw, "typically") || eq_str(lw, "usually") || eq_str(
        lw,
        "about",
    ) || eq_str(lw, "approximately") || eq_str(lw, "roughly") || eq_str(lw, "around") || eq_str(
        lw,
        "nearly",
    )
}

fn definitive_word(lw: &[char]) -> (b: bool)
    ensures
        b == is_definitive_word(lw@),
{
    eq_str(lw, "exactly") || eq_str(lw, "precisely") || eq_str(lw, "specifically") || eq_str(
        lw,
        "always",
    ) || eq_str(lw, "never") || eq_str(lw, "every")
}

pub open spec fn proper_noun_pred() -> spec_fn(Seq<char>) -> bool {
    |w: Seq<char>| is_proper_noun_like(w)
}

pub open spec fn vague_pred() -> spec_fn(Seq<char>) -> bool {
    |w: Seq<char>| is_vague_word(unicode_lowercase(w))
}

pub open spec fn definitive_pred() -> spec_fn(Seq<char>) -> bool {
    |w: Seq<char>| is_definitive_word(unicode_lowercase(w))
}

/// The number of words of `ws` that satisfy `p`.
pub open spec fn count_words(ws: Seq<Seq<char>>, p: spec_fn(Seq<char>) -> bool) -> nat
    decreases ws.len(),
{
    if ws.len() == 0 {
        0
    } else {
        count_words(ws.drop_last(), p) + if p(ws.last()) {
            1nat
        } else {
            0nat
        }
    }
}

/// All words but the first.
pub open spec fn tail_words(ws: Seq<Seq<char>>) -> Seq<Seq<char>> {
    if ws.len() == 0 {
        ws
    } else {
        ws.drop_first()
    }
}

proof fn lemma_count_words_step(ws: Seq<Seq<char>>, i: int, p: spec_fn(Seq<char>) -> bool)
    requires
        0 <= i < ws.len(),
    ensures
        count_words(ws.take(i + 1), p) == count_words(ws.take(i), p) + if p(ws[i]) {
            1nat
        } else {
            0nat
        },
        count_words(ws.take(i), p) <= i,
    decreases i,
{
    assert(ws.take(i + 1).drop_last() =~= ws.take(i));
    if i > 0 {
        lemma_count_words_step(ws, i - 1, p);
    }
}

/// Counts the words of `ws[from..]` that look like proper nouns.
fn count_proper_nouns(ws: &Vec<Vec<char>>) -> (n: usize)
    ensures
        n == count_words(tail_words(views_of(ws@)), proper_noun_pred()),
{
    let ghost all = views_of(ws@);
    if ws.len() == 0 {
        return 0;
    }
    let ghost tl = tail_words(all);
    let mut n: usize = 0;
    let mut i: usize = 1;
    while i < ws.len()
        invariant
            1 <= i <= ws@.len(),
            all == views_of(ws@),
            tl == all.drop_first(),
            n == count_words(tl.take(i - 1), proper_noun_pred()),
            n <= i - 1,
        decreases ws@.len() - i,
    {
        proof {
            lemma_count_words_step(tl, i - 1, proper_noun_pred());
            assert(tl[i - 1] == ws@[i as int]@);
        }
        if proper_noun_like(ws[i].as_slice()) {
            n = n + 1;
        }
        i += 1;
    }
    assert(tl.take(ws@.len() - 1) =~= tl);
    n
}

/// Counts the words of `ws` whose lower-case form is vague (`definitive`
/// false) or definitive (`definitive` true).
fn count_marker_words(ws: &Vec<Vec<char>>, definitive: bool) -> (n: usize)
    ensures
        n == count_words(
            views_of(ws@),
            if definitive {
                definitive_pred()
            } else {
                vague_pred()
            },
        ),
{
    let ghost all = views_of(ws@);
    let ghost p = if definitive {
        definitive_pred()
    } else {
        vague_pred()
    };
    let mut n: usize = 0;
    let mut i: usize = 0;
    while i < ws.len()
        invariant
            i <= ws@.len(),
            all == views_of(ws@),
            p == (if definitive {
                definitive_pred()
            } else {
                vague_pred()
            }),
            n == count_words(all.take(i as int), p),
            n <= i,
        decreases ws@.len() - i,
    {
        proof {
            lemma_count_words_step(all, i as int, p);
            assert(all[i as int] == ws@[i as int]@);
        }
        let lw = to_lowercase(ws[i].as_slice());
        let hit = if definitive {
            definitive_word(lw.as_slice())
        } else {
            vague_word(lw.as_slice())
        };
        if hit {
            n = n + 1;
        }
        i += 1;
    }
    assert(all.take(ws@.len() as int) =~= all);
    n
}

// ── Verifiable content ──────────────────────────────────────────────────

/// Measurement and quantity words.
pub open spec fn mentions_quantity(t: Seq<char>) -> bool {
    ||| seq_contains(t, "%"@)
    ||| seq_contains(t, "million"@)
    ||| seq_contains(t, "billion"@)
    ||| seq_contains(t, "thousand"@)
    ||| seq_contains(t, "kilometers"@)
    ||| seq_contains(t, "miles"@)
    ||| seq_contains(t, "years"@)
}

/// Whether `DATE_PATTERN` compiles and matches `t`.
pub open spec fn mentions_date(t: Seq<char>) -> bool {
    regex_compiles(DATE_PATTERN@) && regex_matches(DATE_PATTERN@, t)
}

/// A text holds verifiable content when it has numbers, a proper noun after
/// the first word, a date, or a quantity.
pub open spec fn verifiable_content(t: Seq<char>) -> bool {
    ||| has_ascii_digit(t)
    ||| count_words(tail_words(words(t)), proper_noun_pred()) > 0
    ||| mentions_date(t)
    ||| mentions_quantity(t)
}

fn contains_verifiable_content(text: &[char]) -> (b: bool)
    ensures
        b == verifiable_content(text@),
{
    let has_numbers = any_ascii_digit(text);
    let ws = split_whitespace(text);
    let has_proper_nouns = count_proper_nouns(&ws) > 0;
    let st = string_of(text);
    let has_dates = match regex_is_match(DATE_PATTERN, st.as_str()) {
        Ok(b) => b,
        Err(_) => false,
    };
    let has_quantities = contains_str(text, "%") || contains_str(text, "million") || contains_str(
        text,
        "billion",
    ) || contains_str(text, "thousand") || contains_str(text, "kilometers") || contains_str(
        text,
        "miles",
    ) || contains_str(text, "years");
    has_numbers || has_proper_nouns || has_dates || has_quantities
}

// ── Specificity ─────────────────────────────────────────────────────────

/// The specificity of a text, fixed-point (0 = vague, `SCALE` = highly specific):
/// numbers add 0.3, proper nouns add 0.2 · min(count, 3) / 3, every vague
/// quantifier takes 0.15 away, definitive language adds 0.15 and a length of
/// 10 to 29 words adds 0.1; without any of the first four signals the
/// specificity is 0.3.  The result is clamped to [0, 1].
pub open spec fn specificity_value(t: Seq<char>) -> u64 {
    let ws = words(t);
    let digits = has_ascii_digit(t);
    let proper = count_words(tail_words(ws), proper_noun_pred());
    let vague = count_words(ws, vague_pred());
    let definitive = count_words(ws, definitive_pred());
    if !digits && proper == 0 && vague == 0 && definitive == 0 {
        900_000_000_000_000
    } else {
        let score: int = (if digits {
            900_000_000_000_000int
        } else {
            0int
        }) + (if proper > 3 {
            600_000_000_000_000int
        } else {
            200_000_000_000_000 * proper as int
        }) - 450_000_000_000_000 * vague + (if definitive > 0 {
            450_000_000_000_000int
        } else {
            0int
        }) + (if 10 <= ws.len() < 30 {
            300_000_000_000_000int
        } else {
            0int
        });
        if score < 0 {
            0
        } else if score > SCALE {
            SCALE
        } else {
            score as u64
        }
    }
}

fn specificity_of_chars(text: &[char]) -> (s: u64)
    ensures
        s == specificity_value(text@),
        s <= SCALE,
{
    let digits = any_ascii_digit(text);
    let ws = split_whitespace(text);
    let proper = count_proper_nouns(&ws);
    let vague = count_marker_words(&ws, false);
    let definitive = count_marker_words(&ws, true);
    if !digits && proper == 0 && vague == 0 && definitive == 0 {
        return 900_000_000_000_000;
    }
    let mut score: i128 = 0;
    if digits {
        score = score + 900_000_000_000_000;
    }
    if proper > 3 {
        score = score + 600_000_000_000_000;
    } else {
        score = score + 200_000_000_000_000 * (proper as i128);
    }
    score = score - 450_000_000_000_000 * (vague as i128);
    if definitive > 0 {
        score = score + 450_000_000_000_000;
    }
    if 10 <= ws.len() && ws.len() < 30 {
        score = score + 300_000_000_000_000;
    }
    if score < 0 {
        0
    } else if score > SCALE as i128 {
        SCALE
    } else {
        score as u64
    }
}

/// Compute specificity score (0 = vague, `SCALE` = highly specific).
pub fn compute_specificity(text: &str) -> (s: u64)
    ensures
        s == specificity_value(text@),
        s <= SCALE,
{
    let t = chars_of(text);
    specificity_of_chars(t.as_slice())
}

// ── Hedging ─────────────────────────────────────────────────────────────

/// Hedging phrases (in a lower-case text).
pub open spec fn has_hedge_phrase(l: Seq<char>) -> bool {
    ||| seq_contains(l, "might be"@)
    ||| seq_contains(l, "could be"@)
    ||| seq_contains(l, "may be"@)
    ||| seq_contains(l, "possibly"@)
    ||| seq_contains(l, "perhaps"@)
    ||| seq_contains(l, "likely"@)
    ||| seq_contains(l, "probably"@)
    ||| seq_contains(l, "it seems"@)
    ||| seq_contains(l, "it appears"@)
    ||| seq_contains(l, "reportedly"@)
    ||| seq_contains(l, "allegedly"@)
    ||| seq_contains(l, "it is believed"@)
    ||| seq_contains(l, "it is thought"@)
    ||| seq_contains(l, "some suggest"@)
    ||| seq_contains(l, "arguably"@)
    ||| seq_contains(l, "it is possible"@)
    ||| seq_contains(l, "there is evidence"@)
    ||| seq_contains(l, "to some extent"@)
    ||| seq_contains(l, "not entirely clear"@)
    ||| seq_contains(l, "remains uncertain"@)
    ||| seq_contains(l, "is debated"@)
    ||| seq_contains(l, "as far as we know"@)
    ||| seq_contains(l, "to the best of"@)
    ||| seq_contains(l, "i think"@)
    ||| seq_contains(l, "i believe"@)
}

/// A text is hedged when its lower-case form contains a hedging phrase.
pub open spec fn hedged(t: Seq<char>) -> bool {
    has_hedge_phrase(unicode_lowercase(t))
}

fn hedging_in(text: &[char]) -> (b: bool)
    ensures
        b == hedged(text@),
{
    let l = to_lowercase(text);
    let l = l.as_slice();
    contains_str(l, "might be") || contains_str(l, "could be") || contains_str(l, "may be")
        || contains_str(l, "possibly") || contains_str(l, "perhaps") || contains_str(l, "likely")
        || contains_str(l, "probably") || contains_str(l, "it seems") || contains_str(
        l,
        "it appears",
    ) || contains_str(l, "reportedly") || contains_str(l, "allegedly") || contains_str(
        l,
        "it is believed",
    ) || contains_str(l, "it is thought") || contains_str(l, "some suggest") || contains_str(
        l,
        "arguably",
    ) || contains_str(l, "it is possible") || contains_str(l, "there is evidence")
        || contains_str(l, "to some extent") || contains_str(l, "not entirely clear")
        || contains_str(l, "remains uncertain") || contains_str(l, "is debated") || contains_str(
        l,
        "as far as we know",
    ) || contains_str(l, "to the best of") || contains_str(l, "i think") || contains_str(
        l,
        "i believe",
    )
}

/// Check if text contains hedging language.
///
/// Hedging indicates uncertainty and is often (but not always) a sign
/// that the model is less confident, which correlates with lower
/// hallucination risk for that specific claim.
pub fn contains_hedging(text: &str) -> (b: bool)
    ensures
        b == hedged(text@),
{
    let t = chars_of(text);
    hedging_in(t.as_slice())
}

// ── Claims ──────────────────────────────────────────────────────────────

/// The positions of the sentences that are not blank once trimmed.
pub open spec fn kept_sentences(ss: Seq<Seq<char>>) -> Seq<int>
    decreases ss.len(),
{
    if ss.len() == 0 {
        seq![]
    } else {
        kept_sentences(ss.drop_last()) + if trim(ss.last()).len() > 0 {
            seq![ss.len() - 1]
        } else {
            seq![]
        }
    }
}

/// `c` is the claim made of sentence `s`, found at position `idx`.
pub open spec fn is_claim_of(c: Claim, s: Seq<char>, idx: int) -> bool {
    let t = trim(s);
    &&& c.text@ == t
    &&& c.sentence_idx == idx
    &&& c.is_verifiable == verifiable_content(t)
    &&& c.specificity == specificity_value(t)
    &&& c.is_hedged == hedged(t)
}

proof fn lemma_kept_step(ss: Seq<Seq<char>>, i: int)
    requires
        0 <= i < ss.len(),
    ensures
        kept_sentences(ss.take(i + 1)) == kept_sentences(ss.take(i)) + if trim(ss[i]).len() > 0 {
            seq![i]
        } else {
            seq![]
        },
        kept_sentences(ss.take(i)).len() <= i,
    decreases i,
{
    assert(ss.take(i + 1).drop_last() =~= ss.take(i));
    if i > 0 {
        lemma_kept_step(ss, i - 1);
    }
}

/// Extract atomic claims from a text passage.
///
/// Splits text into sentences, then analyzes each for factual content.
/// A claim is a sentence that makes an assertion about the world.
pub fn extract_claims(text: &str) -> (claims: Vec<Claim>)
    ensures
        claims@.len() == kept_sentences(sentences(text@)).len(),
        claims@.len() <= text@.len(),
        forall|j: int|
            0 <= j < claims@.len() ==> is_claim_of(
                #[trigger] claims@[j],
                sentences(text@)[kept_sentences(sentences(text@))[j]],
                kept_sentences(sentences(text@))[j],
            ),
{
    let t = chars_of(text);
    let ss = sentences_of(t.as_slice());
    let ghost sv = views_of(ss@);
    let mut claims: Vec<Claim> = Vec::new();
    let mut i: usize = 0;
    while i < ss.len()
        invariant
            i <= ss@.len(),
            sv == views_of(ss@),
            sv == sentences(text@),
            ss@.len() <= text@.len(),
            claims@.len() == kept_sentences(sv.take(i as int)).len(),
            forall|j: int|
                0 <= j < claims@.len() ==> is_claim_of(
                    #[trigger] claims@[j],
                    sv[kept_sentences(sv.take(i as int))[j]],
                    kept_sentences(sv.take(i as int))[j],
                ),
            forall|j: int|
                0 <= j < claims@.len() ==> 0 <= #[trigger] kept_sentences(sv.take(i as int))[j]
                    < i,
        decreases ss@.len() - i,
    {
        proof {
            lemma_kept_step(sv, i as int);
        }
        let ghost old_kept = kept_sentences(sv.take(i as int));
        let ghost new_kept = kept_sentences(sv.take(i + 1));
        let trimmed = trim_chars(ss[i].as_slice());
        assert(sv[i as int] == ss@[i as int]@);
        if trimmed.len() > 0 {
            let is_verifiable = contains_verifiable_content(trimmed.as_slice());
            let specificity = specificity_of_chars(trimmed.as_slice());
            let is_hedged = hedging_in(trimmed.as_slice());
            let claim = Claim {
                text: string_of(trimmed.as_slice()),
                sentence_idx: i,
                is_verifiable,
                specificity,
                is_hedged,
            };
            claims.push(claim);
            assert(new_kept =~= old_kept.push(i as int));
        } else {
            assert(new_kept =~= old_kept);
        }
        assert forall|j: int| 0 <= j < claims@.len() implies is_claim_of(
            #[trigger] claims@[j],
            sv[new_kept[j]],
            new_kept[j],
        ) && 0 <= new_kept[j] < i + 1 by {
            if j < old_kept.len() {
                assert(new_kept[j] == old_kept[j]);
            }
        }
        i += 1;
    }
    assert(sv.take(ss@.len() as int) =~= sv);
    proof {
        if ss@.len() > 0 {
            lemma_kept_step(sv, ss@.len() - 1);
        }
        assert(kept_sentences(sv).len() <= sv.len()) by {
            if sv.len() > 0 {
                lemma_kept_step(sv, sv.len() - 1);
                assert(sv.take(sv.len() as int) =~= sv);
            }
        }
    }
    claims
}

// ── Every sentence is a claim ───────────────────────────────────────────

/// `s` starts and ends with a character that is not white space.
pub open spec fn tight(s: Seq<char>) -> bool {
    s.len() > 0 && !unicode_whitespace(s[0]) && !unicode_whitespace(s.last())
}

proof fn lemma_trim_start_tail(s: Seq<char>)
    requires
        s.len() > 0,
        !unicode_whitespace(s.last()),
    ensures
        trim_start(s).len() > 0,
        !unicode_whitespace(trim_start(s)[0]),
        trim_start(s).last() == s.last(),
    decreases s.len(),
{
    if unicode_whitespace(s[0]) {
        assert(s.len() > 1);
        assert(s.drop_first().last() == s.last());
        lemma_trim_start_tail(s.drop_first());
    }
}

proof fn lemma_trim_end_head(s: Seq<char>)
    requires
        s.len() > 0,
        !unicode_whitespace(s[0]),
    ensures
        trim_end(s).len() > 0,
        trim_end(s)[0] == s[0],
        !unicode_whitespace(trim_end(s).last()),
    decreases s.len(),
{
    if unicode_whitespace(s.last()) {
        assert(s.len() > 1);
        assert(s.drop_last()[0] == s[0]);
        lemma_trim_end_head(s.drop_last());
    }
}

/// Trimming a text that ends with something other than white space leaves
/// a tight text, which trimming keeps as it is.
proof fn lemma_trim_tight(s: Seq<char>)
    requires
        s.len() > 0,
        !unicode_whitespace(s.last()),
    ensures
        tight(trim(s)),
        trim(trim(s)) == trim(s),
{
    lemma_trim_start_tail(s);
    lemma_trim_end_head(trim_start(s));
    lemma_trim_of_tight(trim(s));
}

proof fn lemma_trim_of_tight(e: Seq<char>)
    requires
        tight(e),
    ensures
        trim(e) == e,
{
}

proof fn lemma_trim_nonblank(s: Seq<char>)
    requires
        trim(s).len() > 0,
    ensures
        tight(trim(s)),
        trim(trim(s)) == trim(s),
{
    let t = trim_start(s);
    lemma_trim_start_nonblank(s);
    lemma_trim_end_head(t);
    lemma_trim_of_tight(trim(s));
}

proof fn lemma_trim_start_nonblank(s: Seq<char>)
    requires
        trim_end(trim_start(s)).len() > 0,
    ensures
        trim_start(s).len() > 0,
        !unicode_whitespace(trim_start(s)[0]),
    decreases s.len(),
{
    if s.len() > 0 && unicode_whitespace(s[0]) {
        lemma_trim_start_nonblank(s.drop_first());
    }
}

proof fn lemma_sentences_tight(text: Seq<char>, cur: Seq<char>)
    ensures
        forall|k: int|
            0 <= k < sentences_from(text, cur).len() ==> tight(#[trigger] sentences_from(text, cur)[k]),
    decreases text.len(),
{
    if text.len() == 0 {
        if trim(cur).len() > 0 {
            lemma_trim_nonblank(cur);
            assert(sentences_from(text, cur) == seq![trim(cur)]);
            assert(sentences_from(text, cur)[0] == trim(cur));
        } else {
            assert(sentences_from(text, cur).len() == 0);
        }
    } else {
        let next = cur.push(text[0]);
        lemma_sentences_tight(text.drop_first(), seq![]);
        lemma_sentences_tight(text.drop_first(), next);
        if closes_sentence(next, text.drop_first()) {
            assert(!unicode_whitespace(next.last()));
            lemma_trim_tight(next);
            let rest = sentences_from(text.drop_first(), seq![]);
            assert(sentences_from(text, cur) == seq![trim(next)] + rest);
            assert forall|k: int| 0 <= k < sentences_from(text, cur).len() implies tight(
                #[trigger] sentences_from(text, cur)[k],
            ) by {
                if k > 0 {
                    assert(sentences_from(text, cur)[k] == rest[k - 1]);
                } else {
                    assert(sentences_from(text, cur)[k] == trim(next));
                }
            }
        } else {
            assert(sentences_from(text, cur) == sentences_from(text.drop_first(), next));
        }
    }
}

proof fn lemma_kept_all(ss: Seq<Seq<char>>)
    requires
        forall|k: int| 0 <= k < ss.len() ==> tight(#[trigger] ss[k]),
    ensures
        kept_sentences(ss).len() == ss.len(),
        forall|j: int| 0 <= j < ss.len() ==> #[trigger] kept_sentences(ss)[j] == j,
    decreases ss.len(),
{
    if ss.len() > 0 {
        let d = ss.drop_last();
        assert forall|k: int| 0 <= k < d.len() implies tight(#[trigger] d[k]) by {
            assert(d[k] == ss[k]);
        }
        lemma_kept_all(d);
        assert(tight(ss[ss.len() - 1]));
        lemma_trim_of_tight(ss.last());
    }
}

/// Every sentence is a claim: the sentences of a text are non-empty and
/// trimmed, so the claims that `extract_claims` finds are the sentences
/// themselves, in order, each at its own index.
pub proof fn law_claims_are_sentences(text: Seq<char>)
    ensures
        forall|k: int|
            0 <= k < sentences(text).len() ==> (#[trigger] sentences(text)[k]).len() > 0 && trim(
                sentences(text)[k],
            ) == sentences(text)[k],
        kept_sentences(sentences(text)).len() == sentences(text).len(),
        forall|j: int|
            0 <= j < sentences(text).len() ==> #[trigger] kept_sentences(sentences(text))[j] == j,
{
    lemma_sentences_tight(text, seq![]);
    assert forall|k: int| 0 <= k < sentences(text).len() implies (#[trigger] sentences(
        text,
    )[k]).len() > 0 && trim(sentences(text)[k]) == sentences(text)[k] by {
        lemma_trim_of_tight(sentences(text)[k]);
    }
    lemma_kept_all(sentences(text));
}

// ── No character is lost ────────────────────────────────────────────────

/// The characters of `s` that are not white space, in order.
pub open spec fn non_white(s: Seq<char>) -> Seq<char>
    decreases s.len(),
{
    if s.len() == 0 {
        seq![]
    } else {
        non_white(s.drop_last()) + if unicode_whitespace(s.last()) {
            seq![]
        } else {
            seq![s.last()]
        }
    }
}

/// The sequences of `ss` written one after another.
pub open spec fn concat_all(ss: Seq<Seq<char>>) -> Seq<char>
    decreases ss.len(),
{
    if ss.len() == 0 {
        seq![]
    } else {
        concat_all(ss.drop_last()) + ss.last()
    }
}

proof fn lemma_non_white_add(a: Seq<char>, b: Seq<char>)
    ensures
        non_white(a + b) == non_white(a) + non_white(b),
    decreases b.len(),
{
    if b.len() == 0 {
        assert(a + b =~= a);
        assert(non_white(a) + non_white(b) =~= non_white(a));
    } else {
        lemma_non_white_add(a, b.drop_last());
        assert((a + b).drop_last() =~= a + b.drop_last());
        assert((a + b).last() == b.last());
        let t = if unicode_whitespace(b.last()) {
            Seq::<char>::empty()
        } else {
            seq![b.last()]
        };
        assert(non_white(a) + non_white(b.drop_last()) + t =~= non_white(a) + (non_white(
            b.drop_last(),
        ) + t));
    }
}

proof fn lemma_non_white_trim(s: Seq<char>)
    ensures
        non_white(trim_start(s)) == non_white(s),
        non_white(trim_end(s)) == non_white(s),
        non_white(trim(s)) == non_white(s),
    decreases s.len(),
{
    if s.len() > 0 {
        lemma_non_white_trim(s.drop_first());
        lemma_non_white_trim(s.drop_last());
        if unicode_whitespace(s[0]) {
            let one = seq![s[0]];
            assert(s =~= one + s.drop_first());
            lemma_non_white_add(one, s.drop_first());
            assert(one.drop_last() =~= Seq::<char>::empty());
            assert(non_white(one.drop_last()) =~= Seq::<char>::empty());
            assert(one.last() == s[0]);
            assert(non_white(one) =~= Seq::<char>::empty());
            assert(non_white(seq![s[0]]) + non_white(s.drop_first()) =~= non_white(s.drop_first()));
        }
    }
    lemma_non_white_trim_end(trim_start(s));
}

proof fn lemma_non_white_trim_end(s: Seq<char>)
    ensures
        non_white(trim_end(s)) == non_white(s),
    decreases s.len(),
{
    if s.len() > 0 && unicode_whitespace(s.last()) {
        lemma_non_white_trim_end(s.drop_last());
        assert(non_white(s.drop_last()) + Seq::<char>::empty() =~= non_white(s.drop_last()));
    }
}

proof fn lemma_concat_prepend(x: Seq<char>, ss: Seq<Seq<char>>)
    ensures
        concat_all(seq![x] + ss) == x + concat_all(ss),
    decreases ss.len(),
{
    if ss.len() == 0 {
        let one = seq![x];
        assert(one + ss =~= one);
        assert(one.drop_last() =~= Seq::<Seq<char>>::empty());
        assert(concat_all(one.drop_last()) =~= Seq::<char>::empty());
        assert(one.last() == x);
        assert(concat_all(one) =~= Seq::<char>::empty() + x);
        assert(Seq::<char>::empty() + x =~= x);
        assert(concat_all(ss) =~= Seq::<char>::empty());
        assert(x + concat_all(ss) =~= x);
    } else {
        lemma_concat_prepend(x, ss.drop_last());
        assert((seq![x] + ss).drop_last() =~= seq![x] + ss.drop_last());
        assert((seq![x] + ss).last() == ss.last());
        assert(x + concat_all(ss.drop_last()) + ss.last() =~= x + (concat_all(ss.drop_last())
            + ss.last()));
    }
}

proof fn lemma_sentences_keep_characters(text: Seq<char>, cur: Seq<char>)
    ensures
        non_white(concat_all(sentences_from(text, cur))) == non_white(cur + text),
    decreases text.len(),
{
    if text.len() == 0 {
        assert(cur + text =~= cur);
        lemma_non_white_trim(cur);
        if trim(cur).len() > 0 {
            assert(sentences_from(text, cur) == seq![trim(cur)]);
            lemma_concat_prepend(trim(cur), Seq::<Seq<char>>::empty());
            assert(seq![trim(cur)] + Seq::<Seq<char>>::empty() =~= seq![trim(cur)]);
            assert(concat_all(Seq::<Seq<char>>::empty()) =~= Seq::<char>::empty());
            assert(trim(cur) + Seq::<char>::empty() =~= trim(cur));
        } else {
            assert(sentences_from(text, cur) == Seq::<Seq<char>>::empty());
            assert(concat_all(Seq::<Seq<char>>::empty()) =~= Seq::<char>::empty());
            assert(trim(cur) =~= Seq::<char>::empty());
            assert(non_white(Seq::<char>::empty()) =~= Seq::<char>::empty());
        }
    } else {
        let next = cur.push(text[0]);
        assert(next + text.drop_first() =~= cur + text);
        if closes_sentence(next, text.drop_first()) {
            let rest = sentences_from(text.drop_first(), seq![]);
            lemma_sentences_keep_characters(text.drop_first(), seq![]);
            assert(Seq::<char>::empty() + text.drop_first() =~= text.drop_first());
            lemma_concat_prepend(trim(next), rest);
            lemma_non_white_add(trim(next), concat_all(rest));
            lemma_non_white_trim(next);
            lemma_non_white_add(next, text.drop_first());
        } else {
            lemma_sentences_keep_characters(text.drop_first(), next);
        }
    }
}

/// No character is lost: the sentences of a text, written one after
/// another, hold exactly the text's characters other than white space, in
/// the same order.
pub proof fn law_sentences_keep_characters(text: Seq<char>)
    ensures
        non_white(concat_all(sentences(text))) == non_white(text),
{
    lemma_sentences_keep_characters(text, seq![]);
    assert(Seq::<char>::empty() + text =~= text);
}

// ── The hedging vocabulary ──────────────────────────────────────────────

/// The phrases that mark hedging, as the documentation of the analysis
/// lists them.
pub open spec fn hedge_vocabulary() -> Seq<Seq<char>> {
    seq![
        "might be"@,
        "could be"@,
        "may be"@,
        "possibly"@,
        "perhaps"@,
        "likely"@,
        "probably"@,
        "it seems"@,
        "it appears"@,
        "reportedly"@,
        "allegedly"@,
        "it is believed"@,
        "it is thought"@,
        "some suggest"@,
        "arguably"@,
        "it is possible"@,
        "there is evidence"@,
        "to some extent"@,
        "not entirely clear"@,
        "remains uncertain"@,
        "is debated"@,
        "as far as we know"@,
        "to the best of"@,
        "i think"@,
        "i believe"@,
    ]
}

/// Hedging is exactly the vocabulary: a text is hedged exactly when its
/// lower-case form contains one of the listed phrases.
pub proof fn law_hedging_vocabulary(t: Seq<char>)
    ensures
        forall|i: int|
            0 <= i < hedge_vocabulary().len() && seq_contains(
                unicode_lowercase(t),
                #[trigger] hedge_vocabulary()[i],
            ) ==> hedged(t),
        hedged(t) ==> exists|i: int|
            0 <= i < hedge_vocabulary().len() && seq_contains(
                unicode_lowercase(t),
                #[trigger] hedge_vocabulary()[i],
            ),
{
    let l = unicode_lowercase(t);
    let v = hedge_vocabulary();
    assert(v.len() == 25);
    assert(v[0] == "might be"@);
    assert(v[1] == "could be"@);
    assert(v[2] == "may be"@);
    assert(v[3] == "possibly"@);
    assert(v[4] == "perhaps"@);
    assert(v[5] == "likely"@);
    assert(v[6] == "probably"@);
    assert(v[7] == "it seems"@);
    assert(v[8] == "it appears"@);
    assert(v[9] == "reportedly"@);
    assert(v[10] == "allegedly"@);
    assert(v[11] == "it is believed"@);
    assert(v[12] == "it is thought"@);
    assert(v[13] == "some suggest"@);
    assert(v[14] == "arguably"@);
    assert(v[15] == "it is possible"@);
    assert(v[16] == "there is evidence"@);
    assert(v[17] == "to some extent"@);
    assert(v[18] == "not entirely clear"@);
    assert(v[19] == "remains uncertain"@);
    assert(v[20] == "is debated"@);
    assert(v[21] == "as far as we know"@);
    assert(v[22] == "to the best of"@);
    assert(v[23] == "i think"@);
    assert(v[24] == "i believe"@);
    if hedged(t) {
        if seq_contains(l, "might be"@) {
            assert(seq_contains(l, v[0]));
        }
        if seq_contains(l, "could be"@) {
            assert(seq_contains(l, v[1]));
        }
        if seq_contains(l, "may be"@) {
            assert(seq_contains(l, v[2]));
        }
        if seq_contains(l, "possibly"@) {
            assert(seq_contains(l, v[3]));
        }
        if seq_contains(l, "perhaps"@) {
            assert(seq_contains(l, v[4]));
        }
        if seq_contains(l, "likely"@) {
            assert(seq_contains(l, v[5]));
        }
        if seq_contains(l, "probably"@) {
            assert(seq_contains(l, v[6]));
        }
        if seq_contains(l, "it seems"@) {
            assert(seq_contains(l, v[7]));
        }
        if seq_contains(l, "it appears"@) {
            assert(seq_contains(l, v[8]));
        }
        if seq_contains(l, "reportedly"@) {
            assert(seq_contains(l, v[9]));
        }
        if seq_contains(l, "allegedly"@) {
            assert(seq_contains(l, v[10]));
        }
        if seq_contains(l, "it is believed"@) {
            assert(seq_contains(l, v[11]));
        }
        if seq_contains(l, "it is thought"@) {
            assert(seq_contains(l, v[12]));
        }
        if seq_contains(l, "some suggest"@) {
            assert(seq_contains(l, v[13]));
        }
        if seq_contains(l, "arguably"@) {
            assert(seq_contains(l, v[14]));
        }
        if seq_contains(l, "it is possible"@) {
            assert(seq_contains(l, v[15]));
        }
        if seq_contains(l, "there is evidence"@) {
            assert(seq_contains(l, v[16]));
        }
        if seq_contains(l, "to some extent"@) {
            assert(seq_contains(l, v[17]));
        }
        if seq_contains(l, "not entirely clear"@) {
            assert(seq_contains(l, v[18]));
        }
        if seq_contains(l, "remains uncertain"@) {
            assert(seq_contains(l, v[19]));
        }
        if seq_contains(l, "is debated"@) {
            assert(seq_contains(l, v[20]));
        }
        if seq_contains(l, "as far as we know"@) {
            assert(seq_contains(l, v[21]));
        }
        if seq_contains(l, "to the best of"@) {
            assert(seq_contains(l, v[22]));
        }
        if seq_contains(l, "i think"@) {
            assert(seq_contains(l, v[23]));
        }
        if seq_contains(l, "i believe"@) {
            assert(seq_contains(l, v[24]));
        }
    }
}

// ── Abbreviations do not end sentences ──────────────────────────────────

/// The abbreviations whose full stop does not end a sentence.
pub open spec fn known_abbreviations() -> Seq<Seq<char>> {
    seq!["Dr."@, "Mr."@, "Mrs."@, "vs."@, "etc."@, "e.g."@, "i.e."@]
}

proof fn lemma_closed_sentences(text: Seq<char>, cur: Seq<char>)
    ensures
        forall|k: int|
            0 <= k < sentences_from(text, cur).len() - 1 ==> !ends_with_abbreviation(
                #[trigger] sentences_from(text, cur)[k],
            ),
    decreases text.len(),
{
    if text.len() > 0 {
        let next = cur.push(text[0]);
        if closes_sentence(next, text.drop_first()) {
            lemma_closed_sentences(text.drop_first(), seq![]);
            let rest = sentences_from(text.drop_first(), seq![]);
            assert(sentences_from(text, cur) == seq![trim(next)] + rest);
            assert forall|k: int| 0 <= k < sentences_from(text, cur).len() - 1 implies !ends_with_abbreviation(
                #[trigger] sentences_from(text, cur)[k],
            ) by {
                if k > 0 {
                    assert(sentences_from(text, cur)[k] == rest[k - 1]);
                } else {
                    assert(sentences_from(text, cur)[k] == trim(next));
                }
            }
        } else {
            lemma_closed_sentences(text.drop_first(), next);
            assert(sentences_from(text, cur) == sentences_from(text.drop_first(), next));
        }
    } else {
        if trim(cur).len() > 0 {
            assert(sentences_from(text, cur) == seq![trim(cur)]);
        } else {
            assert(sentences_from(text, cur).len() == 0);
        }
    }
}

/// Abbreviations do not end sentences: every sentence but the last one of
/// a text (which the end of the text closes) does not end with `Dr.`,
/// `Mr.`, `Mrs.`, `vs.`, `etc.`, `e.g.` or `i.e.`.
pub proof fn law_abbreviations_do_not_end_sentences(text: Seq<char>)
    ensures
        forall|k: int, a: int|
            0 <= k < sentences(text).len() - 1 && 0 <= a < known_abbreviations().len()
                ==> !seq_ends_with(#[trigger] sentences(text)[k], #[trigger] known_abbreviations()[a]),
{
    lemma_closed_sentences(text, seq![]);
    let v = known_abbreviations();
    assert(v.len() == 7);
    assert(v[0] == "Dr."@);
    assert(v[1] == "Mr."@);
    assert(v[2] == "Mrs."@);
    assert(v[3] == "vs."@);
    assert(v[4] == "etc."@);
    assert(v[5] == "e.g."@);
    assert(v[6] == "i.e."@);
    assert forall|k: int, a: int|
        0 <= k < sentences(text).len() - 1 && 0 <= a < known_abbreviations().len() implies !seq_ends_with(
        #[trigger] sentences(text)[k],
        #[trigger] known_abbreviations()[a],
    ) by {
        assert(!ends_with_abbreviation(sentences(text)[k]));
    }
}

} // verus!
