//! What a report shows of its numbers and claims: percentages, fixed-point
//! fractions, score bars and shortened claim texts.
use vstd::prelude::*;
use crate::format::{append_ratio, percent_text, ratio_text, SCALE};
use crate::patterns::option_view;
use crate::text::{chars_of, char_utf8_len, extend_chars, string_of, utf8_len, utf8_len_exceeds};

verus! {

/// The number of cells of a score bar.
pub const BAR_WIDTH: u64 = 30;

/// The filled cells of the bar of a score in `[0, 1]`: `⌊score · 30⌋`.
pub fn bar_length(score: u64) -> (n: usize)
    requires
        score <= SCALE,
    ensures
        n == score * BAR_WIDTH / (SCALE as int),
        n <= BAR_WIDTH,
{
    assert(score * 30 / 3_000_000_000_000_000 <= 30) by (nonlinear_arith)
        requires
            score <= 3_000_000_000_000_000,
    ;
    (score * BAR_WIDTH / SCALE) as usize
}

/// A fraction in `[0, 1]` as a whole percentage with its sign: `{:.0}%` of
/// `v · 100`.
pub fn percent_label(v: u64) -> (s: String)
    requires
        v <= SCALE,
    ensures
        s@ == percent_text(v as nat) + "%"@,
{
    let mut s = String::new();
    append_ratio(&mut s, v as u128 * 100, SCALE as u128, 0);
    s.append("%");
    s
}

/// A fixed-point value with two decimals (`{:.2}`).
pub fn fraction_label(v: u64) -> (s: String)
    ensures
        s@ == ratio_text(v as nat, SCALE as nat, 2),
{
    let mut s = String::new();
    append_ratio(&mut s, v as u128, SCALE as u128, 2);
    s
}

/// A signed fixed-point value written with a sign and two decimals
/// (`{:+.2}`).
pub open spec fn signed_text(m: int) -> Seq<char> {
    if m < 0 {
        "-"@ + ratio_text((-m) as nat, SCALE as nat, 2)
    } else {
        "+"@ + ratio_text(m as nat, SCALE as nat, 2)
    }
}

/// A signed fixed-point value written with a sign and two decimals.
pub fn signed_label(m: i64) -> (s: String)
    requires
        m > i64::MIN,
    ensures
        s@ == signed_text(m as int),
{
    let mut s = String::new();
    if m < 0 {
        s.append("-");
        append_ratio(&mut s, (-m) as u128, SCALE as u128, 2);
    } else {
        s.append("+");
        append_ratio(&mut s, m as u128, SCALE as u128, 2);
    }
    s
}

// ── Shortened claims ────────────────────────────────────────────────────

/// The longest claim shown whole, in bytes.
pub const PREVIEW_LIMIT: u64 = 70;

/// The bytes kept of a longer claim.
pub const PREVIEW_KEEP: u64 = 67;

/// Some prefix of `t` takes exactly `bytes` bytes.
pub open spec fn has_cut(t: Seq<char>, bytes: nat) -> bool {
    exists|k: int| 0 <= k <= t.len() && utf8_len(#[trigger] t.take(k)) == bytes
}

/// A claim as a listing shows it: whole up to 70 bytes, else its first 67
/// bytes and `...`; nothing when byte 67 falls inside a character.
pub open spec fn preview_of(t: Seq<char>) -> Option<Seq<char>> {
    if utf8_len(t) <= PREVIEW_LIMIT {
        Some(t)
    } else if has_cut(t, PREVIEW_KEEP as nat) {
        let k = choose|k: int| 0 <= k <= t.len() && utf8_len(#[trigger] t.take(k)) == PREVIEW_KEEP;
        Some(t.take(k) + "..."@)
    } else {
        None
    }
}

proof fn lemma_utf8_step(s: Seq<char>, i: int)
    requires
        0 <= i < s.len(),
    ensures
        utf8_len(s.take(i + 1)) == utf8_len(s.take(i)) + char_utf8_len(s[i]),
        char_utf8_len(s[i]) >= 1,
{
    assert(s.take(i + 1).drop_last() =~= s.take(i));
}

/// Longer prefixes take strictly more bytes.
proof fn lemma_utf8_strict(s: Seq<char>, i: int, j: int)
    requires
        0 <= i < j <= s.len(),
    ensures
        utf8_len(s.take(i)) < utf8_len(s.take(j)),
    decreases j - i,
{
    lemma_utf8_step(s, j - 1);
    if i < j - 1 {
        lemma_utf8_strict(s, i, j - 1);
    }
}

fn char_bytes(c: char) -> (w: usize)
    ensures
        w == char_utf8_len(c),
{
    if (c as u32) < 0x80 {
        1
    } else if (c as u32) < 0x800 {
        2
    } else if (c as u32) < 0x10000 {
        3
    } else {
        4
    }
}

/// The text a listing shows of a claim (see `preview_of`).
pub fn claim_preview(text: &str) -> (r: Option<String>)
    ensures
        option_view(r) == preview_of(text@),
{
    let t = chars_of(text);
    if !utf8_len_exceeds(t.as_slice(), 70) {
        return Some(string_of(t.as_slice()));
    }
    let mut total: usize = 0;
    let mut i: usize = 0;
    while i < t.len() && total < 67
        invariant
            i <= t@.len(),
            total == utf8_len(t@.take(i as int)),
            i > 0 ==> utf8_len(t@.take(i - 1)) < 67,
            utf8_len(t@) > 70,
        decreases t@.len() - i,
    {
        proof {
            lemma_utf8_step(t@, i as int);
        }
        total = total + char_bytes(t[i]);
        i += 1;
    }
    if i == t.len() {
        assert(t@.take(i as int) =~= t@);
    }
    if total == 67 {
        proof {
            assert forall|k: int| 0 <= k <= t@.len() && utf8_len(#[trigger] t@.take(k)) == 67 implies k
                == i by {
                if k < i {
                    lemma_utf8_strict(t@, k, i as int);
                } else if k > i {
                    lemma_utf8_strict(t@, i as int, k);
                }
            }
            assert(has_cut(t@, 67));
        }
        let mut r: Vec<char> = Vec::new();
        let mut k: usize = 0;
        while k < i
            invariant
                k <= i <= t@.len(),
                r@ == t@.take(k as int),
            decreases i - k,
        {
            r.push(t[k]);
            assert(t@.take(k + 1) =~= t@.take(k as int).push(t@[k as int]));
            k += 1;
        }
        let dots = chars_of("...");
        extend_chars(&mut r, dots.as_slice());
        Some(string_of(r.as_slice()))
    } else {
        proof {
            assert(i > 0);
            assert forall|k: int| 0 <= k <= t@.len() implies utf8_len(#[trigger] t@.take(k)) != 67 by {
                if k < i - 1 {
                    lemma_utf8_strict(t@, k, i - 1);
                } else if k > i {
                    lemma_utf8_strict(t@, i as int, k);
                }
            }
        }
        None
    }
}

} // verus!
