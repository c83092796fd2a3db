//! Character-level text utilities shared by the analysers.
//!
//! Text is handled as a sequence of Unicode scalar values (`Seq<char>` in
//! specifications, `Vec<char>` at run time).  The few classifications that
//! depend on Unicode tables (white space, letter case, lower-casing) are taken
//! from the standard library behind the trusted functions of this module.
use vstd::prelude::*;

verus! {

// ── Unicode classifications taken from the standard library ─────────────

/// Whether `c` has the Unicode `White_Space` property, which
/// `char::is_whitespace` tests: the control characters U+0009 to U+000D,
/// the space, U+0085, the no-break space U+00A0, U+1680, the spaces U+2000 to
/// U+200A, the line and paragraph separators U+2028 and U+2029, U+202F,
/// U+205F and the ideographic space U+3000.
pub open spec fn unicode_whitespace(c: char) -> bool {
    ||| '\u{9}' <= c <= '\u{d}'
    ||| c == ' '
    ||| c == '\u{85}'
    ||| c == '\u{a0}'
    ||| c == '\u{1680}'
    ||| '\u{2000}' <= c <= '\u{200a}'
    ||| c == '\u{2028}'
    ||| c == '\u{2029}'
    ||| c == '\u{202f}'
    ||| c == '\u{205f}'
    ||| c == '\u{3000}'
}

/// An ASCII character.
pub open spec fn is_ascii_char(c: char) -> bool {
    (c as u32) < 128
}

/// The ASCII lower-case form of `c` (other characters are kept).
pub open spec fn ascii_lower(c: char) -> char {
    if 'A' <= c <= 'Z' {
        ((c as u32) + 32) as char
    } else {
        c
    }
}

/// Whether `c` has the Unicode `Uppercase` property (`char::is_uppercase`).
pub uninterp spec fn unicode_uppercase(c: char) -> bool;

/// Whether `c` has the Unicode `Lowercase` property (`char::is_lowercase`).
pub uninterp spec fn unicode_lowercase_char(c: char) -> bool;

/// The lower-case form of a whole string (`str::to_lowercase`).
pub uninterp spec fn unicode_lowercase(s: Seq<char>) -> Seq<char>;

/// Whether `c` has the Unicode `White_Space` property (what
/// `char::is_whitespace` answers).
pub fn is_whitespace(c: char) -> (b: bool)
    ensures
        b == unicode_whitespace(c),
{
    ('\u{9}' <= c && c <= '\u{d}') || c == ' ' || c == '\u{85}' || c == '\u{a0}' || c == '\u{1680}'
        || ('\u{2000}' <= c && c <= '\u{200a}') || c == '\u{2028}' || c == '\u{2029}' || c
        == '\u{202f}' || c == '\u{205f}' || c == '\u{3000}'
}

/// Calls `char::is_uppercase`; the result is named `unicode_uppercase(c)`.
/// Among ASCII characters exactly `A` to `Z` are upper-case; of the other
/// characters nothing is stated.
#[verifier::external_body]
pub(crate) fn is_uppercase(c: char) -> (b: bool)
    ensures
        b == unicode_uppercase(c),
        is_ascii_char(c) ==> (b <==> 'A' <= c <= 'Z'),
{
    c.is_uppercase()
}

/// Calls `char::is_lowercase`; the result is named
/// `unicode_lowercase_char(c)`.  Among ASCII characters exactly `a` to `z`
/// are lower-case; of the other characters nothing is stated.
#[verifier::external_body]
pub(crate) fn is_lowercase(c: char) -> (b: bool)
    ensures
        b == unicode_lowercase_char(c),
        is_ascii_char(c) ==> (b <==> 'a' <= c <= 'z'),
{
    c.is_lowercase()
}

/// Calls `str::to_lowercase` on the string made of `s`; the result is named
/// `unicode_lowercase(s)`.  An ASCII string is lower-cased character by
/// character (`A` to `Z` become `a` to `z`); of other strings nothing is
/// stated.
#[verifier::external_body]
pub(crate) fn to_lowercase(s: &[char]) -> (r: Vec<char>)
    ensures
        r@ == unicode_lowercase(s@),
        (forall|i: int| 0 <= i < s@.len() ==> is_ascii_char(#[trigger] s@[i])) ==> r@ == s@.map_values(
            |c: char| ascii_lower(c),
        ),
{
    let joined: String = s.iter().collect();
    joined.to_lowercase().chars().collect()
}

/// Calls `String::push`, which appends one character.
#[verifier::external_body]
pub(crate) fn push_char(s: &mut String, c: char)
    ensures
        final(s)@ == old(s)@.push(c),
{
    s.push(c)
}

// ── ASCII classifications ───────────────────────────────────────────────

/// `'0'..='9'`.
pub open spec fn is_ascii_digit(c: char) -> bool {
    '0' <= c <= '9'
}

/// ASCII punctuation, as `char::is_ascii_punctuation` defines it.
pub open spec fn is_ascii_punctuation(c: char) -> bool {
    ||| '!' <= c <= '/'
    ||| ':' <= c <= '@'
    ||| '[' <= c <= '`'
    ||| '{' <= c <= '~'
}

pub fn ascii_digit(c: char) -> (b: bool)
    ensures
        b == is_ascii_digit(c),
{
    '0' <= c && c <= '9'
}

pub fn ascii_punctuation(c: char) -> (b: bool)
    ensures
        b == is_ascii_punctuation(c),
{
    ('!' <= c && c <= '/') || (':' <= c && c <= '@') || ('[' <= c && c <= '`') || ('{' <= c
        && c <= '~')
}

/// Some character is an ASCII digit.
pub open spec fn has_ascii_digit(t: Seq<char>) -> bool {
    exists|i: int| 0 <= i < t.len() && is_ascii_digit(#[trigger] t[i])
}

/// Whether some character is an ASCII digit.
pub fn any_ascii_digit(t: &[char]) -> (b: bool)
    ensures
        b == has_ascii_digit(t@),
{
    let mut i: usize = 0;
    while i < t.len()
        invariant
            i <= t@.len(),
            forall|j: int| 0 <= j < i ==> !is_ascii_digit(#[trigger] t@[j]),
        decreases t@.len() - i,
    {
        if ascii_digit(t[i]) {
            return true;
        }
        i += 1;
    }
    false
}

// ── Conversions ─────────────────────────────────────────────────────────

/// The characters of `s`, in order.
pub fn chars_of(s: &str) -> (v: Vec<char>)
    ensures
        v@ == s@,
{
    let mut v: Vec<char> = Vec::new();
    for c in it: s.chars()
        invariant
            v@ == it.seq().take(it.index() as int),
    {
        v.push(c);
    }
    v
}

/// A `String` holding the characters of `v`.
pub fn string_of(v: &[char]) -> (s: String)
    ensures
        s@ == v@,
{
    let mut s = String::new();
    let mut i: usize = 0;
    while i < v.len()
        invariant
            i <= v@.len(),
            s@ == v@.take(i as int),
        decreases v@.len() - i,
    {
        push_char(&mut s, v[i]);
        assert(v@.take(i as int).push(v@[i as int]) =~= v@.take(i + 1));
        i += 1;
    }
    assert(v@.take(v@.len() as int) =~= v@);
    s
}

/// The character sequences of some strings.
pub open spec fn string_views(v: Seq<String>) -> Seq<Seq<char>> {
    v.map_values(|s: String| s@)
}

/// Strings holding the character sequences of `v`, in order.
pub fn strings_of(v: &Vec<Vec<char>>) -> (r: Vec<String>)
    ensures
        string_views(r@) == views_of(v@),
{
    let mut r: Vec<String> = Vec::new();
    let mut m: usize = 0;
    while m < v.len()
        invariant
            m <= v@.len(),
            string_views(r@) == views_of(v@).take(m as int),
        decreases v@.len() - m,
    {
        let s = string_of(v[m].as_slice());
        let ghost before = string_views(r@);
        r.push(s);
        assert(string_views(r@) =~= before.push(s@));
        assert(views_of(v@).take(m + 1) =~= views_of(v@).take(m as int).push(s@));
        m += 1;
    }
    assert(views_of(v@).take(v@.len() as int) =~= views_of(v@));
    r
}

// ── Lengths ─────────────────────────────────────────────────────────────

/// The number of bytes of `c` in UTF-8.
pub open spec fn char_utf8_len(c: char) -> nat {
    if (c as u32) < 0x80 {
        1
    } else if (c as u32) < 0x800 {
        2
    } else if (c as u32) < 0x10000 {
        3
    } else {
        4
    }
}

/// The number of bytes of `s` in UTF-8 (what `str::len` returns).
pub open spec fn utf8_len(s: Seq<char>) -> nat
    decreases s.len(),
{
    if s.len() == 0 {
        0
    } else {
        utf8_len(s.drop_last()) + char_utf8_len(s.last())
    }
}

proof fn lemma_utf8_len_step(s: Seq<char>, i: int)
    requires
        0 <= i < s.len(),
    ensures
        utf8_len(s.take(i + 1)) == utf8_len(s.take(i)) + char_utf8_len(s[i]),
{
    assert(s.take(i + 1).drop_last() =~= s.take(i));
}

/// Whether `s` takes more than `k` bytes in UTF-8 (`s.len() > k` on a `str`).
pub fn utf8_len_exceeds(s: &[char], k: usize) -> (b: bool)
    ensures
        b == (utf8_len(s@) > k),
{
    let mut total: usize = 0;
    let mut i: usize = 0;
    while i < s.len()
        invariant
            i <= s@.len(),
            total == utf8_len(s@.take(i as int)),
            total <= k,
        decreases s@.len() - i,
    {
        proof {
            lemma_utf8_len_step(s@, i as int);
        }
        let c = s[i];
        let w: usize = if (c as u32) < 0x80 {
            1
        } else if (c as u32) < 0x800 {
            2
        } else if (c as u32) < 0x10000 {
            3
        } else {
            4
        };
        if w > k - total {
            proof {
                lemma_utf8_len_prefix(s@, i + 1);
            }
            return true;
        }
        total = total + w;
        i += 1;
    }
    assert(s@.take(s@.len() as int) =~= s@);
    false
}

proof fn lemma_utf8_len_prefix(s: Seq<char>, i: int)
    requires
        0 <= i <= s.len(),
    ensures
        utf8_len(s.take(i)) <= utf8_len(s),
    decreases s.len() - i,
{
    if i < s.len() {
        lemma_utf8_len_prefix(s, i + 1);
        lemma_utf8_len_step(s, i);
    } else {
        assert(s.take(i) =~= s);
    }
}

// ── Searching ───────────────────────────────────────────────────────────

/// `needle` occurs in `hay` starting at position `i`.
pub open spec fn occurs_at(hay: Seq<char>, needle: Seq<char>, i: int) -> bool {
    0 <= i && i + needle.len() <= hay.len() && hay.subrange(i, i + needle.len()) == needle
}

/// `needle` occurs somewhere in `hay` (`str::contains` with a string pattern).
pub open spec fn seq_contains(hay: Seq<char>, needle: Seq<char>) -> bool {
    exists|i: int| #[trigger] occurs_at(hay, needle, i)
}

pub open spec fn seq_starts_with(s: Seq<char>, prefix: Seq<char>) -> bool {
    occurs_at(s, prefix, 0)
}

pub open spec fn seq_ends_with(s: Seq<char>, suffix: Seq<char>) -> bool {
    occurs_at(s, suffix, s.len() - suffix.len())
}

/// Whether `needle` occurs in `hay` at position `i`.
pub fn matches_at(hay: &[char], needle: &[char], i: usize) -> (b: bool)
    ensures
        b == occurs_at(hay@, needle@, i as int),
{
    if i > hay.len() || needle.len() > hay.len() - i {
        return false;
    }
    let mut k: usize = 0;
    while k < needle.len()
        invariant
            i + needle@.len() <= hay@.len(),
            hay@.len() <= usize::MAX,
            k <= needle@.len(),
            forall|j: int| 0 <= j < k ==> hay@[i + j] == needle@[j],
        decreases needle@.len() - k,
    {
        if hay[i + k] != needle[k] {
            assert(hay@.subrange(i as int, i + needle@.len())[k as int] != needle@[k as int]);
            return false;
        }
        k += 1;
    }
    assert(hay@.subrange(i as int, i + needle@.len()) =~= needle@);
    true
}

/// `str::contains` with a string pattern.
pub fn contains(hay: &[char], needle: &[char]) -> (b: bool)
    ensures
        b == seq_contains(hay@, needle@),
{
    if needle.len() > hay.len() {
        return false;
    }
    let last = hay.len() - needle.len();
    let mut i: usize = 0;
    loop
        invariant
            last == hay@.len() - needle@.len(),
            i <= last,
            forall|j: int| 0 <= j < i ==> !occurs_at(hay@, needle@, j),
        decreases last - i,
    {
        if matches_at(hay, needle, i) {
            return true;
        }
        if i == last {
            assert forall|j: int| !occurs_at(hay@, needle@, j) by {
                if 0 <= j <= last {
                    assert(j < i || j == i);
                }
            }
            return false;
        }
        i += 1;
    }
}

/// `str::contains` with a string-literal pattern.
pub fn contains_str(hay: &[char], needle: &str) -> (b: bool)
    ensures
        b == seq_contains(hay@, needle@),
{
    let n = chars_of(needle);
    contains(hay, n.as_slice())
}

pub fn ends_with(s: &[char], suffix: &str) -> (b: bool)
    ensures
        b == seq_ends_with(s@, suffix@),
{
    let p = chars_of(suffix);
    if p.len() > s.len() {
        return false;
    }
    matches_at(s, p.as_slice(), s.len() - p.len())
}

/// Equality of a character sequence with a string literal.
pub fn eq_str(s: &[char], lit: &str) -> (b: bool)
    ensures
        b == (s@ == lit@),
{
    let p = chars_of(lit);
    if p.len() != s.len() {
        return false;
    }
    let b = matches_at(s, p.as_slice(), 0);
    assert(s@.subrange(0, s@.len() as int) =~= s@);
    b
}

/// Equality of two character sequences.
pub fn eq_chars(a: &[char], b: &[char]) -> (r: bool)
    ensures
        r == (a@ == b@),
{
    if a.len() != b.len() {
        return false;
    }
    let r = matches_at(a, b, 0);
    assert(a@.subrange(0, a@.len() as int) =~= a@);
    r
}

// ── Trimming and splitting ──────────────────────────────────────────────

/// `s` without its leading white space.
pub open spec fn trim_start(s: Seq<char>) -> Seq<char>
    decreases s.len(),
{
    if s.len() > 0 && unicode_whitespace(s[0]) {
        trim_start(s.drop_first())
    } else {
        s
    }
}

/// `s` without its trailing white space.
pub open spec fn trim_end(s: Seq<char>) -> Seq<char>
    decreases s.len(),
{
    if s.len() > 0 && unicode_whitespace(s.last()) {
        trim_end(s.drop_last())
    } else {
        s
    }
}

/// `str::trim`: `s` without leading and trailing white space.
pub open spec fn trim(s: Seq<char>) -> Seq<char> {
    trim_end(trim_start(s))
}

proof fn lemma_trim_start_skip(s: Seq<char>, i: int)
    requires
        0 <= i <= s.len(),
        forall|j: int| 0 <= j < i ==> unicode_whitespace(#[trigger] s[j]),
    ensures
        trim_start(s) == trim_start(s.subrange(i, s.len() as int)),
    decreases i,
{
    if i > 0 {
        assert(s.drop_first().subrange(i - 1, s.drop_first().len() as int) =~= s.subrange(
            i,
            s.len() as int,
        ));
        lemma_trim_start_skip(s.drop_first(), i - 1);
    } else {
        assert(s.subrange(0, s.len() as int) =~= s);
    }
}

proof fn lemma_trim_end_take(s: Seq<char>, i: int)
    requires
        0 <= i <= s.len(),
        forall|j: int| i <= j < s.len() ==> unicode_whitespace(#[trigger] s[j]),
    ensures
        trim_end(s) == trim_end(s.subrange(0, i)),
    decreases s.len() - i,
{
    if i < s.len() {
        assert(s.drop_last().subrange(0, i) =~= s.subrange(0, i));
        lemma_trim_end_take(s.drop_last(), i);
    } else {
        assert(s.subrange(0, i) =~= s);
    }
}

/// `str::trim`.
pub fn trim_chars(s: &[char]) -> (r: Vec<char>)
    ensures
        r@ == trim(s@),
{
    let n = s.len();
    let mut a: usize = 0;
    while a < n && is_whitespace(s[a])
        invariant
            n == s@.len(),
            a <= n,
            forall|j: int| 0 <= j < a ==> unicode_whitespace(#[trigger] s@[j]),
        decreases n - a,
    {
        a += 1;
    }
    proof {
        lemma_trim_start_skip(s@, a as int);
    }
    let ghost t = s@.subrange(a as int, n as int);
    assert(t.len() == 0 || !unicode_whitespace(t[0]));
    assert(trim_start(s@) == t);
    let mut b: usize = n;
    while b > a && is_whitespace(s[b - 1])
        invariant
            n == s@.len(),
            a <= b <= n,
            t == s@.subrange(a as int, n as int),
            forall|j: int| b - a <= j < t.len() ==> unicode_whitespace(#[trigger] t[j]),
        decreases b,
    {
        b -= 1;
    }
    proof {
        lemma_trim_end_take(t, (b - a) as int);
        assert(t.subrange(0, (b - a) as int) =~= s@.subrange(a as int, b as int));
    }
    let mut r: Vec<char> = Vec::new();
    let mut k: usize = a;
    while k < b
        invariant
            a <= k <= b <= n,
            n == s@.len(),
            r@ == s@.subrange(a as int, k as int),
        decreases b - k,
    {
        r.push(s[k]);
        assert(s@.subrange(a as int, k as int).push(s@[k as int]) =~= s@.subrange(
            a as int,
            k + 1,
        ));
        k += 1;
    }
    r
}

/// The words of `cur ++ s`, where `cur` is a run of non-white-space
/// characters that is still open.
pub open spec fn words_from(s: Seq<char>, cur: Seq<char>) -> Seq<Seq<char>>
    decreases s.len(),
{
    if s.len() == 0 {
        if cur.len() > 0 {
            seq![cur]
        } else {
            seq![]
        }
    } else if unicode_whitespace(s[0]) {
        (if cur.len() > 0 {
            seq![cur]
        } else {
            seq![]
        }) + words_from(s.drop_first(), seq![])
    } else {
        words_from(s.drop_first(), cur.push(s[0]))
    }
}

/// `str::split_whitespace`: the maximal runs of non-white-space characters.
pub open spec fn words(s: Seq<char>) -> Seq<Seq<char>> {
    words_from(s, seq![])
}

pub open spec fn views_of(v: Seq<Vec<char>>) -> Seq<Seq<char>> {
    v.map_values(|w: Vec<char>| w@)
}

proof fn lemma_words_from_len(s: Seq<char>, cur: Seq<char>)
    ensures
        words_from(s, cur).len() <= s.len() + if cur.len() > 0 {
            1int
        } else {
            0int
        },
    decreases s.len(),
{
    if s.len() > 0 {
        lemma_words_from_len(s.drop_first(), seq![]);
        lemma_words_from_len(s.drop_first(), cur.push(s[0]));
    }
}

/// There are no more words than characters.
pub proof fn lemma_words_len(s: Seq<char>)
    ensures
        words(s).len() <= s.len(),
{
    lemma_words_from_len(s, seq![]);
}

proof fn lemma_trim_start_len(s: Seq<char>)
    ensures
        trim_start(s).len() <= s.len(),
    decreases s.len(),
{
    if s.len() > 0 && unicode_whitespace(s[0]) {
        lemma_trim_start_len(s.drop_first());
    }
}

proof fn lemma_trim_end_len(s: Seq<char>)
    ensures
        trim_end(s).len() <= s.len(),
    decreases s.len(),
{
    if s.len() > 0 && unicode_whitespace(s.last()) {
        lemma_trim_end_len(s.drop_last());
    }
}

/// Trimming never lengthens.
pub proof fn lemma_trim_len(s: Seq<char>)
    ensures
        trim(s).len() <= s.len(),
{
    lemma_trim_start_len(s);
    lemma_trim_end_len(trim_start(s));
}

/// `str::split_whitespace`.
pub fn split_whitespace(s: &[char]) -> (r: Vec<Vec<char>>)
    ensures
        views_of(r@) == words(s@),
{
    let mut r: Vec<Vec<char>> = Vec::new();
    let mut cur: Vec<char> = Vec::new();
    let mut i: usize = 0;
    assert(s@.skip(0) =~= s@);
    while i < s.len()
        invariant
            i <= s@.len(),
            views_of(r@) + words_from(s@.skip(i as int), cur@) == words(s@),
        decreases s@.len() - i,
    {
        let ghost before = views_of(r@);
        let ghost cur_before = cur@;
        let ghost rest = s@.skip(i as int);
        assert(rest.drop_first() =~= s@.skip(i + 1));
        if is_whitespace(s[i]) {
            let ghost head: Seq<Seq<char>> = if cur_before.len() > 0 {
                seq![cur_before]
            } else {
                seq![]
            };
            assert(words_from(rest, cur_before) == head + words_from(s@.skip(i + 1), seq![]));
            if cur.len() > 0 {
                let w = cur;
                r.push(w);
                cur = Vec::new();
                assert(views_of(r@) =~= before + head);
            } else {
                assert(views_of(r@) =~= before + head);
            }
            assert(cur@ =~= Seq::<char>::empty());
            assert(before + (head + words_from(s@.skip(i + 1), seq![])) =~= (before + head)
                + words_from(s@.skip(i + 1), seq![]));
        } else {
            cur.push(s[i]);
        }
        i += 1;
    }
    let ghost before = views_of(r@);
    assert(s@.skip(i as int) =~= Seq::<char>::empty());
    if cur.len() > 0 {
        let w = cur;
        r.push(w);
        assert(views_of(r@) =~= before + seq![w@]);
    } else {
        assert(before + Seq::<Seq<char>>::empty() =~= before);
    }
    r
}

// ── Joining ─────────────────────────────────────────────────────────────

/// `parts` joined by `sep`.
pub open spec fn join(parts: Seq<Seq<char>>, sep: Seq<char>) -> Seq<char>
    decreases parts.len(),
{
    if parts.len() == 0 {
        seq![]
    } else if parts.len() == 1 {
        parts[0]
    } else {
        join(parts.drop_last(), sep) + sep + parts.last()
    }
}

/// `ws[from..to]` joined by single spaces.
pub fn join_words(ws: &Vec<Vec<char>>, from: usize, to: usize) -> (r: Vec<char>)
    requires
        from <= to <= ws@.len(),
    ensures
        r@ == join(views_of(ws@).subrange(from as int, to as int), seq![' ']),
{
    let ghost all = views_of(ws@).subrange(from as int, to as int);
    let mut r: Vec<char> = Vec::new();
    let mut i: usize = from;
    while i < to
        invariant
            from <= i <= to <= ws@.len(),
            all == views_of(ws@).subrange(from as int, to as int),
            r@ == join(all.take(i - from), seq![' ']),
        decreases to - i,
    {
        let ghost before = r@;
        assert(all.take(i + 1 - from).drop_last() =~= all.take(i - from));
        assert(all[i - from] == ws@[i as int]@);
        if i > from {
            r.push(' ');
        }
        let w = &ws[i];
        let mut k: usize = 0;
        let ghost mid = r@;
        while k < w.len()
            invariant
                k <= w@.len(),
                r@ == mid + w@.take(k as int),
            decreases w@.len() - k,
        {
            r.push(w[k]);
            assert(mid + w@.take(k as int) + seq![w@[k as int]] =~= mid + w@.take(k + 1));
            k += 1;
        }
        assert(w@.take(w@.len() as int) =~= w@);
        if i > from {
            assert(r@ =~= before + seq![' '] + w@);
        } else {
            assert(all.take(1).len() == 1);
            assert(r@ =~= w@);
        }
        i += 1;
    }
    assert(all.take(to - from) =~= all);
    r
}

/// Appends the characters of `v`.
pub fn extend_chars(r: &mut Vec<char>, v: &[char])
    ensures
        final(r)@ == old(r)@ + v@,
{
    let mut k: usize = 0;
    let ghost start = r@;
    while k < v.len()
        invariant
            k <= v@.len(),
            r@ == start + v@.take(k as int),
        decreases v@.len() - k,
    {
        r.push(v[k]);
        assert(start + v@.take(k as int) + seq![v@[k as int]] =~= start + v@.take(k + 1));
        k += 1;
    }
    assert(v@.take(v@.len() as int) =~= v@);
}

/// `s` without the prefix `p`, when it starts with it (`str::strip_prefix`
/// followed by `unwrap_or(s)`).
pub open spec fn strip_prefix_or_keep(s: Seq<char>, p: Seq<char>) -> Seq<char> {
    if seq_starts_with(s, p) {
        s.skip(p.len() as int)
    } else {
        s
    }
}

pub fn strip_prefix_or_keep_chars(s: &[char], p: &str) -> (r: Vec<char>)
    ensures
        r@ == strip_prefix_or_keep(s@, p@),
{
    let pc = chars_of(p);
    let mut r: Vec<char> = Vec::new();
    let start: usize = if matches_at(s, pc.as_slice(), 0) {
        pc.len()
    } else {
        0
    };
    let mut k: usize = start;
    while k < s.len()
        invariant
            start <= k <= s@.len(),
            r@ == s@.subrange(start as int, k as int),
        decreases s@.len() - k,
    {
        r.push(s[k]);
        assert(s@.subrange(start as int, k as int).push(s@[k as int]) =~= s@.subrange(
            start as int,
            k + 1,
        ));
        k += 1;
    }
    assert(s@.subrange(0, s@.len() as int) =~= s@);
    r
}

/// `s` without its trailing ASCII punctuation.
pub open spec fn trim_end_punctuation(s: Seq<char>) -> Seq<char>
    decreases s.len(),
{
    if s.len() > 0 && is_ascii_punctuation(s.last()) {
        trim_end_punctuation(s.drop_last())
    } else {
        s
    }
}

pub fn trim_end_punctuation_chars(s: &[char]) -> (r: Vec<char>)
    ensures
        r@ == trim_end_punctuation(s@),
{
    let mut b: usize = s.len();
    assert(s@.take(s@.len() as int) =~= s@);
    while b > 0 && ascii_punctuation(s[b - 1])
        invariant
            b <= s@.len(),
            trim_end_punctuation(s@) == trim_end_punctuation(s@.take(b as int)),
        decreases b,
    {
        assert(s@.take(b as int).drop_last() =~= s@.take(b - 1));
        b -= 1;
    }
    assert(trim_end_punctuation(s@.take(b as int)) == s@.take(b as int));
    let mut r: Vec<char> = Vec::new();
    let mut k: usize = 0;
    while k < b
        invariant
            k <= b <= s@.len(),
            r@ == s@.take(k as int),
        decreases b - k,
    {
        r.push(s[k]);
        assert(s@.take(k as int).push(s@[k as int]) =~= s@.take(k + 1));
        k += 1;
    }
    r
}

/// `s` without its leading ASCII punctuation.
pub open spec fn trim_start_punctuation(s: Seq<char>) -> Seq<char>
    decreases s.len(),
{
    if s.len() > 0 && is_ascii_punctuation(s[0]) {
        trim_start_punctuation(s.drop_first())
    } else {
        s
    }
}

/// `str::trim_matches(char::is_ascii_punctuation)`.
pub open spec fn trim_punctuation(s: Seq<char>) -> Seq<char> {
    trim_end_punctuation(trim_start_punctuation(s))
}

proof fn lemma_trim_start_punct_skip(s: Seq<char>, i: int)
    requires
        0 <= i <= s.len(),
        forall|j: int| 0 <= j < i ==> is_ascii_punctuation(#[trigger] s[j]),
    ensures
        trim_start_punctuation(s) == trim_start_punctuation(s.subrange(i, s.len() as int)),
    decreases i,
{
    if i > 0 {
        assert(s.drop_first().subrange(i - 1, s.drop_first().len() as int) =~= s.subrange(
            i,
            s.len() as int,
        ));
        lemma_trim_start_punct_skip(s.drop_first(), i - 1);
    } else {
        assert(s.subrange(0, s.len() as int) =~= s);
    }
}

pub fn trim_punctuation_chars(s: &[char]) -> (r: Vec<char>)
    ensures
        r@ == trim_punctuation(s@),
{
    let n = s.len();
    let mut a: usize = 0;
    while a < n && ascii_punctuation(s[a])
        invariant
            n == s@.len(),
            a <= n,
            forall|j: int| 0 <= j < a ==> is_ascii_punctuation(#[trigger] s@[j]),
        decreases n - a,
    {
        a += 1;
    }
    proof {
        lemma_trim_start_punct_skip(s@, a as int);
    }
    let mut rest: Vec<char> = Vec::new();
    let mut k: usize = a;
    while k < n
        invariant
            a <= k <= n,
            n == s@.len(),
            rest@ == s@.subrange(a as int, k as int),
        decreases n - k,
    {
        rest.push(s[k]);
        assert(s@.subrange(a as int, k as int).push(s@[k as int]) =~= s@.subrange(
            a as int,
            k + 1,
        ));
        k += 1;
    }
    assert(trim_start_punctuation(s@.subrange(a as int, n as int)) == rest@);
    trim_end_punctuation_chars(rest.as_slice())
}

// ── Lexicographic order ─────────────────────────────────────────────────

/// `a` sorts before `b` (the order of `String`: by code point, a prefix first).
pub open spec fn lex_lt(a: Seq<char>, b: Seq<char>) -> bool
    decreases a.len(),
{
    if a.len() == 0 {
        b.len() > 0
    } else if b.len() == 0 {
        false
    } else if a[0] != b[0] {
        a[0] < b[0]
    } else {
        lex_lt(a.drop_first(), b.drop_first())
    }
}

pub proof fn lemma_lex_irreflexive(a: Seq<char>)
    ensures
        !lex_lt(a, a),
    decreases a.len(),
{
    if a.len() > 0 {
        lemma_lex_irreflexive(a.drop_first());
    }
}

pub proof fn lemma_lex_total(a: Seq<char>, b: Seq<char>)
    ensures
        a == b || lex_lt(a, b) || lex_lt(b, a),
    decreases a.len(),
{
    if a.len() > 0 && b.len() > 0 && a[0] == b[0] {
        lemma_lex_total(a.drop_first(), b.drop_first());
        if a.drop_first() == b.drop_first() {
            assert(a =~= seq![a[0]] + a.drop_first());
            assert(b =~= seq![b[0]] + b.drop_first());
        }
    } else if a.len() == 0 && b.len() == 0 {
        assert(a =~= b);
    }
}

pub proof fn lemma_lex_asymmetric(a: Seq<char>, b: Seq<char>)
    ensures
        !(lex_lt(a, b) && lex_lt(b, a)),
    decreases a.len(),
{
    if a.len() > 0 && b.len() > 0 && a[0] == b[0] {
        lemma_lex_asymmetric(a.drop_first(), b.drop_first());
    }
}

pub proof fn lemma_lex_transitive(a: Seq<char>, b: Seq<char>, c: Seq<char>)
    requires
        lex_lt(a, b),
        lex_lt(b, c),
    ensures
        lex_lt(a, c),
    decreases a.len(),
{
    if a.len() > 0 && b.len() > 0 && c.len() > 0 && a[0] == b[0] && b[0] == c[0] {
        lemma_lex_transitive(a.drop_first(), b.drop_first(), c.drop_first());
    }
}

/// Whether `a` sorts before `b`.
pub fn lex_less(a: &[char], b: &[char]) -> (r: bool)
    ensures
        r == lex_lt(a@, b@),
{
    let mut i: usize = 0;
    assert(a@.skip(0) =~= a@);
    assert(b@.skip(0) =~= b@);
    while i < a.len() && i < b.len()
        invariant
            i <= a@.len(),
            i <= b@.len(),
            a@.take(i as int) == b@.take(i as int),
            lex_lt(a@, b@) == lex_lt(a@.skip(i as int), b@.skip(i as int)),
        decreases a@.len() - i,
    {
        assert(a@.skip(i as int).drop_first() =~= a@.skip(i + 1));
        assert(b@.skip(i as int).drop_first() =~= b@.skip(i + 1));
        if a[i] != b[i] {
            return a[i] < b[i];
        }
        assert(a@.take(i + 1) =~= a@.take(i as int).push(a@[i as int]));
        assert(b@.take(i + 1) =~= b@.take(i as int).push(b@[i as int]));
        i += 1;
    }
    i < b.len()
}

// ── Parsing numbers ─────────────────────────────────────────────────────

/// The number written by the ASCII digits `s`.
pub open spec fn decimal_value(s: Seq<char>) -> nat
    decreases s.len(),
{
    if s.len() == 0 {
        0
    } else {
        decimal_value(s.drop_last()) * 10 + ((s.last() as int) - 48) as nat
    }
}

pub open spec fn all_ascii_digits(s: Seq<char>) -> bool {
    forall|i: int| 0 <= i < s.len() ==> is_ascii_digit(#[trigger] s[i])
}

/// `str::parse::<u32>`: an optional `+` followed by one or more ASCII
/// digits, whose value fits in a `u32`.
pub open spec fn parsed_u32(s: Seq<char>) -> Option<nat> {
    let d = if s.len() > 0 && s[0] == '+' {
        s.drop_first()
    } else {
        s
    };
    if d.len() > 0 && all_ascii_digits(d) && decimal_value(d) <= u32::MAX {
        Some(decimal_value(d))
    } else {
        None
    }
}

proof fn lemma_decimal_value_monotone(d: Seq<char>, i: int)
    requires
        0 <= i <= d.len(),
        all_ascii_digits(d),
    ensures
        decimal_value(d.take(i)) <= decimal_value(d),
    decreases d.len() - i,
{
    if i < d.len() {
        lemma_decimal_value_monotone(d, i + 1);
        assert(d.take(i + 1).drop_last() =~= d.take(i));
        assert(is_ascii_digit(d[i]));
    } else {
        assert(d.take(i) =~= d);
    }
}

/// `str::parse::<u32>`.
pub fn parse_u32(s: &[char]) -> (r: Option<u32>)
    ensures
        match r {
            Some(v) => parsed_u32(s@) == Some(v as nat),
            None => parsed_u32(s@) is None,
        },
{
    let start: usize = if s.len() > 0 && s[0] == '+' {
        1
    } else {
        0
    };
    let ghost d = if s@.len() > 0 && s@[0] == '+' {
        s@.drop_first()
    } else {
        s@
    };
    assert(d =~= s@.skip(start as int));
    if start >= s.len() {
        return None;
    }
    let mut value: u64 = 0;
    let mut i: usize = start;
    while i < s.len()
        invariant
            start <= i <= s@.len(),
            d == s@.skip(start as int),
            d == (if s@.len() > 0 && s@[0] == '+' {
                s@.drop_first()
            } else {
                s@
            }),
            all_ascii_digits(d.take(i - start)),
            value == decimal_value(d.take(i - start)),
            value <= u32::MAX,
        decreases s@.len() - i,
    {
        let c = s[i];
        assert(d.take(i + 1 - start).drop_last() =~= d.take(i - start));
        assert(d[i - start] == c);
        if !ascii_digit(c) {
            assert(!is_ascii_digit(d[i - start]));
            return None;
        }
        let digit: u64 = (c as u64) - 48;
        if value > (u32::MAX as u64 - digit) / 10 {
            proof {
                assert(all_ascii_digits(d.take(i + 1 - start))) by {
                    assert forall|k: int| 0 <= k < d.take(i + 1 - start).len() implies is_ascii_digit(
                        #[trigger] d.take(i + 1 - start)[k],
                    ) by {
                        if k < i - start {
                            assert(d.take(i + 1 - start)[k] == d.take(i - start)[k]);
                        }
                    }
                }
                if all_ascii_digits(d) {
                    lemma_decimal_value_monotone(d, i + 1 - start);
                }
                assert(value * 10 + digit > u32::MAX) by (nonlinear_arith)
                    requires
                        value > (u32::MAX as u64 - digit) / 10,
                        digit <= 9,
                ;
            }
            return None;
        }
        assert(value * 10 + digit <= u32::MAX) by (nonlinear_arith)
            requires
                value <= (u32::MAX as u64 - digit) / 10,
                digit <= 9,
        ;
        value = value * 10 + digit;
        assert forall|k: int| 0 <= k < d.take(i + 1 - start).len() implies is_ascii_digit(
            #[trigger] d.take(i + 1 - start)[k],
        ) by {
            if k < i - start {
                assert(d.take(i + 1 - start)[k] == d.take(i - start)[k]);
            }
        }
        i += 1;
    }
    assert(d.take(s@.len() - start) =~= d);
    Some(value as u32)
}

} // verus!
