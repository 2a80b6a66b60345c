//! Text rules shared by the registries: trimming, prefixes, lengths and colours.
//!
//! Every string is reasoned about through its view, the sequence of its characters.

use vstd::prelude::*;
use vstd::string::*;
use vstd::utf8::is_ascii_chars;

verus! {

/// Whether `c` has the Unicode property White_Space, as `char::is_whitespace` decides it.
pub uninterp spec fn white_space(c: char) -> bool;

/// The number of extended grapheme clusters of `s`, as `unicode_segmentation` counts them.
pub uninterp spec fn grapheme_clusters(s: Seq<char>) -> nat;

/// The Unicode lower-case form of `s`, as `str::to_lowercase` gives it.
pub uninterp spec fn lowercase(s: Seq<char>) -> Seq<char>;

/// Whether `c` is a digit in base 16, in either letter case.
pub open spec fn hex_digit(c: char) -> bool {
    ('0' <= c && c <= '9') || ('a' <= c && c <= 'f') || ('A' <= c && c <= 'F')
}

/// Whether the two characters are read as a number in base 16: digits, of which the
/// first may be a `+` sign instead.
pub open spec fn hex_byte(a: char, b: char) -> bool {
    (hex_digit(a) || a == '+') && hex_digit(b)
}

/// Whether `s` is written as a hexadecimal colour: a `#`, then three numbers of two
/// characters each for red, green and blue, and a fourth for the opacity or none.
pub open spec fn hex_color(s: Seq<char>) -> bool {
    &&& (s.len() == 7 || s.len() == 9)
    &&& s[0] == '#'
    &&& hex_byte(s[1], s[2])
    &&& hex_byte(s[3], s[4])
    &&& hex_byte(s[5], s[6])
    &&& (s.len() == 9 ==> hex_byte(s[7], s[8]))
}

/// The predicate "is white space", as a value.
pub open spec fn is_space() -> spec_fn(char) -> bool {
    |c: char| white_space(c)
}

/// The predicate "is a slash", as a value.
pub open spec fn is_slash() -> spec_fn(char) -> bool {
    |c: char| c == '/'
}

/// `s` without its longest prefix of characters that satisfy `strip`.
pub open spec fn strip_front(s: Seq<char>, strip: spec_fn(char) -> bool) -> Seq<char>
    decreases s.len(),
{
    if s.len() > 0 && strip(s.first()) {
        strip_front(s.drop_first(), strip)
    } else {
        s
    }
}

/// `s` without its longest suffix of characters that satisfy `strip`.
pub open spec fn strip_back(s: Seq<char>, strip: spec_fn(char) -> bool) -> Seq<char>
    decreases s.len(),
{
    if s.len() > 0 && strip(s.last()) {
        strip_back(s.drop_last(), strip)
    } else {
        s
    }
}

/// `s` without leading and trailing white space.
pub open spec fn trimmed(s: Seq<char>) -> Seq<char> {
    strip_back(strip_front(s, is_space()), is_space())
}

/// `s` without trailing slashes.
pub open spec fn without_trailing_slashes(s: Seq<char>) -> Seq<char> {
    strip_back(s, is_slash())
}

/// `s` without leading and trailing slashes.
pub open spec fn without_outer_slashes(s: Seq<char>) -> Seq<char> {
    strip_back(strip_front(s, is_slash()), is_slash())
}

/// Whether `prefix` is what `s` begins with.
pub open spec fn is_prefix(prefix: Seq<char>, s: Seq<char>) -> bool {
    &&& prefix.len() <= s.len()
    &&& forall|i: int| 0 <= i < prefix.len() ==> prefix[i] == s[i]
}

/// The ASCII lower-case form of one character.
pub open spec fn ascii_lower(c: char) -> char {
    if 'A' <= c && c <= 'Z' {
        ((c as u8) + 32u8) as char
    } else {
        c
    }
}

/// The ASCII lower-case form of `s`: `A` to `Z` become `a` to `z`, the rest stays.
pub open spec fn ascii_lowercase(s: Seq<char>) -> Seq<char> {
    s.map_values(|c: char| ascii_lower(c))
}

/// Whether `a` comes before `b`, or equals it, in the order of the code points.
pub open spec fn precedes(a: Seq<char>, b: Seq<char>) -> bool
    decreases a.len(),
{
    if a.len() == 0 {
        true
    } else if b.len() == 0 {
        false
    } else if a.first() != b.first() {
        a.first() < b.first()
    } else {
        precedes(a.drop_first(), b.drop_first())
    }
}

/// Whether `s` is a colour: ASCII text that is written as a hexadecimal colour.
pub open spec fn valid_color(s: Seq<char>) -> bool {
    is_ascii_chars(s) && hex_color(s)
}

/// The first `k` characters satisfy `strip` and the next one, if any, does not:
/// then `strip_front` removes exactly those `k`.
pub proof fn lemma_strip_front(s: Seq<char>, strip: spec_fn(char) -> bool, k: int)
    requires
        0 <= k <= s.len(),
        forall|i: int| 0 <= i < k ==> strip(s[i]),
        k == s.len() || !strip(s[k]),
    ensures
        strip_front(s, strip) == s.subrange(k, s.len() as int),
    decreases k,
{
    if k == 0 {
        assert(s.subrange(0, s.len() as int) =~= s);
    } else {
        let rest = s.drop_first();
        assert forall|i: int| 0 <= i < k - 1 implies strip(rest[i]) by {
            assert(rest[i] == s[i + 1]);
        }
        lemma_strip_front(rest, strip, k - 1);
        assert(rest.subrange(k - 1, rest.len() as int) =~= s.subrange(k, s.len() as int));
    }
}

/// Every character from index `m` on satisfies `strip` and the one before, if any,
/// does not: then `strip_back` keeps exactly the first `m`.
pub proof fn lemma_strip_back(s: Seq<char>, strip: spec_fn(char) -> bool, m: int)
    requires
        0 <= m <= s.len(),
        forall|i: int| m <= i < s.len() ==> strip(s[i]),
        m == 0 || !strip(s[m - 1]),
    ensures
        strip_back(s, strip) == s.subrange(0, m),
    decreases s.len() - m,
{
    if m == s.len() {
        assert(s.subrange(0, m) =~= s);
    } else {
        let rest = s.drop_last();
        assert forall|i: int| m <= i < rest.len() implies strip(rest[i]) by {
            assert(rest[i] == s[i]);
        }
        lemma_strip_back(rest, strip, m);
        assert(rest.subrange(0, m) =~= s.subrange(0, m));
    }
}

/// Letter case does not decide whether a text is a colour: a text is written as a
/// hexadecimal colour exactly when its ASCII lower-case form is.
pub proof fn lemma_color_in_lower_case(s: Seq<char>)
    ensures
        hex_color(ascii_lowercase(s)) == hex_color(s),
{
    let lower = ascii_lowercase(s);
    assert(lower.len() == s.len());
    assert forall|i: int| 0 <= i < s.len() implies hex_digit(#[trigger] lower[i]) == hex_digit(s[i])
        && (lower[i] == '+') == (s[i] == '+') && (lower[i] == '#') == (s[i] == '#') by {
        lemma_lower_keeps_hex(s[i]);
    }
}

/// What is written as a hexadecimal colour is ASCII text, so it is a colour.
pub proof fn lemma_color_is_ascii(s: Seq<char>)
    requires
        hex_color(s),
    ensures
        valid_color(s),
{
    assert forall|i: int| 0 <= i < s.len() implies '\0' <= #[trigger] s[i] <= '\u{7f}' by {
        if i == 0 {
        } else if i == 1 {
        } else if i == 2 {
        } else if i == 3 {
        } else if i == 4 {
        } else if i == 5 {
        } else if i == 6 {
        } else if i == 7 {
        } else {
        }
    }
}

/// The lower-case form of a character is a digit in base 16 exactly when the
/// character is, and is a sign or a `#` exactly when the character is.
pub proof fn lemma_lower_keeps_hex(c: char)
    ensures
        hex_digit(ascii_lower(c)) == hex_digit(c),
        (ascii_lower(c) == '+') == (c == '+'),
        (ascii_lower(c) == '#') == (c == '#'),
{
}

/// What is left of a text whose front was stripped does not begin with a character
/// to strip.
pub proof fn lemma_strip_front_clean(s: Seq<char>, strip: spec_fn(char) -> bool)
    ensures
        strip_front(s, strip).len() <= s.len(),
        strip_front(s, strip).len() > 0 ==> !strip(strip_front(s, strip).first()),
    decreases s.len(),
{
    if s.len() > 0 && strip(s.first()) {
        lemma_strip_front_clean(s.drop_first(), strip);
    }
}

/// What is left of a text whose back was stripped does not end with a character to
/// strip, and begins as the text did.
pub proof fn lemma_strip_back_clean(s: Seq<char>, strip: spec_fn(char) -> bool)
    ensures
        strip_back(s, strip).len() <= s.len(),
        strip_back(s, strip).len() > 0 ==> !strip(strip_back(s, strip).last()),
        s.len() > 0 && !strip(s.first()) ==> strip_back(s, strip).len() > 0 && strip_back(
            s,
            strip,
        ).first() == s.first(),
    decreases s.len(),
{
    if s.len() > 0 && strip(s.last()) {
        lemma_strip_back_clean(s.drop_last(), strip);
    }
}

/// A text that was stripped at both ends neither begins nor ends with a character to
/// strip: a trimmed text has no white space at its ends, a stored relative path no slash.
pub proof fn lemma_stripped_is_clean(s: Seq<char>, strip: spec_fn(char) -> bool)
    ensures
        ({
            let kept = strip_back(strip_front(s, strip), strip);
            kept.len() > 0 ==> !strip(kept.first()) && !strip(kept.last())
        }),
{
    lemma_strip_front_clean(s, strip);
    lemma_strip_back_clean(strip_front(s, strip), strip);
}

/// Trimming makes no text longer.
pub proof fn lemma_trimmed_is_no_longer(s: Seq<char>)
    ensures
        trimmed(s).len() <= s.len(),
{
    lemma_strip_front_clean(s, is_space());
    lemma_strip_back_clean(strip_front(s, is_space()), is_space());
}

/// Stripping what was stripped changes nothing.
pub proof fn lemma_strip_again(s: Seq<char>, strip: spec_fn(char) -> bool)
    ensures
        ({
            let kept = strip_back(strip_front(s, strip), strip);
            strip_back(strip_front(kept, strip), strip) == kept
        }),
{
    lemma_stripped_is_clean(s, strip);
}

/// Of two texts, one comes before the other or equals it.
pub proof fn lemma_precedes_total(a: Seq<char>, b: Seq<char>)
    ensures
        precedes(a, b) || precedes(b, a),
    decreases a.len(),
{
    if a.len() > 0 && b.len() > 0 {
        if a.first() == b.first() {
            lemma_precedes_total(a.drop_first(), b.drop_first());
        }
    }
}

/// What comes before a text comes before everything that the text comes before.
pub proof fn lemma_precedes_transitive(a: Seq<char>, b: Seq<char>, c: Seq<char>)
    requires
        precedes(a, b),
        precedes(b, c),
    ensures
        precedes(a, c),
    decreases a.len(),
{
    if a.len() > 0 && a.first() == b.first() && b.first() == c.first() {
        lemma_precedes_transitive(a.drop_first(), b.drop_first(), c.drop_first());
    }
}

/// `char::is_whitespace`: the Unicode property White_Space of one character.
#[verifier::external_body]
fn is_whitespace(c: char) -> (b: bool)
    ensures
        b == white_space(c),
{
    c.is_whitespace()
}

/// `UnicodeSegmentation::graphemes` in its extended mode, counted: the number of
/// grapheme clusters of `s`. The count depends on the characters alone.
#[verifier::external_body]
pub(crate) fn grapheme_count(s: &str) -> (n: usize)
    ensures
        n == grapheme_clusters(s@),
{
    unicode_segmentation::UnicodeSegmentation::graphemes(s, true).count()
}

/// `str::to_lowercase`: the Unicode lower-case form, which depends on the characters alone.
#[verifier::external_body]
pub(crate) fn to_lowercase(s: &str) -> (lower: String)
    ensures
        lower@ == lowercase(s@),
{
    s.to_lowercase()
}

/// `str::to_ascii_lowercase`: `A` to `Z` become `a` to `z`, every other character stays.
#[verifier::external_body]
pub(crate) fn to_ascii_lowercase(s: &str) -> (lower: String)
    ensures
        lower@ == ascii_lowercase(s@),
{
    s.to_ascii_lowercase()
}

/// `raster::Color::hex`, asked only whether it accepts `color`. It slices the text by
/// bytes, so it is called on ASCII text alone, where bytes are characters. It accepts
/// a text of 7 or 9 bytes that begins with `#` and whose pairs of bytes after it
/// `u8::from_str_radix` reads in base 16: an optional `+` sign followed by digits.
#[verifier::external_body]
fn hex_color_parses(color: &str) -> (ok: bool)
    requires
        is_ascii_chars(color@),
    ensures
        ok == hex_color(color@),
{
    raster::Color::hex(color).is_ok()
}

/// What is stripped from the ends of a text.
#[derive(Clone, Copy, Debug)]
pub enum Strip {
    /// White space.
    Space,
    /// The character `/`.
    Slash,
}

impl Strip {
    /// The characters that are stripped.
    pub open spec fn pred(self) -> spec_fn(char) -> bool {
        match self {
            Strip::Space => is_space(),
            Strip::Slash => is_slash(),
        }
    }

    /// Whether `c` is stripped.
    pub fn matches(&self, c: char) -> (b: bool)
        ensures
            b == (self.pred())(c),
    {
        match self {
            Strip::Space => is_whitespace(c),
            Strip::Slash => c == '/',
        }
    }
}

/// Strips `what` from the end of `s`, and from its front too if `front` is set.
pub fn strip_ends(s: &str, what: Strip, front: bool) -> (r: String)
    ensures
        r@ == strip_back(if front { strip_front(s@, what.pred()) } else { s@ }, what.pred()),
{
    let n: usize = s.unicode_len();
    let mut start: usize = 0;
    if front {
        while start < n && what.matches(s.get_char(start))
            invariant
                n == s@.len(),
                start <= n,
                forall|i: int| 0 <= i < start ==> (what.pred())(s@[i]),
            decreases n - start,
        {
            start += 1;
        }
    }
    let mut end: usize = n;
    while end > start && what.matches(s.get_char(end - 1))
        invariant
            n == s@.len(),
            start <= end <= n,
            forall|i: int| end <= i < n ==> (what.pred())(s@[i]),
        decreases end,
    {
        end -= 1;
    }
    let kept = s.substring_char(start, end);
    proof {
        let inner = s@.subrange(start as int, n as int);
        if front {
            lemma_strip_front(s@, what.pred(), start as int);
        } else {
            assert(inner =~= s@);
        }
        assert forall|i: int| end - start <= i < inner.len() implies (what.pred())(inner[i]) by {
            assert(inner[i] == s@[i + start]);
        }
        lemma_strip_back(inner, what.pred(), end - start);
        assert(inner.subrange(0, end - start) =~= s@.subrange(start as int, end as int));
    }
    kept.to_owned()
}

/// `s` without leading and trailing white space.
pub fn trim(s: &str) -> (r: String)
    ensures
        r@ == trimmed(s@),
{
    strip_ends(s, Strip::Space, true)
}

/// The number of characters of `s`.
pub fn char_count(s: &str) -> (n: usize)
    ensures
        n == s@.len(),
{
    s.unicode_len()
}

/// Whether `s` begins with `prefix`.
pub fn starts_with(s: &str, prefix: &str) -> (b: bool)
    ensures
        b == is_prefix(prefix@, s@),
{
    let n: usize = s.unicode_len();
    let m: usize = prefix.unicode_len();
    if m > n {
        return false;
    }
    let mut i: usize = 0;
    while i < m
        invariant
            n == s@.len(),
            m == prefix@.len(),
            m <= n,
            i <= m,
            forall|j: int| 0 <= j < i ==> prefix@[j] == s@[j],
        decreases m - i,
    {
        if prefix.get_char(i) != s.get_char(i) {
            return false;
        }
        i += 1;
    }
    true
}

/// Whether the two texts hold the same characters.
pub fn same(a: &str, b: &str) -> (eq: bool)
    ensures
        eq == (a@ == b@),
{
    let n: usize = a.unicode_len();
    if b.unicode_len() != n {
        return false;
    }
    let same_start = starts_with(a, b);
    proof {
        if same_start {
            assert(a@ =~= b@);
        }
    }
    same_start
}

/// Whether `a` comes before `b`, or equals it, in the order of the code points.
pub fn comes_first(a: &str, b: &str) -> (r: bool)
    ensures
        r == precedes(a@, b@),
{
    let n: usize = a.unicode_len();
    let m: usize = b.unicode_len();
    let mut i: usize = 0;
    proof {
        assert(a@.skip(0) =~= a@);
        assert(b@.skip(0) =~= b@);
    }
    while i < n
        invariant
            n == a@.len(),
            m == b@.len(),
            i <= n,
            i <= m,
            precedes(a@, b@) == precedes(a@.skip(i as int), b@.skip(i as int)),
        decreases n - i,
    {
        if i >= m {
            return false;
        }
        let x = a.get_char(i);
        let y = b.get_char(i);
        proof {
            let ra = a@.skip(i as int);
            let rb = b@.skip(i as int);
            assert(ra.first() == x && rb.first() == y);
            assert(ra.drop_first() =~= a@.skip(i + 1));
            assert(rb.drop_first() =~= b@.skip(i + 1));
        }
        if x != y {
            return x < y;
        }
        i += 1;
    }
    true
}

/// Whether `color` is a colour: ASCII text that is written as a hexadecimal colour.
pub fn is_color(color: &str) -> (ok: bool)
    ensures
        ok == valid_color(color@),
{
    if !color.is_ascii() {
        return false;
    }
    hex_color_parses(color)
}

} // verus!
