//! Characters and texts: the character classes the tokenizer looks at, the
//! two ways a text is normalised, and plain operations on strings seen as
//! sequences of characters.
use vstd::prelude::*;

verus! {

// ---------------------------------------------------------------------------
// Character classes
// ---------------------------------------------------------------------------

/// The characters with the Unicode property `White_Space`.
pub open spec fn is_white_space(c: char) -> bool {
    ||| '\u{9}' <= c <= '\u{d}'
    ||| c == ' '
    ||| c == '\u{85}'
    ||| c == '\u{a0}'
    ||| c == '\u{1680}'
    ||| '\u{2000}' <= c <= '\u{200a}'
    ||| c == '\u{2028}'
    ||| c == '\u{2029}'
    ||| c == '\u{202f}'
    ||| c == '\u{205f}'
    ||| c == '\u{3000}'
}

/// The ASCII letters.
pub open spec fn is_letter(c: char) -> bool {
    'a' <= c <= 'z' || 'A' <= c <= 'Z'
}

/// The small ASCII letters.
pub open spec fn is_small_letter(c: char) -> bool {
    'a' <= c <= 'z'
}

/// The capital ASCII letters.
pub open spec fn is_capital(c: char) -> bool {
    'A' <= c <= 'Z'
}

/// The characters below U+0080.
pub open spec fn is_ascii_char(c: char) -> bool {
    c <= '\u{7f}'
}

/// Every character of `s` is an ASCII letter.
pub open spec fn all_letters(s: Seq<char>) -> bool {
    forall|i: int| 0 <= i < s.len() ==> is_letter(#[trigger] s[i])
}

/// Every character of `s` is a small ASCII letter.
pub open spec fn all_small_letters(s: Seq<char>) -> bool {
    forall|i: int| 0 <= i < s.len() ==> is_small_letter(#[trigger] s[i])
}

/// Every character of `s` is ASCII.
pub open spec fn all_ascii(s: Seq<char>) -> bool {
    forall|i: int| 0 <= i < s.len() ==> is_ascii_char(#[trigger] s[i])
}

/// Whether `c` has the Unicode property `White_Space`.
pub fn is_whitespace(c: char) -> (r: bool)
    ensures
        r == is_white_space(c),
{
    ('\u{9}' <= c && c <= '\u{d}') || c == ' ' || c == '\u{85}' || c == '\u{a0}' || c == '\u{1680}'
        || ('\u{2000}' <= c && c <= '\u{200a}') || c == '\u{2028}' || c == '\u{2029}' || c
        == '\u{202f}' || c == '\u{205f}' || c == '\u{3000}'
}

/// Whether `c` is an ASCII letter.
pub fn is_ascii_alphabetic(c: char) -> (r: bool)
    ensures
        r == is_letter(c),
{
    ('a' <= c && c <= 'z') || ('A' <= c && c <= 'Z')
}

// ---------------------------------------------------------------------------
// Strings as sequences of characters
// ---------------------------------------------------------------------------

/// `String::push`: appends one character at the end of the string.
pub assume_specification[ String::push ](s: &mut String, c: char)
    ensures
        final(s)@ == old(s)@.push(c),
;

/// The characters of `s`, in order.
pub fn chars_of(s: &str) -> (chars: Vec<char>)
    ensures
        chars@ == s@,
{
    let mut chars: Vec<char> = Vec::new();
    for c in iter: s.chars()
        invariant
            iter.seq() == s@,
            chars@ == s@.take(iter.index() as int),
    {
        chars.push(c);
        assert(s@.take(iter.index() + 1) =~= s@.take(iter.index() as int).push(c));
    }
    assert(s@.take(s@.len() as int) =~= s@);
    chars
}

/// The string made of `chars[lo..hi]`.
pub fn string_of(chars: &Vec<char>, lo: usize, hi: usize) -> (s: String)
    requires
        lo <= hi <= chars@.len(),
    ensures
        s@ == chars@.subrange(lo as int, hi as int),
{
    let mut s = String::new();
    let mut i: usize = lo;
    while i < hi
        invariant
            lo <= i <= hi <= chars@.len(),
            s@ == chars@.subrange(lo as int, i as int),
        decreases hi - i,
    {
        s.push(chars[i]);
        i += 1;
        assert(chars@.subrange(lo as int, i as int) =~= chars@.subrange(
            lo as int,
            i - 1,
        ).push(chars@[i - 1]));
    }
    s
}

/// Whether every character is an ASCII letter.
pub fn all_ascii_alphabetic(chars: &Vec<char>) -> (r: bool)
    ensures
        r == all_letters(chars@),
{
    let mut i: usize = 0;
    while i < chars.len()
        invariant
            i <= chars@.len(),
            forall|j: int| 0 <= j < i ==> is_letter(#[trigger] chars@[j]),
        decreases chars@.len() - i,
    {
        if !is_ascii_alphabetic(chars[i]) {
            return false;
        }
        i += 1;
    }
    true
}

// ---------------------------------------------------------------------------
// Longest prefixes and suffixes
// ---------------------------------------------------------------------------

/// The length of the longest prefix of `s` whose characters all satisfy `p`.
pub open spec fn prefix_len(s: Seq<char>, p: spec_fn(char) -> bool) -> nat
    decreases s.len(),
{
    if s.len() > 0 && p(s[0]) {
        1 + prefix_len(s.skip(1), p)
    } else {
        0
    }
}

/// The length of the longest suffix of `s` whose characters all satisfy `p`.
pub open spec fn suffix_len(s: Seq<char>, p: spec_fn(char) -> bool) -> nat
    decreases s.len(),
{
    if s.len() > 0 && p(s.last()) {
        1 + suffix_len(s.drop_last(), p)
    } else {
        0
    }
}

/// What `prefix_len` says of the characters of `s`.
pub proof fn lemma_prefix_len(s: Seq<char>, p: spec_fn(char) -> bool)
    ensures
        prefix_len(s, p) <= s.len(),
        forall|i: int| 0 <= i < prefix_len(s, p) ==> p(#[trigger] s[i]),
        prefix_len(s, p) < s.len() ==> !p(s[prefix_len(s, p) as int]),
    decreases s.len(),
{
    if s.len() > 0 && p(s[0]) {
        let t = s.skip(1);
        lemma_prefix_len(t, p);
        assert forall|i: int| 0 <= i < prefix_len(s, p) implies p(#[trigger] s[i]) by {
            if i > 0 {
                assert(s[i] == t[i - 1]);
            }
        }
        if prefix_len(s, p) < s.len() {
            assert(s[prefix_len(s, p) as int] == t[prefix_len(t, p) as int]);
        }
    }
}

/// The only number that satisfies what `lemma_prefix_len` states.
pub proof fn lemma_prefix_len_is(s: Seq<char>, p: spec_fn(char) -> bool, n: nat)
    requires
        n <= s.len(),
        forall|i: int| 0 <= i < n ==> p(#[trigger] s[i]),
        n < s.len() ==> !p(s[n as int]),
    ensures
        prefix_len(s, p) == n,
{
    lemma_prefix_len(s, p);
    let m = prefix_len(s, p);
    if m < n {
        assert(p(s[m as int]));
    } else if n < m {
        assert(p(s[n as int]));
    }
}

/// What `suffix_len` says of the characters of `s`.
pub proof fn lemma_suffix_len(s: Seq<char>, p: spec_fn(char) -> bool)
    ensures
        suffix_len(s, p) <= s.len(),
        forall|i: int| s.len() - suffix_len(s, p) <= i < s.len() ==> p(#[trigger] s[i]),
        suffix_len(s, p) < s.len() ==> !p(s[s.len() - suffix_len(s, p) - 1]),
    decreases s.len(),
{
    if s.len() > 0 && p(s.last()) {
        let t = s.drop_last();
        lemma_suffix_len(t, p);
        assert forall|i: int| s.len() - suffix_len(s, p) <= i < s.len() implies p(
            #[trigger] s[i],
        ) by {
            if i < s.len() - 1 {
                assert(s[i] == t[i]);
            }
        }
    }
}

/// The only number that satisfies what `lemma_suffix_len` states.
pub proof fn lemma_suffix_len_is(s: Seq<char>, p: spec_fn(char) -> bool, n: nat)
    requires
        n <= s.len(),
        forall|i: int| s.len() - n <= i < s.len() ==> p(#[trigger] s[i]),
        n < s.len() ==> !p(s[s.len() - n - 1]),
    ensures
        suffix_len(s, p) == n,
{
    lemma_suffix_len(s, p);
    let m = suffix_len(s, p);
    if m < n {
        assert(p(s[s.len() - m - 1]));
    } else if n < m {
        assert(p(s[s.len() - n - 1]));
    }
}

// ---------------------------------------------------------------------------
// Lines
// ---------------------------------------------------------------------------

/// The characters that do not end a line.
pub open spec fn not_newline() -> spec_fn(char) -> bool {
    |c: char| c != '\n'
}

/// The white-space characters.
pub open spec fn white_space() -> spec_fn(char) -> bool {
    |c: char| is_white_space(c)
}

/// A line without the carriage return at its end, where it has one.
pub open spec fn without_carriage_return(line: Seq<char>) -> Seq<char> {
    if line.len() > 0 && line.last() == '\r' {
        line.drop_last()
    } else {
        line
    }
}

/// The lines of a text. A line ends at `\n` or `\r\n`, which are no part of
/// it; the end of the last line may be missing.
pub open spec fn lines_of(s: Seq<char>) -> Seq<Seq<char>>
    decreases s.len(),
{
    let n = prefix_len(s, not_newline()) as int;
    if s.len() == 0 {
        seq![]
    } else if n >= s.len() {
        seq![s]
    } else {
        seq![without_carriage_return(s.take(n))] + lines_of(s.skip(n + 1))
    }
}

/// `s` without the white space at its ends.
pub open spec fn trimmed(s: Seq<char>) -> Seq<char> {
    let rest = s.skip(prefix_len(s, white_space()) as int);
    rest.take(rest.len() - suffix_len(rest, white_space()))
}

/// The texts of a list of strings.
pub open spec fn texts(strings: Seq<String>) -> Seq<Seq<char>> {
    strings.map_values(|s: String| s@)
}

/// Splits a text into its lines.
pub fn split_lines(text: &str) -> (lines: Vec<String>)
    ensures
        texts(lines@) == lines_of(text@),
{
    let chars = chars_of(text);
    let mut lines: Vec<String> = Vec::new();
    let mut start: usize = 0;
    let mut i: usize = 0;
    assert(text@.skip(0) =~= text@);
    assert(texts(lines@) + lines_of(text@) =~= lines_of(text@));
    while i < chars.len()
        invariant
            chars@ == text@,
            start <= i <= chars@.len(),
            forall|j: int| start <= j < i ==> chars@[j] != '\n',
            texts(lines@) + lines_of(text@.skip(start as int)) == lines_of(text@),
        decreases chars@.len() - i,
    {
        if chars[i] == '\n' {
            let ghost rest = text@.skip(start as int);
            let end: usize = if i > start && chars[i - 1] == '\r' {
                i - 1
            } else {
                i
            };
            let ghost before = texts(lines@);
            lines.push(string_of(&chars, start, end));
            proof {
                let n = (i - start) as nat;
                lemma_prefix_len_is(rest, not_newline(), n);
                assert(rest.take(n as int) =~= text@.subrange(start as int, i as int));
                assert(without_carriage_return(rest.take(n as int)) =~= text@.subrange(
                    start as int,
                    end as int,
                ));
                assert(rest.skip(n as int + 1) =~= text@.skip(i + 1));
                let line = text@.subrange(start as int, end as int);
                assert(texts(lines@) =~= before.push(line));
                assert(before + (seq![line] + lines_of(text@.skip(i + 1))) =~= texts(lines@)
                    + lines_of(text@.skip(i + 1)));
            }
            start = i + 1;
        }
        i += 1;
    }
    if start < chars.len() {
        let ghost rest = text@.skip(start as int);
        let ghost before = texts(lines@);
        lines.push(string_of(&chars, start, chars.len()));
        proof {
            lemma_prefix_len_is(rest, not_newline(), rest.len());
            assert(rest =~= text@.subrange(start as int, text@.len() as int));
            assert(texts(lines@) =~= before.push(rest));
            assert(before + seq![rest] =~= before.push(rest));
        }
    } else {
        assert(texts(lines@) + seq![] =~= texts(lines@));
    }
    lines
}

/// Removes the white space at both ends of a text.
pub fn trim(text: &str) -> (r: String)
    ensures
        r@ == trimmed(text@),
{
    let chars = chars_of(text);
    let mut lo: usize = 0;
    while lo < chars.len() && is_whitespace(chars[lo])
        invariant
            lo <= chars@.len(),
            forall|j: int| 0 <= j < lo ==> is_white_space(#[trigger] chars@[j]),
        decreases chars@.len() - lo,
    {
        lo += 1;
    }
    let mut hi: usize = chars.len();
    while hi > lo && is_whitespace(chars[hi - 1])
        invariant
            lo <= hi <= chars@.len(),
            forall|j: int| hi <= j < chars@.len() ==> is_white_space(#[trigger] chars@[j]),
        decreases hi,
    {
        hi -= 1;
    }
    proof {
        lemma_prefix_len_is(text@, white_space(), lo as nat);
        let rest = text@.skip(lo as int);
        let n = (chars@.len() - hi) as nat;
        assert forall|i: int| rest.len() - n <= i < rest.len() implies white_space()(
            #[trigger] rest[i],
        ) by {
            assert(rest[i] == chars@[lo + i]);
        }
        lemma_suffix_len_is(rest, white_space(), n);
        assert(rest.take(rest.len() - n) =~= chars@.subrange(lo as int, hi as int));
    }
    string_of(&chars, lo, hi)
}

// ---------------------------------------------------------------------------
// Lowercase
// ---------------------------------------------------------------------------

/// The lowercase of an ASCII letter; any other character is kept.
pub open spec fn ascii_lower(c: char) -> char {
    if is_capital(c) {
        ((c as u32) + 32) as char
    } else {
        c
    }
}

/// `s` with its ASCII letters in lowercase.
pub open spec fn ascii_lowercase(s: Seq<char>) -> Seq<char> {
    s.map_values(|c: char| ascii_lower(c))
}

/// The characters whose lowercase is ASCII: the ASCII characters themselves,
/// and U+212A, KELVIN SIGN.
pub open spec fn lowers_to_ascii(c: char) -> bool {
    is_ascii_char(c) || c == '\u{212a}'
}

/// The lowercase of such a character; any other character is kept. The
/// lowercase of the Kelvin sign is `k`.
pub open spec fn lower_char(c: char) -> char {
    if c == '\u{212a}' {
        'k'
    } else {
        ascii_lower(c)
    }
}

/// `s` with `lower_char` taken of each character.
pub open spec fn lower_text(s: Seq<char>) -> Seq<char> {
    s.map_values(|c: char| lower_char(c))
}

/// The lowercase of every character of `s` is ASCII.
pub open spec fn all_lower_to_ascii(s: Seq<char>) -> bool {
    forall|i: int| 0 <= i < s.len() ==> lowers_to_ascii(#[trigger] s[i])
}

/// The result of `str::to_lowercase`.
pub uninterp spec fn unicode_lowercase(s: Seq<char>) -> Seq<char>;

/// `str::to_lowercase`: the Unicode lowercase of `s`, which depends on `s`
/// alone. Of all characters outside ASCII only U+212A, KELVIN SIGN, has a
/// lowercase in ASCII, which is `k`. So a text of ASCII characters and Kelvin
/// signs is put in lowercase character by character, and the lowercase of any
/// other text holds a character outside ASCII. What the lowercase of other
/// characters is remains unsaid.
#[verifier::external_body]
pub(crate) fn to_lowercase(s: &str) -> (r: String)
    ensures
        r@ == unicode_lowercase(s@),
        all_lower_to_ascii(s@) ==> r@ == lower_text(s@),
        !all_lower_to_ascii(s@) ==> !all_ascii(r@),
{
    s.to_lowercase()
}

// ---------------------------------------------------------------------------
// Quotation marks
// ---------------------------------------------------------------------------

/// The ASCII form of a typographic quotation mark; any other character is
/// kept.
pub open spec fn plain_quote(c: char) -> char {
    if c == '\u{2018}' || c == '\u{2019}' || c == '\u{2bc}' || c == '`' {
        '\''
    } else if c == '\u{201c}' || c == '\u{201d}' {
        '"'
    } else {
        c
    }
}

/// `s` with its quotation marks in ASCII.
pub open spec fn normalized(s: Seq<char>) -> Seq<char> {
    s.map_values(|c: char| plain_quote(c))
}

/// Replaces typographic quotation marks, and the grave accent, by the ASCII
/// apostrophe and double quote.
pub fn normalize(text: &str) -> (r: String)
    ensures
        r@ == normalized(text@),
{
    let mut r = String::new();
    for ch in iter: text.chars()
        invariant
            iter.seq() == text@,
            r@ == normalized(text@.take(iter.index() as int)),
    {
        let plain = if ch == '\u{2018}' || ch == '\u{2019}' || ch == '\u{2bc}' || ch == '`' {
            '\''
        } else if ch == '\u{201c}' || ch == '\u{201d}' {
            '"'
        } else {
            ch
        };
        r.push(plain);
        assert(normalized(text@.take(iter.index() + 1)) =~= normalized(
            text@.take(iter.index() as int),
        ).push(plain_quote(ch)));
    }
    assert(text@.take(text@.len() as int) =~= text@);
    r
}

} // verus!
