//! The fixed part of the vocabulary. The order of the lists determines token
//! ids.
use crate::stream::is_punct;
use crate::text::{
    all_ascii_alphabetic, all_letters, all_lower_to_ascii, all_small_letters, chars_of,
    is_ascii_char, is_letter, is_small_letter, lower_text, lowers_to_ascii, to_lowercase, trim,
    trimmed,
};
use vstd::prelude::*;

verus! {

/// The punctuation tokens.
pub const PUNCT_TOKENS: [&'static str; 8] = [".", ",", "'", "\"", "?", "!", "(", ")"];

/// The token of one space.
pub const SPACE_TOKEN: &'static str = " ";

/// The token of one line break.
pub const NEWLINE_TOKEN: &'static str = "\n";

/// The contraction suffixes that are tokens of their own.
pub const CONTRACTION_SUFFIXES: [&'static str; 1] = ["'s"];

/// Whole contractions, in a fixed order so that ids are always deterministic.
pub const WHOLE_CONTRACTIONS: [&'static str; 34] = [
    // negatives
    "aren't", "can't", "couldn't",
    "didn't", "doesn't", "don't",
    "haven't", "isn't",
    "shouldn't", "wasn't", "weren't",
    "won't", "wouldn't",
    // be
    "i'm", "you're", "he's", "she's", "it's", "we're", "they're",
    // have
    "i've", "you've", "we've", "they've",
    // will
    "i'll", "you'll", "he'll", "she'll", "it'll", "we'll", "they'll",
    // would / had
    "i'd", "you'd",
    // miscellaneous
    "let's",
];

/// The special tokens, which come last.
pub const SPECIAL_TOKENS: [&'static str; 10] = [
    "<|bos|>",
    "<|unk|>",
    "<|mask|>",
    "<|unused|>",
    "<|user_start|>",
    "<|user_end|>",
    "<|assistant_start|>",
    "<|assistant_end|>",
    "<|output_start|>",
    "<|output_end|>",
];

/// The texts of a list of string slices.
pub open spec fn slices(strings: Seq<&str>) -> Seq<Seq<char>> {
    strings.map_values(|s: &str| s@)
}

/// The fixed tokens: punctuation, space, line break, contraction suffixes.
pub open spec fn fixed_tokens() -> Seq<Seq<char>> {
    slices(PUNCT_TOKENS@) + seq![SPACE_TOKEN@, NEWLINE_TOKEN@] + slices(CONTRACTION_SUFFIXES@)
}

/// The whole contractions.
pub open spec fn whole_contractions() -> Seq<Seq<char>> {
    slices(WHOLE_CONTRACTIONS@)
}

/// The special tokens.
pub open spec fn special_tokens() -> Seq<Seq<char>> {
    slices(SPECIAL_TOKENS@)
}

/// Whether a text is a whole contraction.
pub open spec fn is_whole_contraction(s: Seq<char>) -> bool {
    whole_contractions().contains(s)
}

// ---------------------------------------------------------------------------
// The word list
// ---------------------------------------------------------------------------

/// The word itself, if it is made of ASCII letters.
pub open spec fn letters_only(word: Seq<char>) -> Option<Seq<char>> {
    if all_letters(word) {
        Some(word)
    } else {
        None
    }
}

/// The word that a line of the word list adds, if any. White space around the
/// word does not count, nor does its case. A blank line adds none, nor does
/// one that starts with `#`, nor a word that is not made of ASCII letters.
pub open spec fn accepted_word(line: Seq<char>) -> Option<Seq<char>> {
    let word = trimmed(line);
    if word.len() == 0 || word[0] == '#' {
        None
    } else {
        letters_only(lower_text(word))
    }
}

/// Keeps a word in lowercase if it is made of ASCII letters.
pub fn accept_lowered(lower: String) -> (r: Option<String>)
    ensures
        r == match letters_only(lower@) {
            Some(_) => Some(lower),
            None => None,
        },
{
    let letters = chars_of(lower.as_str());
    if all_ascii_alphabetic(&letters) {
        Some(lower)
    } else {
        None
    }
}

/// The lowercase of a text is in letters only where each of its characters
/// has a lowercase in ASCII, and letters in lowercase are small.
proof fn lemma_lower_text(s: Seq<char>)
    ensures
        !all_lower_to_ascii(s) ==> !all_letters(lower_text(s)),
        all_letters(lower_text(s)) ==> all_small_letters(lower_text(s)),
{
    let lower = lower_text(s);
    if all_letters(lower) {
        assert forall|i: int| 0 <= i < s.len() implies lowers_to_ascii(#[trigger] s[i]) by {
            assert(is_letter(lower[i]));
        }
        assert forall|i: int| 0 <= i < s.len() implies is_small_letter(#[trigger] lower[i]) by {
            assert(is_letter(lower[i]));
        }
    }
}

/// The word that a line of the word list adds, if any, in small letters.
pub fn accept_line(line: &str) -> (r: Option<String>)
    ensures
        r is Some <==> accepted_word(line@) is Some,
        r matches Some(word) ==> accepted_word(line@) == Some(word@),
{
    let word = trim(line);
    let chars = chars_of(word.as_str());
    if chars.len() == 0 || chars[0] == '#' {
        return None;
    }
    let lower = to_lowercase(word.as_str());
    proof {
        lemma_lower_text(word@);
        if !all_lower_to_ascii(word@) {
            if all_letters(lower@) {
                assert forall|i: int| 0 <= i < lower@.len() implies is_ascii_char(
                    #[trigger] lower@[i],
                ) by {
                    assert(is_letter(lower@[i]));
                }
            }
        }
    }
    accept_lowered(lower)
}

/// The words of a word list, each where it first occurs.
pub open spec fn listed_words(lines: Seq<Seq<char>>) -> Seq<Seq<char>>
    decreases lines.len(),
{
    if lines.len() == 0 {
        seq![]
    } else {
        let known = listed_words(lines.drop_last());
        match accepted_word(lines.last()) {
            Some(word) => if known.contains(word) {
                known
            } else {
                known.push(word)
            },
            None => known,
        }
    }
}

/// The tokens in the order of their ids: the fixed tokens, the whole
/// contractions, the listed words, the special tokens.
pub open spec fn vocabulary(lines: Seq<Seq<char>>) -> Seq<Seq<char>> {
    fixed_tokens() + whole_contractions() + listed_words(lines) + special_tokens()
}

// ---------------------------------------------------------------------------
// The tokens are distinct
// ---------------------------------------------------------------------------

/// The shape that sets the fixed tokens apart: at most two characters, the
/// first of them no letter and no `<`.
spec fn fixed_shape(s: Seq<char>) -> bool {
    1 <= s.len() <= 2 && !is_letter(s[0]) && s[0] != '<'
}

/// The shape of a contraction: small letters other than `k` and apostrophes,
/// with letters at both ends and an apostrophe near the end.
pub open spec fn contraction_shape(s: Seq<char>) -> bool {
    &&& s.len() >= 3
    &&& 'a' <= s[0] <= 'z'
    &&& 'a' <= s[s.len() - 1] <= 'z'
    &&& s[s.len() - 2] == '\'' || s[s.len() - 3] == '\''
    &&& forall|i: int|
        0 <= i < s.len() ==> #[trigger] s[i] == '\'' || ('a' <= s[i] <= 'z' && s[i] != 'k')
}

/// The shape of a special token: a long text that begins with `<`.
spec fn special_shape(s: Seq<char>) -> bool {
    s.len() >= 7 && s[0] == '<'
}

/// The position of a fixed token, read off its length and first character.
spec fn fixed_rank(s: Seq<char>) -> int {
    let c = s[0];
    if s.len() == 1 && c == '.' {
        0
    } else if s.len() == 1 && c == ',' {
        1
    } else if s.len() == 1 && c == '\'' {
        2
    } else if s.len() == 1 && c == '"' {
        3
    } else if s.len() == 1 && c == '?' {
        4
    } else if s.len() == 1 && c == '!' {
        5
    } else if s.len() == 1 && c == '(' {
        6
    } else if s.len() == 1 && c == ')' {
        7
    } else if s.len() == 1 && c == ' ' {
        8
    } else if s.len() == 1 && c == '\n' {
        9
    } else if s.len() == 2 && c == '\'' {
        10
    } else {
        -1
    }
}

/// The position of a contraction, read off three of its characters.
spec fn contraction_rank(s: Seq<char>) -> int {
    let a = s[0];
    let b = s[2];
    let c = s[s.len() - 2];
    if a == 'a' && b == 'e' && c == '\'' {
        0
    } else if a == 'c' && b == 'n' && c == '\'' {
        1
    } else if a == 'c' && b == 'u' && c == '\'' {
        2
    } else if a == 'd' && b == 'd' && c == '\'' {
        3
    } else if a == 'd' && b == 'e' && c == '\'' {
        4
    } else if a == 'd' && b == 'n' && c == '\'' {
        5
    } else if a == 'h' && b == 'v' && c == '\'' {
        6
    } else if a == 'i' && b == 'n' && c == '\'' {
        7
    } else if a == 's' && b == 'o' && c == '\'' {
        8
    } else if a == 'w' && b == 's' && c == '\'' {
        9
    } else if a == 'w' && b == 'r' && c == '\'' {
        10
    } else if a == 'w' && b == 'n' && c == '\'' {
        11
    } else if a == 'w' && b == 'u' && c == '\'' {
        12
    } else if a == 'i' && b == 'm' && c == '\'' {
        13
    } else if a == 'y' && b == 'u' && c == 'r' {
        14
    } else if a == 'h' && b == '\'' && c == '\'' {
        15
    } else if a == 's' && b == 'e' && c == '\'' {
        16
    } else if a == 'i' && b == '\'' && c == '\'' {
        17
    } else if a == 'w' && b == '\'' && c == 'r' {
        18
    } else if a == 't' && b == 'e' && c == 'r' {
        19
    } else if a == 'i' && b == 'v' && c == 'v' {
        20
    } else if a == 'y' && b == 'u' && c == 'v' {
        21
    } else if a == 'w' && b == '\'' && c == 'v' {
        22
    } else if a == 't' && b == 'e' && c == 'v' {
        23
    } else if a == 'i' && b == 'l' && c == 'l' {
        24
    } else if a == 'y' && b == 'u' && c == 'l' {
        25
    } else if a == 'h' && b == '\'' && c == 'l' {
        26
    } else if a == 's' && b == 'e' && c == 'l' {
        27
    } else if a == 'i' && b == '\'' && c == 'l' {
        28
    } else if a == 'w' && b == '\'' && c == 'l' {
        29
    } else if a == 't' && b == 'e' && c == 'l' {
        30
    } else if a == 'i' && b == 'd' && c == '\'' {
        31
    } else if a == 'y' && b == 'u' && c == '\'' {
        32
    } else if a == 'l' && b == 't' && c == '\'' {
        33
    } else {
        -1
    }
}

/// The position of a special token, read off its length and third character.
spec fn special_rank(s: Seq<char>) -> int {
    let c = s[2];
    if s.len() == 7 && c == 'b' {
        0
    } else if s.len() == 7 && c == 'u' {
        1
    } else if s.len() == 8 && c == 'm' {
        2
    } else if s.len() == 10 && c == 'u' {
        3
    } else if s.len() == 14 && c == 'u' {
        4
    } else if s.len() == 12 && c == 'u' {
        5
    } else if s.len() == 19 && c == 'a' {
        6
    } else if s.len() == 17 && c == 'a' {
        7
    } else if s.len() == 16 && c == 'o' {
        8
    } else if s.len() == 14 && c == 'o' {
        9
    } else {
        -1
    }
}

/// Each fixed token has its shape and its rank.
proof fn lemma_fixed_token(i: int)
    requires
        0 <= i < 11,
    ensures
        fixed_tokens().len() == 11,
        fixed_shape(fixed_tokens()[i]),
        fixed_rank(fixed_tokens()[i]) == i,
{
    let s = fixed_tokens()[i];
    if i == 0 {
        reveal_strlit(".");
        assert(s == "."@);
    } else if i == 1 {
        reveal_strlit(",");
        assert(s == ","@);
    } else if i == 2 {
        reveal_strlit("'");
        assert(s == "'"@);
    } else if i == 3 {
        reveal_strlit("\"");
        assert(s == "\""@);
    } else if i == 4 {
        reveal_strlit("?");
        assert(s == "?"@);
    } else if i == 5 {
        reveal_strlit("!");
        assert(s == "!"@);
    } else if i == 6 {
        reveal_strlit("(");
        assert(s == "("@);
    } else if i == 7 {
        reveal_strlit(")");
        assert(s == ")"@);
    } else if i == 8 {
        reveal_strlit(" ");
        assert(s == " "@);
    } else if i == 9 {
        reveal_strlit("\n");
        assert(s == "\n"@);
    } else if i == 10 {
        reveal_strlit("'s");
        assert(s == "'s"@);
    }
}

/// Each contraction has its shape and its rank.
proof fn lemma_contraction(i: int)
    requires
        0 <= i < 34,
    ensures
        whole_contractions().len() == 34,
        contraction_shape(whole_contractions()[i]),
        contraction_rank(whole_contractions()[i]) == i,
{
    let s = whole_contractions()[i];
    if i == 0 {
        reveal_strlit("aren't");
        assert(s == "aren't"@);
    } else if i == 1 {
        reveal_strlit("can't");
        assert(s == "can't"@);
    } else if i == 2 {
        reveal_strlit("couldn't");
        assert(s == "couldn't"@);
    } else if i == 3 {
        reveal_strlit("didn't");
        assert(s == "didn't"@);
    } else if i == 4 {
        reveal_strlit("doesn't");
        assert(s == "doesn't"@);
    } else if i == 5 {
        reveal_strlit("don't");
        assert(s == "don't"@);
    } else if i == 6 {
        reveal_strlit("haven't");
        assert(s == "haven't"@);
    } else if i == 7 {
        reveal_strlit("isn't");
        assert(s == "isn't"@);
    } else if i == 8 {
        reveal_strlit("shouldn't");
        assert(s == "shouldn't"@);
    } else if i == 9 {
        reveal_strlit("wasn't");
        assert(s == "wasn't"@);
    } else if i == 10 {
        reveal_strlit("weren't");
        assert(s == "weren't"@);
    } else if i == 11 {
        reveal_strlit("won't");
        assert(s == "won't"@);
    } else if i == 12 {
        reveal_strlit("wouldn't");
        assert(s == "wouldn't"@);
    } else if i == 13 {
        reveal_strlit("i'm");
        assert(s == "i'm"@);
    } else if i == 14 {
        reveal_strlit("you're");
        assert(s == "you're"@);
    } else if i == 15 {
        reveal_strlit("he's");
        assert(s == "he's"@);
    } else if i == 16 {
        reveal_strlit("she's");
        assert(s == "she's"@);
    } else if i == 17 {
        reveal_strlit("it's");
        assert(s == "it's"@);
    } else if i == 18 {
        reveal_strlit("we're");
        assert(s == "we're"@);
    } else if i == 19 {
        reveal_strlit("they're");
        assert(s == "they're"@);
    } else if i == 20 {
        reveal_strlit("i've");
        assert(s == "i've"@);
    } else if i == 21 {
        reveal_strlit("you've");
        assert(s == "you've"@);
    } else if i == 22 {
        reveal_strlit("we've");
        assert(s == "we've"@);
    } else if i == 23 {
        reveal_strlit("they've");
        assert(s == "they've"@);
    } else if i == 24 {
        reveal_strlit("i'll");
        assert(s == "i'll"@);
    } else if i == 25 {
        reveal_strlit("you'll");
        assert(s == "you'll"@);
    } else if i == 26 {
        reveal_strlit("he'll");
        assert(s == "he'll"@);
    } else if i == 27 {
        reveal_strlit("she'll");
        assert(s == "she'll"@);
    } else if i == 28 {
        reveal_strlit("it'll");
        assert(s == "it'll"@);
    } else if i == 29 {
        reveal_strlit("we'll");
        assert(s == "we'll"@);
    } else if i == 30 {
        reveal_strlit("they'll");
        assert(s == "they'll"@);
    } else if i == 31 {
        reveal_strlit("i'd");
        assert(s == "i'd"@);
    } else if i == 32 {
        reveal_strlit("you'd");
        assert(s == "you'd"@);
    } else if i == 33 {
        reveal_strlit("let's");
        assert(s == "let's"@);
    }
}

/// Each special token has its shape and its rank.
proof fn lemma_special_token(i: int)
    requires
        0 <= i < 10,
    ensures
        special_tokens().len() == 10,
        special_shape(special_tokens()[i]),
        special_rank(special_tokens()[i]) == i,
{
    let s = special_tokens()[i];
    if i == 0 {
        reveal_strlit("<|bos|>");
        assert(s == "<|bos|>"@);
    } else if i == 1 {
        reveal_strlit("<|unk|>");
        assert(s == "<|unk|>"@);
    } else if i == 2 {
        reveal_strlit("<|mask|>");
        assert(s == "<|mask|>"@);
    } else if i == 3 {
        reveal_strlit("<|unused|>");
        assert(s == "<|unused|>"@);
    } else if i == 4 {
        reveal_strlit("<|user_start|>");
        assert(s == "<|user_start|>"@);
    } else if i == 5 {
        reveal_strlit("<|user_end|>");
        assert(s == "<|user_end|>"@);
    } else if i == 6 {
        reveal_strlit("<|assistant_start|>");
        assert(s == "<|assistant_start|>"@);
    } else if i == 7 {
        reveal_strlit("<|assistant_end|>");
        assert(s == "<|assistant_end|>"@);
    } else if i == 8 {
        reveal_strlit("<|output_start|>");
        assert(s == "<|output_start|>"@);
    } else if i == 9 {
        reveal_strlit("<|output_end|>");
        assert(s == "<|output_end|>"@);
    }
}

/// The listed words are made of small letters, at least one each, and no word
/// is listed twice.
pub proof fn lemma_listed_words(lines: Seq<Seq<char>>)
    ensures
        listed_words(lines).no_duplicates(),
        forall|i: int|
            0 <= i < listed_words(lines).len() ==> (#[trigger] listed_words(lines)[i]).len() > 0
                && all_letters(listed_words(lines)[i]) && all_small_letters(listed_words(lines)[i]),
    decreases lines.len(),
{
    if lines.len() > 0 {
        lemma_listed_words(lines.drop_last());
        lemma_lower_text(trimmed(lines.last()));
        let known = listed_words(lines.drop_last());
        if let Some(word) = accepted_word(lines.last()) {
            if !known.contains(word) {
                let more = known.push(word);
                assert forall|i: int, j: int|
                    0 <= i < more.len() && 0 <= j < more.len() && i != j implies more[i]
                    != more[j] by {
                    if i == known.len() {
                        assert(more[j] == known[j]);
                    } else if j == known.len() {
                        assert(more[i] == known[i]);
                    }
                }
            }
        }
    }
}

/// More lines list at least as many words.
pub proof fn lemma_listed_words_grow(lines: Seq<Seq<char>>, n: int)
    requires
        0 <= n <= lines.len(),
    ensures
        listed_words(lines.take(n)).len() <= listed_words(lines).len(),
    decreases lines.len() - n,
{
    if n < lines.len() {
        lemma_listed_words_grow(lines, n + 1);
        assert(lines.take(n + 1).drop_last() =~= lines.take(n));
    } else {
        assert(lines.take(n) =~= lines);
    }
}

/// Each whole contraction has the shape of one.
pub proof fn lemma_contraction_shape(s: Seq<char>)
    requires
        is_whole_contraction(s),
    ensures
        contraction_shape(s),
{
    lemma_contraction(0);
    lemma_contraction(whole_contractions().index_of(s));
}

/// No token occurs twice in the vocabulary, whatever the word list.
pub proof fn lemma_vocabulary_distinct(lines: Seq<Seq<char>>)
    ensures
        fixed_tokens().len() == 11,
        whole_contractions().len() == 34,
        special_tokens().len() == 10,
        vocabulary(lines).no_duplicates(),
{
    lemma_fixed_token(0);
    lemma_contraction(0);
    lemma_special_token(0);
    lemma_listed_words(lines);
    let v = vocabulary(lines);
    let words = listed_words(lines);
    let m = 45 + words.len();
    assert forall|i: int, j: int|
        0 <= i < v.len() && 0 <= j < v.len() && i != j implies v[i] != v[j] by {
        lemma_token_shape(lines, i);
        lemma_token_shape(lines, j);
        if v[i] == v[j] {
            assert((i < 11) == (j < 11));
            assert((11 <= i < 45) == (11 <= j < 45));
            assert((m <= i) == (m <= j));
            if 45 <= i < m {
                assert(words[i - 45] == v[i]);
                assert(words[j - 45] == v[j]);
            }
        }
    }
}

/// What the place of a token in the vocabulary says of its text.
proof fn lemma_token_shape(lines: Seq<Seq<char>>, i: int)
    requires
        0 <= i < vocabulary(lines).len(),
    ensures
        ({
            let s = vocabulary(lines)[i];
            let m = 45 + listed_words(lines).len();
            &&& i < 11 ==> fixed_shape(s) && fixed_rank(s) == i
            &&& 11 <= i < 45 ==> contraction_shape(s) && contraction_rank(s) == i - 11
            &&& 45 <= i < m ==> all_letters(s)
            &&& m <= i ==> special_shape(s) && special_rank(s) == i - m
            &&& vocabulary(lines).len() == m + 10
        }),
{
    lemma_fixed_token(0);
    lemma_contraction(0);
    lemma_special_token(0);
    lemma_listed_words(lines);
    let s = vocabulary(lines)[i];
    let m = 45 + listed_words(lines).len();
    if i < 11 {
        lemma_fixed_token(i);
        assert(s == fixed_tokens()[i]);
    } else if i < 45 {
        lemma_contraction(i - 11);
        assert(s == whole_contractions()[i - 11]);
    } else if i < m {
        assert(s == listed_words(lines)[i - 45]);
    } else {
        lemma_special_token(i - m);
        assert(s == special_tokens()[i - m]);
    }
}

/// A token that begins with a small letter is neither fixed nor special.
pub proof fn lemma_letter_token(lines: Seq<Seq<char>>, i: int)
    requires
        0 <= i < vocabulary(lines).len(),
        vocabulary(lines)[i].len() > 0,
        is_small_letter(vocabulary(lines)[i][0]),
    ensures
        fixed_tokens().len() <= i < vocabulary(lines).len() - special_tokens().len(),
{
    lemma_token_shape(lines, i);
    lemma_vocabulary_distinct(lines);
}

/// Of the texts in letters just the listed words are tokens.
pub proof fn lemma_letters_token(lines: Seq<Seq<char>>, word: Seq<char>)
    requires
        word.len() > 0,
        all_letters(word),
    ensures
        vocabulary(lines).contains(word) <==> listed_words(lines).contains(word),
{
    lemma_vocabulary_distinct(lines);
    let base = fixed_tokens().len() + whole_contractions().len();
    if vocabulary(lines).contains(word) {
        let i = vocabulary(lines).index_of(word);
        lemma_token_shape(lines, i);
        assert(is_letter(word[0]));
        if 11 <= i < 45 {
            assert(is_letter(word[word.len() - 2]));
            assert(is_letter(word[word.len() - 3]));
        }
        assert(listed_words(lines)[i - base] == word);
    }
    if listed_words(lines).contains(word) {
        let i = listed_words(lines).index_of(word);
        assert(vocabulary(lines)[base + i] == word);
    }
}

/// The place of a punctuation character among the fixed tokens.
spec fn punct_place(c: char) -> int {
    if c == '.' {
        0
    } else if c == ',' {
        1
    } else if c == '\'' {
        2
    } else if c == '"' {
        3
    } else if c == '?' {
        4
    } else if c == '!' {
        5
    } else if c == '(' {
        6
    } else {
        7
    }
}

/// Each punctuation character is a fixed token.
pub proof fn lemma_punct_token(c: char)
    requires
        is_punct(c),
    ensures
        exists|k: int|
            0 <= k < PUNCT_TOKENS@.len() && #[trigger] fixed_tokens()[k] == seq![c],
{
    let k = punct_place(c);
    let s = fixed_tokens()[k];
    lemma_fixed_token(k);
    assert(s == PUNCT_TOKENS@[k]@);
    reveal_strlit(".");
    reveal_strlit(",");
    reveal_strlit("'");
    reveal_strlit("\"");
    reveal_strlit("?");
    reveal_strlit("!");
    reveal_strlit("(");
    reveal_strlit(")");
    assert(s =~= seq![c]);
}

/// The other fixed tokens, character by character.
pub proof fn lemma_white_tokens()
    ensures
        fixed_tokens().len() == 11,
        fixed_tokens()[8] == seq![' '],
        fixed_tokens()[9] == seq!['\n'],
        fixed_tokens()[10] == seq!['\'', 's'],
{
    reveal_strlit(" ");
    reveal_strlit("\n");
    reveal_strlit("'s");
    lemma_fixed_token(0);
    assert(fixed_tokens()[8] == SPACE_TOKEN@);
    assert(fixed_tokens()[8] =~= seq![' ']);
    assert(fixed_tokens()[9] == NEWLINE_TOKEN@);
    assert(fixed_tokens()[9] =~= seq!['\n']);
    assert(fixed_tokens()[10] == CONTRACTION_SUFFIXES@[0]@);
    assert(fixed_tokens()[10] =~= seq!['\'', 's']);
}

} // verus!
