//! Laws of the vocabulary and its ids.
use crate::laws::texts::law_trim;
use crate::text::{
    all_small_letters, ascii_lowercase, is_letter, is_white_space, lower_char, lower_text, trimmed,
};
use crate::tokenizer::WhitelistTokenizer;
use crate::vocab::{
    accepted_word, fixed_tokens, is_whole_contraction, lemma_listed_words,
    lemma_vocabulary_distinct, listed_words, special_tokens, vocabulary, whole_contractions,
    NEWLINE_TOKEN, SPACE_TOKEN, SPECIAL_TOKENS, WHOLE_CONTRACTIONS,
};
use vstd::prelude::*;

verus! {

/// Ids and tokens determine each other: a token has an id exactly if the id
/// is the place of the token in the vocabulary.
pub proof fn law_ids_are_places(
    tok: WhitelistTokenizer,
    lines: Seq<Seq<char>>,
    token: Seq<char>,
    id: u32,
)
    requires
        tok.built_from(lines),
    ensures
        tok.word_ids@.contains_key(token) && tok.word_ids@[token] == id <==> id
            < tok.words().len() && tok.words()[id as int] == token,
{
    let words = tok.words();
    if tok.word_ids@.contains_key(token) {
        let i = words.index_of(token);
        assert(tok.word_ids@[words[i]] == i);
    }
    if id < words.len() && words[id as int] == token {
        assert(words.contains(token));
        assert(tok.word_ids@[words[id as int]] == id as int);
    }
}

/// No token has two ids.
pub proof fn law_tokens_are_distinct(tok: WhitelistTokenizer, lines: Seq<Seq<char>>)
    requires
        tok.built_from(lines),
    ensures
        tok.words().no_duplicates(),
{
    lemma_vocabulary_distinct(lines);
}

/// The layout of ids: the fixed tokens come first, below `n_fixed`; then the
/// whole contractions; then the listed words; the special tokens are the
/// last, and have the same ids under their names.
pub proof fn law_id_layout(tok: WhitelistTokenizer, lines: Seq<Seq<char>>)
    requires
        tok.built_from(lines),
    ensures
        ({
            let fixed = fixed_tokens();
            let whole = whole_contractions();
            let listed = listed_words(lines);
            let special = special_tokens();
            let base = (tok.words().len() - special.len()) as int;
            &&& tok.n_fixed == fixed.len()
            &&& base == fixed.len() + whole.len() + listed.len()
            &&& forall|i: int|
                0 <= i < fixed.len() ==> tok.word_ids@.contains_key(fixed[i])
                    && tok.word_ids@[#[trigger] fixed[i]] == i
            &&& forall|i: int|
                0 <= i < whole.len() ==> tok.word_ids@.contains_key(whole[i])
                    && tok.word_ids@[#[trigger] whole[i]] == fixed.len() + i
            &&& forall|i: int|
                0 <= i < listed.len() ==> tok.word_ids@.contains_key(listed[i])
                    && tok.word_ids@[#[trigger] listed[i]] == fixed.len() + whole.len() + i
            &&& forall|i: int|
                0 <= i < special.len() ==> tok.word_ids@.contains_key(special[i])
                    && tok.word_ids@[#[trigger] special[i]] == base + i
                    && tok.special_ids@.contains_key(special[i])
                    && tok.special_ids@[special[i]] == base + i
        }),
{
    let fixed = fixed_tokens();
    let whole = whole_contractions();
    let listed = listed_words(lines);
    let special = special_tokens();
    let words = tok.words();
    let base = (words.len() - special.len()) as int;
    assert forall|i: int| 0 <= i < words.len() implies tok.word_ids@.contains_key(words[i])
        && tok.word_ids@[#[trigger] words[i]] == i by {
        assert(words.contains(words[i]));
    }
    assert forall|i: int| 0 <= i < fixed.len() implies tok.word_ids@.contains_key(fixed[i])
        && tok.word_ids@[#[trigger] fixed[i]] == i by {
        assert(words[i] == fixed[i]);
    }
    assert forall|i: int| 0 <= i < whole.len() implies tok.word_ids@.contains_key(whole[i])
        && tok.word_ids@[#[trigger] whole[i]] == fixed.len() + i by {
        assert(words[fixed.len() + i] == whole[i]);
    }
    assert forall|i: int| 0 <= i < listed.len() implies tok.word_ids@.contains_key(listed[i])
        && tok.word_ids@[#[trigger] listed[i]] == fixed.len() + whole.len() + i by {
        assert(words[fixed.len() + whole.len() + i] == listed[i]);
    }
    assert forall|i: int| 0 <= i < special.len() implies tok.word_ids@.contains_key(special[i])
        && tok.word_ids@[#[trigger] special[i]] == base + i && tok.special_ids@.contains_key(
        special[i],
    ) && tok.special_ids@[special[i]] == base + i by {
        assert(words[base + i] == special[i]);
        assert(special.contains(special[i]));
    }
}

/// The ids that have a name are those of the tokens that the name is for, and
/// no other token has a special id.
pub proof fn law_named_ids(tok: WhitelistTokenizer, lines: Seq<Seq<char>>, name: Seq<char>)
    requires
        tok.built_from(lines),
    ensures
        tok.words()[tok.space_id as int] == " "@,
        tok.words()[tok.newline_id as int] == "\n"@,
        tok.words()[tok.bos_id as int] == "<|bos|>"@,
        tok.words()[tok.unk_id as int] == "<|unk|>"@,
        tok.words()[tok.mask_id as int] == "<|mask|>"@,
        tok.mask_id < tok.words().len(),
        tok.special_ids@.contains_key(name) <==> exists|i: int|
            0 <= i < SPECIAL_TOKENS@.len() && #[trigger] SPECIAL_TOKENS@[i]@ == name,
{
    lemma_vocabulary_distinct(lines);
    let words = tok.words();
    let special = special_tokens();
    let base = words.len() - special.len();
    assert(words[8] == SPACE_TOKEN@);
    assert(words[9] == NEWLINE_TOKEN@);
    assert(words[base] == special[0]);
    assert(words[base + 1] == special[1]);
    assert(words[base + 2] == special[2]);
    if special.contains(name) {
        let i = special.index_of(name);
        assert(SPECIAL_TOKENS@[i]@ == name);
    }
    if exists|i: int| 0 <= i < SPECIAL_TOKENS@.len() && #[trigger] SPECIAL_TOKENS@[i]@ == name {
        let i = choose|i: int|
            0 <= i < SPECIAL_TOKENS@.len() && #[trigger] SPECIAL_TOKENS@[i]@ == name;
        assert(special[i] == name);
    }
}

/// A text is a whole contraction exactly if it is in the list of them.
pub proof fn law_whole_contractions(s: Seq<char>)
    ensures
        is_whole_contraction(s) <==> exists|i: int|
            0 <= i < WHOLE_CONTRACTIONS@.len() && #[trigger] WHOLE_CONTRACTIONS@[i]@ == s,
{
    let whole = whole_contractions();
    if whole.contains(s) {
        let i = whole.index_of(s);
        assert(WHOLE_CONTRACTIONS@[i]@ == s);
    }
    if exists|i: int|
        0 <= i < WHOLE_CONTRACTIONS@.len() && #[trigger] WHOLE_CONTRACTIONS@[i]@ == s {
        let i = choose|i: int|
            0 <= i < WHOLE_CONTRACTIONS@.len() && #[trigger] WHOLE_CONTRACTIONS@[i]@ == s;
        assert(whole[i] == s);
    }
}

/// Ids are deterministic: two tokenizers of the same word list agree in every
/// id, and so in what they encode and decode.
pub proof fn law_ids_are_deterministic(
    a: WhitelistTokenizer,
    b: WhitelistTokenizer,
    lines: Seq<Seq<char>>,
)
    requires
        a.built_from(lines),
        b.built_from(lines),
    ensures
        a.words() == b.words(),
        a.word_ids@ == b.word_ids@,
        a.special_ids@ == b.special_ids@,
        a.n_fixed == b.n_fixed,
        a.space_id == b.space_id,
        a.newline_id == b.newline_id,
        a.unk_id == b.unk_id,
        a.bos_id == b.bos_id,
        a.mask_id == b.mask_id,
        forall|text: Seq<char>, prepend_bos: bool| #[trigger]
            a.encoding(text, prepend_bos) == b.encoding(text, prepend_bos),
        forall|ids: Seq<u32>| #[trigger] a.decoding(ids) == b.decoding(ids),
{
    let words = a.words();
    assert(a.word_ids@ =~= b.word_ids@) by {
        assert forall|w: Seq<char>| a.word_ids@.contains_key(w) implies a.word_ids@[w]
            == b.word_ids@[w] by {
            let i = words.index_of(w);
            assert(a.word_ids@[words[i]] == i);
            assert(b.word_ids@[words[i]] == i);
        }
        assert forall|w: Seq<char>| a.word_ids@.contains_key(w) == b.word_ids@.contains_key(
            w,
        ) by {}
    }
    let special = special_tokens();
    assert(a.special_ids@ =~= b.special_ids@) by {
        let base = words.len() - special.len();
        assert forall|w: Seq<char>| a.special_ids@.contains_key(w) implies a.special_ids@[w]
            == b.special_ids@[w] by {
            let i = special.index_of(w);
            assert(a.special_ids@[special[i]] == base + i);
            assert(b.special_ids@[special[i]] == base + i);
        }
        assert forall|w: Seq<char>| a.special_ids@.contains_key(w) == b.special_ids@.contains_key(
            w,
        ) by {}
    }
    assert forall|text: Seq<char>, prepend_bos: bool| #[trigger]
        a.encoding(text, prepend_bos) == b.encoding(text, prepend_bos) by {
        lemma_same_encoding(a, b, crate::stream::stream_of(text), false, 0);
    }
    assert forall|ids: Seq<u32>| #[trigger] a.decoding(ids) == b.decoding(ids) by {
        lemma_same_decoding(a, b, ids, false);
    }
}

proof fn lemma_same_encoding(
    a: WhitelistTokenizer,
    b: WhitelistTokenizer,
    items: Seq<crate::stream::ItemView>,
    after_word: bool,
    spaces: nat,
)
    requires
        a.word_ids@ == b.word_ids@,
        a.space_id == b.space_id,
        a.newline_id == b.newline_id,
        a.unk_id == b.unk_id,
    ensures
        a.encode_from(items, after_word, spaces) == b.encode_from(items, after_word, spaces),
    decreases items.len(),
{
    assert forall|n: nat| #[trigger] a.space_ids(n) == b.space_ids(n) by {
        assert(a.space_ids(n) =~= b.space_ids(n));
    }
    if items.len() > 0 {
        let rest = items.skip(1);
        lemma_same_encoding(a, b, rest, after_word, spaces + 1);
        lemma_same_encoding(a, b, rest, false, 0);
        lemma_same_encoding(a, b, rest, true, 0);
    }
}

proof fn lemma_same_decoding(
    a: WhitelistTokenizer,
    b: WhitelistTokenizer,
    ids: Seq<u32>,
    after_word: bool,
)
    requires
        a.words() == b.words(),
        a.n_fixed == b.n_fixed,
        a.space_id == b.space_id,
        a.newline_id == b.newline_id,
        a.unk_id == b.unk_id,
    ensures
        a.decode_from(ids, after_word) == b.decode_from(ids, after_word),
    decreases ids.len(),
{
    if ids.len() > 0 {
        lemma_same_decoding(a, b, ids.skip(1), true);
        lemma_same_decoding(a, b, ids.skip(1), false);
    }
}

/// A word is listed exactly if some line adds it.
pub proof fn law_listed_words_come_from_lines(lines: Seq<Seq<char>>, word: Seq<char>)
    ensures
        listed_words(lines).contains(word) <==> exists|i: int|
            0 <= i < lines.len() && accepted_word(#[trigger] lines[i]) == Some(word),
    decreases lines.len(),
{
    if lines.len() > 0 {
        let init = lines.drop_last();
        let known = listed_words(init);
        law_listed_words_come_from_lines(init, word);
        if listed_words(lines).contains(word) {
            if known.contains(word) {
                let i = choose|i: int|
                    0 <= i < init.len() && accepted_word(#[trigger] init[i]) == Some(word);
                assert(lines[i] == init[i]);
            } else {
                let j = listed_words(lines).index_of(word);
                assert(j == known.len());
                assert(accepted_word(lines[lines.len() - 1]) == Some(word));
            }
        }
        if exists|i: int| 0 <= i < lines.len() && accepted_word(#[trigger] lines[i]) == Some(word) {
            let i = choose|i: int|
                0 <= i < lines.len() && accepted_word(#[trigger] lines[i]) == Some(word);
            if i < init.len() {
                assert(init[i] == lines[i]);
                let j = known.index_of(word);
                assert(listed_words(lines)[j] == word);
            } else if known.contains(word) {
                assert(listed_words(lines) == known);
            } else {
                assert(listed_words(lines)[known.len() as int] == word);
            }
        }
    }
}

/// The words of a list keep their places when lines are added at the end.
proof fn lemma_listed_words_prefix(lines: Seq<Seq<char>>, more: Seq<Seq<char>>)
    ensures
        listed_words(lines).len() <= listed_words(lines + more).len(),
        forall|i: int|
            0 <= i < listed_words(lines).len() ==> listed_words(lines + more)[i]
                == #[trigger] listed_words(lines)[i],
    decreases more.len(),
{
    if more.len() == 0 {
        assert(lines + more =~= lines);
    } else {
        lemma_listed_words_prefix(lines, more.drop_last());
        assert((lines + more).drop_last() =~= lines + more.drop_last());
    }
}

/// File order is preserved: lines added at the end of a word list change no
/// id but those of the special tokens.
pub proof fn law_added_lines_keep_ids(
    a: WhitelistTokenizer,
    b: WhitelistTokenizer,
    lines: Seq<Seq<char>>,
    more: Seq<Seq<char>>,
    id: u32,
)
    requires
        a.built_from(lines),
        b.built_from(lines + more),
        id < a.words().len() - special_tokens().len(),
    ensures
        b.words().len() >= a.words().len(),
        b.words()[id as int] == a.words()[id as int],
{
    lemma_listed_words_prefix(lines, more);
    let base = fixed_tokens().len() + whole_contractions().len();
    if id >= base {
        assert(a.words()[id as int] == listed_words(lines)[id - base]);
        assert(b.words()[id as int] == listed_words(lines + more)[id - base]);
    }
}

/// A tokenizer depends on a word list through its vocabulary alone.
proof fn lemma_same_vocabulary(a: Seq<Seq<char>>, b: Seq<Seq<char>>)
    requires
        listed_words(a) == listed_words(b),
    ensures
        vocabulary(a) == vocabulary(b),
        forall|tok: WhitelistTokenizer| #[trigger] tok.built_from(a) == tok.built_from(b),
{
}

/// Two lists that list the same words still do with the same lines added.
proof fn lemma_listed_words_append(
    a: Seq<Seq<char>>,
    b: Seq<Seq<char>>,
    after: Seq<Seq<char>>,
)
    requires
        listed_words(a) == listed_words(b),
    ensures
        listed_words(a + after) == listed_words(b + after),
    decreases after.len(),
{
    if after.len() == 0 {
        assert(a + after =~= a);
        assert(b + after =~= b);
    } else {
        lemma_listed_words_append(a, b, after.drop_last());
        assert((a + after).drop_last() =~= a + after.drop_last());
        assert((b + after).drop_last() =~= b + after.drop_last());
    }
}

/// A line that adds no word (a blank line, a comment, a word that is not made
/// of ASCII letters) can be left out, wherever it stands.
pub proof fn law_ignored_lines(before: Seq<Seq<char>>, line: Seq<char>, after: Seq<Seq<char>>)
    requires
        accepted_word(line) is None,
    ensures
        vocabulary(before.push(line) + after) == vocabulary(before + after),
        forall|tok: WhitelistTokenizer| #[trigger]
            tok.built_from(before.push(line) + after) == tok.built_from(before + after),
{
    assert(before.push(line).drop_last() =~= before);
    lemma_listed_words_append(before.push(line), before, after);
    lemma_same_vocabulary(before.push(line) + after, before + after);
}

/// A word that is listed already is not listed again: a line that adds the
/// word of an earlier line can be left out, wherever it stands.
pub proof fn law_repeated_words(
    before: Seq<Seq<char>>,
    i: int,
    line: Seq<char>,
    after: Seq<Seq<char>>,
)
    requires
        0 <= i < before.len(),
        accepted_word(before[i]) == accepted_word(line),
    ensures
        vocabulary(before.push(line) + after) == vocabulary(before + after),
        forall|tok: WhitelistTokenizer| #[trigger]
            tok.built_from(before.push(line) + after) == tok.built_from(before + after),
{
    assert(before.push(line).drop_last() =~= before);
    if let Some(word) = accepted_word(line) {
        law_listed_words_come_from_lines(before, word);
        assert(listed_words(before).contains(word));
    }
    lemma_listed_words_append(before.push(line), before, after);
    lemma_same_vocabulary(before.push(line) + after, before + after);
}

/// White space around the word of a line does not count, nor does its case.
pub proof fn law_case_of_lines(a: Seq<char>, b: Seq<char>)
    requires
        lower_text(trimmed(a)) == lower_text(trimmed(b)),
    ensures
        accepted_word(a) == accepted_word(b),
{
    let x = trimmed(a);
    let y = trimmed(b);
    assert(x.len() == lower_text(x).len());
    assert(y.len() == lower_text(y).len());
    if x.len() > 0 {
        assert(lower_text(x)[0] == lower_char(x[0]));
        assert(lower_text(y)[0] == lower_char(y[0]));
    }
}

/// Every line that holds a word adds it, whatever its length: a line of ASCII
/// letters with white space around them adds these letters in lowercase.
pub proof fn law_line_of_letters_adds_its_word(a: Seq<char>, word: Seq<char>, b: Seq<char>)
    requires
        forall|i: int| 0 <= i < a.len() ==> is_white_space(#[trigger] a[i]),
        forall|i: int| 0 <= i < b.len() ==> is_white_space(#[trigger] b[i]),
        word.len() > 0,
        forall|i: int|
            0 <= i < word.len() ==> 'a' <= #[trigger] word[i] <= 'z' || 'A' <= word[i] <= 'Z',
    ensures
        accepted_word(a + word + b) == Some(ascii_lowercase(word)),
{
    assert('a' <= word[0] <= 'z' || 'A' <= word[0] <= 'Z');
    assert('a' <= word.last() <= 'z' || 'A' <= word.last() <= 'Z');
    law_trim(a, word, b);
    law_accepted_word(a + word + b);
    assert(lower_text(word) =~= ascii_lowercase(word));
}

/// Which lines add a word: those that hold, between white space, at least one
/// character, and none but ASCII letters and Kelvin signs. The word is the
/// lowercase of what they hold.
pub proof fn law_accepted_word(line: Seq<char>)
    ensures
        ({
            let word = trimmed(line);
            if word.len() > 0 && forall|i: int|
                0 <= i < word.len() ==> 'a' <= #[trigger] word[i] <= 'z' || 'A' <= word[i] <= 'Z'
                    || word[i] == '\u{212a}' {
                accepted_word(line) == Some(lower_text(word))
            } else {
                accepted_word(line) is None
            }
        }),
{
    let word = trimmed(line);
    let lower = lower_text(word);
    if word.len() > 0 {
        if forall|i: int|
            0 <= i < word.len() ==> 'a' <= #[trigger] word[i] <= 'z' || 'A' <= word[i] <= 'Z'
                || word[i] == '\u{212a}' {
            assert forall|i: int| 0 <= i < lower.len() implies is_letter(#[trigger] lower[i]) by {
                assert('a' <= word[i] <= 'z' || 'A' <= word[i] <= 'Z' || word[i] == '\u{212a}');
            }
            assert('a' <= word[0] <= 'z' || 'A' <= word[0] <= 'Z' || word[0] == '\u{212a}');
        } else {
            let i = choose|i: int|
                0 <= i < word.len() && !('a' <= #[trigger] word[i] <= 'z' || 'A' <= word[i] <= 'Z'
                    || word[i] == '\u{212a}');
            assert(lower[i] == lower_char(word[i]));
            assert(!is_letter(lower[i]));
        }
    }
}

/// A word that is not listed yet comes last, and an empty list lists none.
pub proof fn law_new_word_comes_last(lines: Seq<Seq<char>>, line: Seq<char>, word: Seq<char>)
    requires
        accepted_word(line) == Some(word),
        !listed_words(lines).contains(word),
    ensures
        listed_words(lines.push(line)) == listed_words(lines).push(word),
        listed_words(Seq::<Seq<char>>::empty()) == Seq::<Seq<char>>::empty(),
{
    assert(lines.push(line).drop_last() =~= lines);
}

/// A listed word is made of small ASCII letters, at least one.
pub proof fn law_listed_words_are_small_letters(lines: Seq<Seq<char>>, word: Seq<char>)
    requires
        listed_words(lines).contains(word),
    ensures
        word.len() > 0,
        all_small_letters(word),
{
    lemma_listed_words(lines);
}

} // verus!
