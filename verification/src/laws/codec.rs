//! Laws of the encoder and the decoder.
use crate::counting::{
    count_if, equal_to, lemma_count_if_add, lemma_count_if_none, lemma_count_if_one, occurrences,
};
use crate::laws::stream::{
    all_stream_items, canonical, fixed_text, is_nl, law_contraction_is_one_word,
    law_letters_are_one_word, law_same_plain_form_same_stream, law_stream_items,
    law_white_space_is_explicit, law_white_space_separates, lemma_lowercase_letters, line_break,
    stream_item, word_text,
};
use crate::stream::{
    classify_part, fixed_each, is_punct, not_white_space, punct, scan, stream_of, surface_items,
    ItemView,
};
use crate::text::{
    all_letters, ascii_lowercase, is_letter, is_small_letter, lemma_prefix_len_is, normalized,
    suffix_len,
};
use crate::tokenizer::{closes_word, explicit_spaces, implicit_space, WhitelistTokenizer};
use crate::vocab::{
    fixed_tokens, is_whole_contraction, lemma_contraction_shape, lemma_letter_token,
    lemma_letters_token, lemma_punct_token, lemma_vocabulary_distinct, lemma_white_tokens,
    listed_words, special_tokens, PUNCT_TOKENS,
};
use vstd::prelude::*;

verus! {

// ---------------------------------------------------------------------------
// The ids of stream items
// ---------------------------------------------------------------------------

/// The text that stands for anything unknown.
pub open spec fn unknown_text() -> Seq<char> {
    "<|unk|>"@
}

/// The text that a token is decoded to: the token itself if it has an id.
pub open spec fn shown(tok: WhitelistTokenizer, token: Seq<char>) -> Seq<char> {
    if tok.word_ids@.contains_key(token) {
        token
    } else {
        unknown_text()
    }
}

/// An id that the encoder may give to an item: any but those of the special
/// tokens other than the one for unknown.
pub open spec fn ordinary_id(tok: WhitelistTokenizer, id: u32) -> bool {
    id < tok.words().len() - special_tokens().len() || id == tok.unk_id
}

/// The id of a word is past the fixed tokens and stands for the word, or for
/// unknown.
pub proof fn lemma_word_id(tok: WhitelistTokenizer, lines: Seq<Seq<char>>, w: Seq<char>)
    requires
        tok.built_from(lines),
        word_text(w),
    ensures
        ({
            let id = tok.id_of(w);
            &&& tok.n_fixed <= id < tok.words().len()
            &&& ordinary_id(tok, id)
            &&& tok.words()[id as int] == shown(tok, w)
        }),
{
    lemma_unk(tok, lines);
    if tok.word_ids@.contains_key(w) {
        let i = tok.words().index_of(w);
        assert(tok.word_ids@[tok.words()[i]] == i);
        if is_whole_contraction(w) {
            lemma_contraction_shape(w);
        }
        lemma_letter_token(lines, i);
    }
}

/// The id for unknown.
pub proof fn lemma_unk(tok: WhitelistTokenizer, lines: Seq<Seq<char>>)
    requires
        tok.built_from(lines),
    ensures
        tok.n_fixed == 11,
        tok.n_fixed <= tok.unk_id < tok.words().len(),
        tok.words()[tok.unk_id as int] == unknown_text(),
        tok.bos_id < tok.unk_id,
        tok.space_id == 8,
        tok.words()[8] == seq![' '],
        tok.newline_id == 9,
        tok.words()[9] == seq!['\n'],
{
    lemma_vocabulary_distinct(lines);
    lemma_white_tokens();
    let base = tok.words().len() - special_tokens().len();
    assert(tok.words()[base + 1] == special_tokens()[1]);
    assert(tok.words()[8] == fixed_tokens()[8]);
    assert(tok.words()[9] == fixed_tokens()[9]);
}

/// A fixed token has an id below the words, which is neither that of a space
/// nor that of a line break.
pub proof fn lemma_fixed_id(tok: WhitelistTokenizer, lines: Seq<Seq<char>>, t: Seq<char>)
    requires
        tok.built_from(lines),
        fixed_text(t),
    ensures
        ({
            let id = tok.id_of(t);
            &&& tok.word_ids@.contains_key(t)
            &&& id < tok.n_fixed
            &&& id != tok.space_id
            &&& id != tok.newline_id
            &&& tok.words()[id as int] == t
            &&& ordinary_id(tok, id)
        }),
{
    lemma_unk(tok, lines);
    lemma_vocabulary_distinct(lines);
    lemma_white_tokens();
    let words = tok.words();
    let k = if t.len() == 1 {
        lemma_punct_token(t[0]);
        let k = choose|k: int|
            0 <= k < PUNCT_TOKENS@.len() && #[trigger] fixed_tokens()[k] == seq![t[0]];
        assert(t =~= seq![t[0]]);
        k
    } else {
        10
    };
    assert(words[k] == fixed_tokens()[k]);
    assert(words.contains(t));
    assert(tok.word_ids@[words[k]] == k);
}

/// The ids that stand directly for the first item of a stream, spaces before
/// it included.
pub open spec fn head_ids(
    tok: WhitelistTokenizer,
    item: ItemView,
    after_word: bool,
    spaces: nat,
) -> Seq<u32> {
    match item {
        ItemView::Sp => seq![],
        ItemView::Nl => tok.space_ids(spaces).push(tok.newline_id),
        ItemView::Word(w) => tok.space_ids(explicit_spaces(after_word, spaces)).push(tok.id_of(w)),
        ItemView::Unk => tok.space_ids(explicit_spaces(after_word, spaces)).push(tok.unk_id),
        ItemView::Fixed(t) => tok.space_ids(spaces).push(tok.id_of(t)),
    }
}

/// Whether a space before a word is implicit after an item.
pub open spec fn joins(item: ItemView) -> bool {
    match item {
        ItemView::Word(_) => true,
        ItemView::Unk => true,
        ItemView::Fixed(t) => closes_word(t),
        _ => false,
    }
}

/// One step of the encoder.
pub proof fn lemma_encode_step(
    tok: WhitelistTokenizer,
    items: Seq<ItemView>,
    after_word: bool,
    spaces: nat,
)
    requires
        items.len() > 0,
    ensures
        tok.encode_from(items, after_word, spaces) == head_ids(tok, items[0], after_word, spaces)
            + if items[0] == ItemView::Sp {
            tok.encode_from(items.skip(1), after_word, spaces + 1)
        } else {
            tok.encode_from(items.skip(1), joins(items[0]), 0)
        },
{
    let whole = tok.encode_from(items, after_word, spaces);
    let head = head_ids(tok, items[0], after_word, spaces);
    let tail = if items[0] == ItemView::Sp {
        tok.encode_from(items.skip(1), after_word, spaces + 1)
    } else {
        tok.encode_from(items.skip(1), joins(items[0]), 0)
    };
    assert(whole =~= head + tail);
}

// ---------------------------------------------------------------------------
// What an encoding holds
// ---------------------------------------------------------------------------

proof fn lemma_ordinary_ids(
    tok: WhitelistTokenizer,
    lines: Seq<Seq<char>>,
    items: Seq<ItemView>,
    after_word: bool,
    spaces: nat,
)
    requires
        tok.built_from(lines),
        all_stream_items(items),
    ensures
        forall|i: int|
            0 <= i < tok.encode_from(items, after_word, spaces).len() ==> ordinary_id(
                tok,
                #[trigger] tok.encode_from(items, after_word, spaces)[i],
            ),
    decreases items.len(),
{
    lemma_unk(tok, lines);
    lemma_vocabulary_distinct(lines);
    let ids = tok.encode_from(items, after_word, spaces);
    if items.len() > 0 {
        let rest = items.skip(1);
        assert(all_stream_items(rest)) by {
            assert forall|i: int| 0 <= i < rest.len() implies stream_item(#[trigger] rest[i]) by {
                assert(stream_item(items[i + 1]));
            }
        }
        assert(stream_item(items[0]));
        match items[0] {
            ItemView::Word(w) => lemma_word_id(tok, lines, w),
            ItemView::Fixed(t) => lemma_fixed_id(tok, lines, t),
            _ => {},
        }
        lemma_encode_step(tok, items, after_word, spaces);
        let head = head_ids(tok, items[0], after_word, spaces);
        let tail = if items[0] == ItemView::Sp {
            lemma_ordinary_ids(tok, lines, rest, after_word, spaces + 1);
            tok.encode_from(rest, after_word, spaces + 1)
        } else {
            lemma_ordinary_ids(tok, lines, rest, joins(items[0]), 0);
            tok.encode_from(rest, joins(items[0]), 0)
        };
        assert forall|i: int| 0 <= i < ids.len() implies ordinary_id(tok, #[trigger] ids[i]) by {
            if i < head.len() {
                assert(ids[i] == head[i]);
            } else {
                assert(ids[i] == tail[i - head.len()]);
            }
        }
    }
}

/// A text gives rise to no special token but the one for unknown, whatever it
/// holds: every id of its encoding has a token, and no text can be written
/// that is encoded as the beginning of a text or as a mask.
pub proof fn law_text_gives_ordinary_ids(
    tok: WhitelistTokenizer,
    lines: Seq<Seq<char>>,
    text: Seq<char>,
)
    requires
        tok.built_from(lines),
    ensures
        forall|i: int|
            0 <= i < tok.encoding(text, false).len() ==> ordinary_id(
                tok,
                #[trigger] tok.encoding(text, false)[i],
            ),
        forall|i: int|
            0 <= i < tok.encoding(text, false).len() ==> (#[trigger] tok.encoding(text, false)[i])
                < tok.words().len(),
        !tok.encoding(text, false).contains(tok.bos_id),
        !tok.encoding(text, false).contains(tok.mask_id),
{
    law_stream_items(text);
    lemma_unk(tok, lines);
    lemma_ordinary_ids(tok, lines, stream_of(text), false, 0);
}

/// The token that begins a text is put first exactly where it is asked for,
/// and the rest of the encoding does not depend on it.
pub proof fn law_beginning_of_text(
    tok: WhitelistTokenizer,
    lines: Seq<Seq<char>>,
    text: Seq<char>,
)
    requires
        tok.built_from(lines),
    ensures
        tok.encoding(text, true) == seq![tok.bos_id] + tok.encoding(text, false),
        occurrences(tok.encoding(text, true), tok.bos_id) == 1,
        occurrences(tok.encoding(text, false), tok.bos_id) == 0,
{
    law_text_gives_ordinary_ids(tok, lines, text);
    let ids = tok.encoding(text, false);
    let p = equal_to(tok.bos_id);
    assert forall|i: int| 0 <= i < ids.len() implies !p(#[trigger] ids[i]) by {
        assert(ids.contains(ids[i]));
    }
    lemma_count_if_none(ids, p);
    lemma_count_if_one(tok.bos_id, p);
    lemma_count_if_add(seq![tok.bos_id], ids, p);
}

proof fn lemma_newline_ids(
    tok: WhitelistTokenizer,
    lines: Seq<Seq<char>>,
    items: Seq<ItemView>,
    after_word: bool,
    spaces: nat,
)
    requires
        tok.built_from(lines),
        all_stream_items(items),
    ensures
        occurrences(tok.encode_from(items, after_word, spaces), tok.newline_id) == count_if(
            items,
            is_nl(),
        ),
    decreases items.len(),
{
    let p = equal_to(tok.newline_id);
    lemma_unk(tok, lines);
    if items.len() == 0 {
        lemma_count_if_none(tok.space_ids(spaces), p);
    } else {
        let rest = items.skip(1);
        assert(all_stream_items(rest)) by {
            assert forall|i: int| 0 <= i < rest.len() implies stream_item(#[trigger] rest[i]) by {
                assert(stream_item(items[i + 1]));
            }
        }
        assert(items =~= seq![items[0]] + rest);
        lemma_count_if_add(seq![items[0]], rest, is_nl());
        lemma_count_if_one(items[0], is_nl());
        lemma_encode_step(tok, items, after_word, spaces);
        assert(stream_item(items[0]));
        match items[0] {
            ItemView::Word(w) => lemma_word_id(tok, lines, w),
            ItemView::Fixed(t) => lemma_fixed_id(tok, lines, t),
            _ => {},
        }
        let head = head_ids(tok, items[0], after_word, spaces);
        if items[0] == ItemView::Sp {
            lemma_newline_ids(tok, lines, rest, after_word, spaces + 1);
            lemma_count_if_add(head, tok.encode_from(rest, after_word, spaces + 1), p);
        } else {
            lemma_newline_ids(tok, lines, rest, joins(items[0]), 0);
            lemma_count_if_add(head, tok.encode_from(rest, joins(items[0]), 0), p);
            assert(head.drop_last() =~= tok.space_ids(head.drop_last().len()));
            lemma_count_if_none(head.drop_last(), p);
            assert(count_if(head, p) == if p(head.last()) {
                1nat
            } else {
                0nat
            });
        }
    }
}

/// Each line break of a text gives one line-break token, and nothing else
/// does.
pub proof fn law_line_breaks_are_kept(
    tok: WhitelistTokenizer,
    lines: Seq<Seq<char>>,
    text: Seq<char>,
)
    requires
        tok.built_from(lines),
    ensures
        occurrences(tok.encoding(text, false), tok.newline_id) == count_if(text, line_break()),
{
    law_stream_items(text);
    law_white_space_is_explicit(text);
    lemma_newline_ids(tok, lines, stream_of(text), false, 0);
}

/// An item that has no token of its own: an unknown, or a word that is not in
/// the vocabulary.
pub open spec fn is_unknown(tok: WhitelistTokenizer) -> spec_fn(ItemView) -> bool {
    |item: ItemView|
        match item {
            ItemView::Word(w) => !tok.word_ids@.contains_key(w),
            ItemView::Unk => true,
            _ => false,
        }
}

proof fn lemma_unknown_ids(
    tok: WhitelistTokenizer,
    lines: Seq<Seq<char>>,
    items: Seq<ItemView>,
    after_word: bool,
    spaces: nat,
)
    requires
        tok.built_from(lines),
        all_stream_items(items),
    ensures
        occurrences(tok.encode_from(items, after_word, spaces), tok.unk_id) == count_if(
            items,
            is_unknown(tok),
        ),
    decreases items.len(),
{
    let p = equal_to(tok.unk_id);
    lemma_unk(tok, lines);
    if items.len() == 0 {
        lemma_count_if_none(tok.space_ids(spaces), p);
    } else {
        let rest = items.skip(1);
        assert(all_stream_items(rest)) by {
            assert forall|i: int| 0 <= i < rest.len() implies stream_item(#[trigger] rest[i]) by {
                assert(stream_item(items[i + 1]));
            }
        }
        assert(items =~= seq![items[0]] + rest);
        lemma_count_if_add(seq![items[0]], rest, is_unknown(tok));
        lemma_count_if_one(items[0], is_unknown(tok));
        lemma_encode_step(tok, items, after_word, spaces);
        assert(stream_item(items[0]));
        match items[0] {
            ItemView::Word(w) => {
                lemma_word_id(tok, lines, w);
                lemma_word_is_not_unknown_text(w);
            },
            ItemView::Fixed(t) => lemma_fixed_id(tok, lines, t),
            _ => {},
        }
        let head = head_ids(tok, items[0], after_word, spaces);
        if items[0] == ItemView::Sp {
            lemma_unknown_ids(tok, lines, rest, after_word, spaces + 1);
            lemma_count_if_add(head, tok.encode_from(rest, after_word, spaces + 1), p);
        } else {
            lemma_unknown_ids(tok, lines, rest, joins(items[0]), 0);
            lemma_count_if_add(head, tok.encode_from(rest, joins(items[0]), 0), p);
            assert(head.drop_last() =~= tok.space_ids(head.drop_last().len()));
            lemma_count_if_none(head.drop_last(), p);
            assert(count_if(head, p) == if p(head.last()) {
                1nat
            } else {
                0nat
            });
        }
    }
}

/// The text for unknown is no word.
proof fn lemma_word_is_not_unknown_text(w: Seq<char>)
    requires
        word_text(w),
    ensures
        w != unknown_text(),
{
    reveal_strlit("<|unk|>");
    assert(unknown_text()[0] == '<');
    if is_whole_contraction(w) {
        lemma_contraction_shape(w);
    } else {
        assert(is_small_letter(w[0]));
    }
}

/// Unknowns are replaced one for one: an encoding holds one token for unknown
/// for each unknown and each unlisted word in the stream of the text, and no
/// other.
pub proof fn law_unknowns_are_replaced_one_for_one(
    tok: WhitelistTokenizer,
    lines: Seq<Seq<char>>,
    text: Seq<char>,
)
    requires
        tok.built_from(lines),
    ensures
        occurrences(tok.encoding(text, false), tok.unk_id) == count_if(
            stream_of(text),
            is_unknown(tok),
        ),
{
    law_stream_items(text);
    lemma_unknown_ids(tok, lines, stream_of(text), false, 0);
}

/// ASCII case, the shape of quotation marks and the kind of white space do
/// not matter to the encoder.
pub proof fn law_same_plain_form_same_encoding(
    tok: WhitelistTokenizer,
    a: Seq<char>,
    b: Seq<char>,
    prepend_bos: bool,
)
    requires
        canonical(a) == canonical(b),
    ensures
        tok.encoding(a, prepend_bos) == tok.encoding(b, prepend_bos),
{
    law_same_plain_form_same_stream(a, b);
}

// ---------------------------------------------------------------------------
// Spacing
// ---------------------------------------------------------------------------

/// `n` spaces.
pub open spec fn spaces(n: nat) -> Seq<char> {
    Seq::new(n, |i: int| ' ')
}

/// `n` space items.
pub open spec fn space_items(n: nat) -> Seq<ItemView> {
    Seq::new(n, |i: int| ItemView::Sp)
}

/// A text of ASCII letters, or a whole contraction, in whatever case.
pub open spec fn is_word(s: Seq<char>) -> bool {
    s.len() > 0 && (all_letters(s) || is_whole_contraction(ascii_lowercase(s)))
}

proof fn lemma_stream_of_word(s: Seq<char>)
    requires
        is_word(s),
    ensures
        stream_of(s) == seq![ItemView::Word(ascii_lowercase(s))],
{
    if all_letters(s) {
        law_letters_are_one_word(s);
    } else {
        law_contraction_is_one_word(s);
    }
}

proof fn lemma_stream_trailing_spaces(a: Seq<char>, n: nat)
    ensures
        stream_of(a + spaces(n)) == stream_of(a) + space_items(n),
    decreases n,
{
    if n == 0 {
        assert(a + spaces(0) =~= a);
        assert(stream_of(a) + space_items(0) =~= stream_of(a));
    } else {
        let m = (n - 1) as nat;
        lemma_stream_trailing_spaces(a, m);
        let empty = Seq::<char>::empty();
        law_white_space_separates(a + spaces(m), ' ', empty);
        assert(a + spaces(n) =~= (a + spaces(m)).push(' ') + empty);
        assert(normalized(empty) =~= empty);
        assert(stream_of(empty) =~= seq![]);
        assert(stream_of(a) + space_items(n) =~= (stream_of(a) + space_items(m)).push(
            ItemView::Sp,
        ) + stream_of(empty));
    }
}

/// Spaces between two texts become space items between their streams.
proof fn lemma_stream_spaced(a: Seq<char>, n: nat, b: Seq<char>)
    requires
        n > 0,
    ensures
        stream_of(a + spaces(n) + b) == stream_of(a) + space_items(n) + stream_of(b),
{
    let m = (n - 1) as nat;
    lemma_stream_trailing_spaces(a, m);
    law_white_space_separates(a + spaces(m), ' ', b);
    assert(a + spaces(n) + b =~= (a + spaces(m)).push(' ') + b);
    assert(stream_of(a) + space_items(n) + stream_of(b) =~= (stream_of(a) + space_items(m)).push(
        ItemView::Sp,
    ) + stream_of(b));
}

/// Spaces are pending until something else follows.
pub proof fn lemma_encode_pending(
    tok: WhitelistTokenizer,
    n: nat,
    rest: Seq<ItemView>,
    after_word: bool,
    k: nat,
)
    ensures
        tok.encode_from(space_items(n) + rest, after_word, k) == tok.encode_from(
            rest,
            after_word,
            k + n,
        ),
    decreases n,
{
    if n == 0 {
        assert(space_items(0) + rest =~= rest);
    } else {
        let items = space_items(n) + rest;
        assert(items.skip(1) =~= space_items((n - 1) as nat) + rest);
        lemma_encode_pending(tok, (n - 1) as nat, rest, after_word, k + 1);
    }
}

/// A text of letters is one token, and so is a whole contraction.
pub proof fn law_word_is_one_token(tok: WhitelistTokenizer, word: Seq<char>)
    requires
        is_word(word),
    ensures
        tok.encoding(word, false) == seq![tok.id_of(ascii_lowercase(word))],
{
    lemma_stream_of_word(word);
    let items = stream_of(word);
    lemma_encode_step(tok, items, false, 0);
    assert(items.skip(1) =~= seq![]);
    assert(tok.encoding(word, false) =~= seq![tok.id_of(ascii_lowercase(word))]);
}

/// The word list decides: a text of letters is encoded as its own token where
/// its lowercase is listed, and as unknown where it is not.
pub proof fn law_unlisted_words_are_unknown(
    tok: WhitelistTokenizer,
    lines: Seq<Seq<char>>,
    word: Seq<char>,
)
    requires
        tok.built_from(lines),
        word.len() > 0,
        all_letters(word),
    ensures
        tok.encoding(word, false).len() == 1,
        ({
            let id = tok.encoding(word, false)[0];
            let lower = ascii_lowercase(word);
            if listed_words(lines).contains(lower) {
                id != tok.unk_id && id < tok.words().len() && tok.words()[id as int] == lower
            } else {
                id == tok.unk_id
            }
        }),
{
    let lower = ascii_lowercase(word);
    law_word_is_one_token(tok, word);
    lemma_lowercase_letters(word);
    assert(all_letters(lower)) by {
        assert forall|i: int| 0 <= i < lower.len() implies is_letter(#[trigger] lower[i]) by {
            assert(is_small_letter(lower[i]));
        }
    }
    lemma_letters_token(lines, lower);
    lemma_word_id(tok, lines, lower);
    lemma_unk(tok, lines);
    lemma_word_is_not_unknown_text(lower);
}

/// Of the spaces between two words, which may be contractions, one is
/// implicit; every other one gives a space token. So `n` spaces give `n - 1`
/// tokens.
pub proof fn law_spaces_between_words(
    tok: WhitelistTokenizer,
    a: Seq<char>,
    n: nat,
    b: Seq<char>,
)
    requires
        is_word(a),
        is_word(b),
        n > 0,
    ensures
        tok.encoding(a + spaces(n) + b, false) == seq![tok.id_of(ascii_lowercase(a))]
            + tok.space_ids((n - 1) as nat) + seq![tok.id_of(ascii_lowercase(b))],
{
    lemma_stream_spaced(a, n, b);
    lemma_stream_of_word(a);
    lemma_stream_of_word(b);
    let items = stream_of(a + spaces(n) + b);
    let wa = ItemView::Word(ascii_lowercase(a));
    let wb = ItemView::Word(ascii_lowercase(b));
    let last = seq![wb];
    assert(items =~= seq![wa] + (space_items(n) + last));
    lemma_encode_step(tok, items, false, 0);
    assert(items.skip(1) =~= space_items(n) + last);
    lemma_encode_pending(tok, n, last, true, 0);
    lemma_encode_step(tok, last, true, n);
    assert(last.skip(1) =~= seq![]);
    assert(tok.encoding(a + spaces(n) + b, false) =~= seq![tok.id_of(ascii_lowercase(a))]
        + tok.space_ids((n - 1) as nat) + seq![tok.id_of(ascii_lowercase(b))]);
}

/// A punctuation character by itself is one fixed token.
proof fn lemma_stream_of_punct(c: char)
    requires
        is_punct(c),
    ensures
        stream_of(seq![c]) == seq![ItemView::Fixed(seq![c])],
{
    let s = seq![c];
    assert(normalized(s) =~= s);
    lemma_prefix_len_is(s, not_white_space(), 1);
    lemma_prefix_len_is(s, punct(), 1);
    assert(s.take(1) =~= s);
    assert(s.skip(1) =~= seq![]);
    let none = Seq::<char>::empty();
    assert(none.take(0) =~= none);
    assert(none.skip(0) =~= none);
    assert(suffix_len(none, punct()) == 0);
    assert(fixed_each(none) =~= seq![]);
    assert(fixed_each(s) =~= seq![ItemView::Fixed(seq![c])]);
    assert(classify_part(none) =~= seq![]);
    assert(surface_items(s) =~= seq![ItemView::Fixed(seq![c])]);
    assert(scan(none) =~= seq![]);
    assert(scan(s) =~= surface_items(s));
}

/// An item that takes no implicit space, neither before nor after it.
pub open spec fn stops(item: ItemView) -> bool {
    match item {
        ItemView::Nl => true,
        ItemView::Fixed(t) => !closes_word(t),
        _ => false,
    }
}

/// The id of such an item.
pub open spec fn stop_id(tok: WhitelistTokenizer, item: ItemView) -> u32 {
    match item {
        ItemView::Fixed(t) => tok.id_of(t),
        _ => tok.newline_id,
    }
}

/// What follows an item that takes no implicit space is encoded by itself.
proof fn lemma_encode_stop(
    tok: WhitelistTokenizer,
    items: Seq<ItemView>,
    stop: ItemView,
    rest: Seq<ItemView>,
    after_word: bool,
    k: nat,
)
    requires
        stops(stop),
    ensures
        tok.encode_from(items.push(stop) + rest, after_word, k) == tok.encode_from(
            items,
            after_word,
            k,
        ).push(stop_id(tok, stop)) + tok.encode_from(rest, false, 0),
    decreases items.len(),
{
    let whole = items.push(stop) + rest;
    lemma_encode_step(tok, whole, after_word, k);
    let last = tok.encode_from(rest, false, 0);
    let end = seq![stop_id(tok, stop)] + last;
    if items.len() == 0 {
        assert(whole.skip(1) =~= rest);
    } else {
        let tail = items.skip(1);
        lemma_encode_step(tok, items, after_word, k);
        assert(whole.skip(1) =~= tail.push(stop) + rest);
        let head = head_ids(tok, items[0], after_word, k);
        if items[0] == ItemView::Sp {
            lemma_encode_stop(tok, tail, stop, rest, after_word, k + 1);
            let ids = tok.encode_from(tail, after_word, k + 1);
            assert(head + (ids + end) =~= (head + ids) + end);
            assert(ids + end =~= ids.push(stop_id(tok, stop)) + last);
        } else {
            lemma_encode_stop(tok, tail, stop, rest, joins(items[0]), 0);
            let ids = tok.encode_from(tail, joins(items[0]), 0);
            assert(head + (ids + end) =~= (head + ids) + end);
            assert(ids + end =~= ids.push(stop_id(tok, stop)) + last);
        }
    }
    let ids = tok.encode_from(items, after_word, k);
    assert(ids + end =~= ids.push(stop_id(tok, stop)) + last);
}

/// Where no space is implicit, those that are pending come out first.
proof fn lemma_encode_explicit(tok: WhitelistTokenizer, items: Seq<ItemView>, k: nat)
    ensures
        tok.encode_from(items, false, k) == tok.space_ids(k) + tok.encode_from(items, false, 0),
    decreases items.len(),
{
    if items.len() == 0 {
        assert(tok.space_ids(k) + tok.space_ids(0) =~= tok.space_ids(k));
    } else {
        let rest = items.skip(1);
        lemma_encode_step(tok, items, false, k);
        lemma_encode_step(tok, items, false, 0);
        if items[0] == ItemView::Sp {
            lemma_encode_explicit(tok, rest, k + 1);
            lemma_encode_explicit(tok, rest, 1);
            let tail = tok.encode_from(rest, false, 0);
            assert(tok.space_ids(k + 1) + tail =~= tok.space_ids(k) + (tok.space_ids(1) + tail));
            assert(tok.encode_from(items, false, k) =~= tok.encode_from(rest, false, k + 1));
            assert(tok.encode_from(items, false, 0) =~= tok.encode_from(rest, false, 1));
        } else {
            let tail = tok.encode_from(rest, joins(items[0]), 0);
            let head = head_ids(tok, items[0], false, 0);
            assert(head_ids(tok, items[0], false, k) =~= tok.space_ids(k) + head);
            assert((tok.space_ids(k) + head) + tail =~= tok.space_ids(k) + (head + tail));
        }
    }
}

/// Spaces at the end come out as they are.
pub proof fn lemma_encode_trailing(
    tok: WhitelistTokenizer,
    items: Seq<ItemView>,
    n: nat,
    after_word: bool,
    k: nat,
)
    ensures
        tok.encode_from(items + space_items(n), after_word, k) == tok.encode_from(
            items,
            after_word,
            k,
        ) + tok.space_ids(n),
    decreases items.len(),
{
    let whole = items + space_items(n);
    if items.len() == 0 {
        let none = Seq::<ItemView>::empty();
        assert(whole =~= space_items(n) + none);
        lemma_encode_pending(tok, n, none, after_word, k);
        assert(tok.space_ids(k + n) =~= tok.space_ids(k) + tok.space_ids(n));
    } else {
        let rest = items.skip(1);
        assert(whole.skip(1) =~= rest + space_items(n));
        lemma_encode_step(tok, whole, after_word, k);
        lemma_encode_step(tok, items, after_word, k);
        let head = head_ids(tok, items[0], after_word, k);
        if items[0] == ItemView::Sp {
            lemma_encode_trailing(tok, rest, n, after_word, k + 1);
            let tail = tok.encode_from(rest, after_word, k + 1);
            assert(head + (tail + tok.space_ids(n)) =~= (head + tail) + tok.space_ids(n));
        } else {
            lemma_encode_trailing(tok, rest, n, joins(items[0]), 0);
            let tail = tok.encode_from(rest, joins(items[0]), 0);
            assert(head + (tail + tok.space_ids(n)) =~= (head + tail) + tok.space_ids(n));
        }
    }
}

/// Punctuation takes no implicit space: every space before it and after it
/// gives a space token, whatever stands around them.
pub proof fn law_spaces_around_punctuation(
    tok: WhitelistTokenizer,
    a: Seq<char>,
    m: nat,
    c: char,
    n: nat,
    b: Seq<char>,
)
    requires
        is_punct(c),
        m > 0,
        n > 0,
    ensures
        tok.encoding(a + spaces(m) + seq![c] + spaces(n) + b, false) == tok.encoding(a, false)
            + tok.space_ids(m) + seq![tok.id_of(seq![c])] + tok.space_ids(n) + tok.encoding(
            b,
            false,
        ),
{
    let text = a + spaces(m) + seq![c] + spaces(n) + b;
    let mark = ItemView::Fixed(seq![c]);
    let before = stream_of(a) + space_items(m);
    let after = space_items(n) + stream_of(b);
    lemma_stream_spaced(a + spaces(m) + seq![c], n, b);
    lemma_stream_spaced(a, m, seq![c]);
    lemma_stream_of_punct(c);
    assert(stream_of(text) =~= before.push(mark) + after);
    assert(seq![c].len() == 1 && seq!['\'', 's'].len() == 2);
    lemma_encode_stop(tok, before, mark, after, false, 0);
    lemma_encode_trailing(tok, stream_of(a), m, false, 0);
    lemma_encode_pending(tok, n, stream_of(b), false, 0);
    lemma_encode_explicit(tok, stream_of(b), n);
    assert(tok.encoding(text, false) =~= tok.encoding(a, false) + tok.space_ids(m) + seq![
        tok.id_of(seq![c]),
    ] + tok.space_ids(n) + tok.encoding(b, false));
}

// ---------------------------------------------------------------------------
// Lines
// ---------------------------------------------------------------------------

/// Lines are encoded independently: two texts with a line break between them
/// are encoded as the first, the line-break token, and the second.
pub proof fn law_lines_are_encoded_independently(
    tok: WhitelistTokenizer,
    a: Seq<char>,
    b: Seq<char>,
)
    ensures
        tok.encoding(a.push('\n') + b, false) == tok.encoding(a, false).push(tok.newline_id)
            + tok.encoding(b, false),
{
    law_white_space_separates(a, '\n', b);
    lemma_encode_stop(tok, stream_of(a), ItemView::Nl, stream_of(b), false, 0);
}

/// The text that one id is decoded to.
pub open spec fn head_text(tok: WhitelistTokenizer, id: u32, after_word: bool) -> Seq<char> {
    if id >= tok.words().len() {
        seq![]
    } else if id == tok.space_id || id == tok.newline_id {
        tok.words()[id as int]
    } else {
        implicit_space(after_word && tok.is_word_id(id)) + tok.words()[id as int]
    }
}

/// Whether a word behind an id is decoded with a space before it.
pub open spec fn joins_next(tok: WhitelistTokenizer, id: u32, after_word: bool) -> bool {
    if id >= tok.words().len() {
        after_word
    } else if id == tok.space_id || id == tok.newline_id {
        after_word && id != tok.newline_id
    } else {
        tok.is_word_id(id) || closes_word(tok.words()[id as int])
    }
}

/// One step of the decoder.
pub proof fn lemma_decode_step(tok: WhitelistTokenizer, ids: Seq<u32>, after_word: bool)
    requires
        ids.len() > 0,
    ensures
        tok.decode_from(ids, after_word) == head_text(tok, ids[0], after_word) + tok.decode_from(
            ids.skip(1),
            joins_next(tok, ids[0], after_word),
        ),
{
    let head = head_text(tok, ids[0], after_word);
    let tail = tok.decode_from(ids.skip(1), joins_next(tok, ids[0], after_word));
    assert(tok.decode_from(ids, after_word) =~= head + tail);
}

proof fn lemma_decode_line_break(
    tok: WhitelistTokenizer,
    ids: Seq<u32>,
    rest: Seq<u32>,
    after_word: bool,
)
    requires
        tok.newline_id < tok.words().len(),
        tok.words()[tok.newline_id as int] == seq!['\n'],
    ensures
        tok.decode_from(ids.push(tok.newline_id) + rest, after_word) == tok.decode_from(
            ids,
            after_word,
        ).push('\n') + tok.decode_from(rest, false),
    decreases ids.len(),
{
    let whole = ids.push(tok.newline_id) + rest;
    let last = tok.decode_from(rest, false);
    lemma_decode_step(tok, whole, after_word);
    if ids.len() == 0 {
        assert(whole.skip(1) =~= rest);
        assert(seq!['\n'] + last =~= tok.decode_from(ids, after_word).push('\n') + last);
    } else {
        let tail = ids.skip(1);
        let next = joins_next(tok, ids[0], after_word);
        lemma_decode_step(tok, ids, after_word);
        assert(whole.skip(1) =~= tail.push(tok.newline_id) + rest);
        lemma_decode_line_break(tok, tail, rest, next);
        let head = head_text(tok, ids[0], after_word);
        let text = tok.decode_from(tail, next);
        assert(head + (text.push('\n') + last) =~= (head + text).push('\n') + last);
    }
}

/// Lines are decoded independently: ids with a line-break token between them
/// are decoded to the text of the first, a line break, and the text of the
/// others.
pub proof fn law_lines_are_decoded_independently(
    tok: WhitelistTokenizer,
    lines: Seq<Seq<char>>,
    a: Seq<u32>,
    b: Seq<u32>,
)
    requires
        tok.built_from(lines),
    ensures
        tok.decoding(a.push(tok.newline_id) + b) == tok.decoding(a).push('\n') + tok.decoding(b),
{
    lemma_unk(tok, lines);
    lemma_decode_line_break(tok, a, b, false);
}

// ---------------------------------------------------------------------------
// Decoding
// ---------------------------------------------------------------------------

/// One id decodes to its token.
pub proof fn law_one_id_decodes_to_its_token(tok: WhitelistTokenizer, id: u32)
    requires
        id < tok.words().len(),
    ensures
        tok.decoding(seq![id]) == tok.words()[id as int],
{
    let ids = seq![id];
    assert(ids.skip(1) =~= seq![]);
    assert(tok.decode_from(ids.skip(1), true) =~= seq![]);
    assert(tok.decode_from(ids.skip(1), false) =~= seq![]);
    assert(tok.decoding(ids) =~= tok.words()[id as int]);
}

proof fn lemma_skip_unknown(
    tok: WhitelistTokenizer,
    before: Seq<u32>,
    id: u32,
    after: Seq<u32>,
    after_word: bool,
)
    requires
        id >= tok.words().len(),
    ensures
        tok.decode_from(before.push(id) + after, after_word) == tok.decode_from(
            before + after,
            after_word,
        ),
    decreases before.len(),
{
    let long = before.push(id) + after;
    let short = before + after;
    if before.len() == 0 {
        assert(long.skip(1) =~= after);
        assert(short =~= after);
    } else {
        let rest = before.skip(1);
        assert(long.skip(1) =~= rest.push(id) + after);
        assert(short.skip(1) =~= rest + after);
        lemma_skip_unknown(tok, rest, id, after, true);
        lemma_skip_unknown(tok, rest, id, after, false);
    }
}

/// An id without a token is skipped: the text is that of the other ids.
pub proof fn law_unknown_ids_are_skipped(
    tok: WhitelistTokenizer,
    before: Seq<u32>,
    id: u32,
    after: Seq<u32>,
)
    requires
        id >= tok.words().len(),
    ensures
        tok.decoding(before.push(id) + after) == tok.decoding(before + after),
{
    lemma_skip_unknown(tok, before, id, after, false);
}

} // verus!
