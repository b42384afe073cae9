//! How the encoder and the decoder go on from what came before: the ids of a
//! stream from those of its parts, and the text of a list of ids from that of
//! a shorter one.
use crate::laws::codec::{
    head_ids, head_text, joins, joins_next, lemma_decode_step, lemma_encode_pending,
    lemma_encode_step, lemma_encode_trailing, lemma_unk, space_items,
};
use crate::stream::{stream_of, ItemView};
use crate::tokenizer::WhitelistTokenizer;
use vstd::prelude::*;

verus! {

// ---------------------------------------------------------------------------
// Encoding
// ---------------------------------------------------------------------------

/// A text is encoded as its stream is.
pub proof fn law_text_is_encoded_as_its_stream(tok: WhitelistTokenizer, text: Seq<char>)
    ensures
        tok.encoding(text, false) == tok.encode_from(stream_of(text), false, 0),
        tok.encoding(text, true) == seq![tok.bos_id] + tok.encode_from(stream_of(text), false, 0),
{
}

/// The id of an item that is no space: that of its token where it has one, and
/// that for unknown where it has none.
pub open spec fn item_id(tok: WhitelistTokenizer, item: ItemView) -> u32 {
    match item {
        ItemView::Word(t) | ItemView::Fixed(t) => if tok.word_ids@.contains_key(t) {
            tok.word_ids@[t]
        } else {
            tok.unk_id
        },
        ItemView::Nl => tok.newline_id,
        ItemView::Unk | ItemView::Sp => tok.unk_id,
    }
}

/// One item that is no space is one id.
pub proof fn law_one_item_is_one_id(tok: WhitelistTokenizer, item: ItemView)
    requires
        item != ItemView::Sp,
    ensures
        tok.encode_from(seq![item], false, 0) == seq![item_id(tok, item)],
        tok.encode_from(Seq::<ItemView>::empty(), false, 0) == Seq::<u32>::empty(),
{
    let items = seq![item];
    lemma_encode_step(tok, items, false, 0);
    assert(items.skip(1) =~= seq![]);
    assert(tok.encode_from(items, false, 0) =~= seq![item_id(tok, item)]);
    assert(tok.encode_from(Seq::<ItemView>::empty(), false, 0) =~= Seq::<u32>::empty());
}

/// Spaces at the end of a stream are written out, one id each.
pub proof fn law_trailing_spaces(tok: WhitelistTokenizer, items: Seq<ItemView>, n: nat)
    ensures
        tok.encode_from(items + Seq::new(n, |i: int| ItemView::Sp), false, 0) == tok.encode_from(
            items,
            false,
            0,
        ) + Seq::new(n, |i: int| tok.space_id),
{
    lemma_encode_trailing(tok, items, n, false, 0);
    assert(Seq::new(n, |i: int| ItemView::Sp) =~= space_items(n));
    assert(Seq::new(n, |i: int| tok.space_id) =~= tok.space_ids(n));
}

/// What follows an item that is no space depends on that item alone.
proof fn lemma_encode_concat(
    tok: WhitelistTokenizer,
    a: Seq<ItemView>,
    r: Seq<ItemView>,
    after_word: bool,
    k: nat,
)
    requires
        a.len() > 0,
        a.last() != ItemView::Sp,
    ensures
        tok.encode_from(a + r, after_word, k) == tok.encode_from(a, after_word, k)
            + tok.encode_from(r, joins(a.last()), 0),
    decreases a.len(),
{
    let s = a + r;
    let rest = a.skip(1);
    lemma_encode_step(tok, s, after_word, k);
    lemma_encode_step(tok, a, after_word, k);
    let head = head_ids(tok, a[0], after_word, k);
    let last = tok.encode_from(r, joins(a.last()), 0);
    if a.len() == 1 {
        assert(s.skip(1) =~= r);
        assert(rest =~= seq![]);
        assert(tok.encode_from(rest, joins(a[0]), 0) =~= seq![]);
        assert(head + tok.encode_from(rest, joins(a[0]), 0) =~= head);
    } else {
        assert(s.skip(1) =~= rest + r);
        assert(rest.last() == a.last());
        if a[0] == ItemView::Sp {
            lemma_encode_concat(tok, rest, r, after_word, k + 1);
            let tail = tok.encode_from(rest, after_word, k + 1);
            assert(head + (tail + last) =~= (head + tail) + last);
        } else {
            lemma_encode_concat(tok, rest, r, joins(a[0]), 0);
            let tail = tok.encode_from(rest, joins(a[0]), 0);
            assert(head + (tail + last) =~= (head + tail) + last);
        }
    }
}

/// An item that leaves the first space behind it to a following word: a word,
/// an unknown, or the contraction suffix.
pub open spec fn leaves_a_space(item: ItemView) -> bool {
    item is Word || item is Unk || item == ItemView::Fixed(seq!['\'', 's'])
}

/// How two streams with spaces between them are encoded: each by itself, and
/// between them one space id for each space, but for the first one where it
/// stands between a word and a word.
pub proof fn law_streams_with_spaces_between(
    tok: WhitelistTokenizer,
    a: Seq<ItemView>,
    n: nat,
    b: Seq<ItemView>,
)
    requires
        a.len() > 0 ==> a.last() != ItemView::Sp,
        b.len() > 0,
        b[0] != ItemView::Sp,
    ensures
        ({
            let implicit = n > 0 && a.len() > 0 && leaves_a_space(a.last()) && (b[0] is Word
                || b[0] is Unk);
            let written = if implicit {
                (n - 1) as nat
            } else {
                n
            };
            tok.encode_from(a + Seq::new(n, |i: int| ItemView::Sp) + b, false, 0)
                == tok.encode_from(a, false, 0) + Seq::new(written, |i: int| tok.space_id)
                + tok.encode_from(b, false, 0)
        }),
{
    let implicit = n > 0 && a.len() > 0 && leaves_a_space(a.last()) && (b[0] is Word
        || b[0] is Unk);
    let written = if implicit {
        (n - 1) as nat
    } else {
        n
    };
    let gap = Seq::new(n, |i: int| ItemView::Sp);
    let spaces = Seq::new(written, |i: int| tok.space_id);
    assert(gap =~= space_items(n));
    assert(spaces =~= tok.space_ids(written));
    let r = gap + b;
    let before = a.len() > 0 && joins(a.last());
    assert(a + gap + b =~= a + r);
    if a.len() > 0 {
        lemma_encode_concat(tok, a, r, false, 0);
    } else {
        assert(a + r =~= r);
        assert(tok.encode_from(a, false, 0) =~= seq![]);
        assert(tok.encode_from(a, false, 0) + tok.encode_from(r, false, 0) =~= tok.encode_from(
            r,
            false,
            0,
        ));
    }
    lemma_encode_pending(tok, n, b, before, 0);
    lemma_encode_step(tok, b, before, n);
    lemma_encode_step(tok, b, false, 0);
    let tail = tok.encode_from(b.skip(1), joins(b[0]), 0);
    let head = head_ids(tok, b[0], false, 0);
    assert(head_ids(tok, b[0], before, n) =~= spaces + head);
    assert((spaces + head) + tail =~= spaces + (head + tail));
    assert(tok.encode_from(a, false, 0) + (spaces + tok.encode_from(b, false, 0))
        =~= tok.encode_from(a, false, 0) + spaces + tok.encode_from(b, false, 0));
}

// ---------------------------------------------------------------------------
// Decoding
// ---------------------------------------------------------------------------

/// The decoder's memory behind some ids.
spec fn memory(tok: WhitelistTokenizer, ids: Seq<u32>, after_word: bool) -> bool
    decreases ids.len(),
{
    if ids.len() == 0 {
        after_word
    } else {
        joins_next(tok, ids.last(), memory(tok, ids.drop_last(), after_word))
    }
}

proof fn lemma_memory_front(tok: WhitelistTokenizer, ids: Seq<u32>, after_word: bool)
    requires
        ids.len() > 0,
    ensures
        memory(tok, ids, after_word) == memory(
            tok,
            ids.skip(1),
            joins_next(tok, ids[0], after_word),
        ),
    decreases ids.len(),
{
    let rest = ids.skip(1);
    if ids.len() == 1 {
        assert(ids.drop_last() =~= seq![]);
        assert(memory(tok, ids.drop_last(), after_word) == after_word);
        assert(rest =~= seq![]);
    } else {
        lemma_memory_front(tok, ids.drop_last(), after_word);
        assert(ids.drop_last().skip(1) =~= rest.drop_last());
    }
}

proof fn lemma_decode_push(tok: WhitelistTokenizer, ids: Seq<u32>, id: u32, after_word: bool)
    ensures
        tok.decode_from(ids.push(id), after_word) == tok.decode_from(ids, after_word) + head_text(
            tok,
            id,
            memory(tok, ids, after_word),
        ),
    decreases ids.len(),
{
    let more = ids.push(id);
    lemma_decode_step(tok, more, after_word);
    if ids.len() == 0 {
        assert(more.skip(1) =~= seq![]);
        assert(tok.decode_from(more.skip(1), joins_next(tok, id, after_word)) =~= seq![]);
        assert(tok.decode_from(ids, after_word) =~= seq![]);
        assert(tok.decode_from(more, after_word) =~= tok.decode_from(ids, after_word) + head_text(
            tok,
            id,
            after_word,
        ));
    } else {
        let rest = ids.skip(1);
        let next = joins_next(tok, ids[0], after_word);
        lemma_decode_step(tok, ids, after_word);
        lemma_memory_front(tok, ids, after_word);
        lemma_decode_push(tok, rest, id, next);
        assert(more.skip(1) =~= rest.push(id));
        let head = head_text(tok, ids[0], after_word);
        let middle = tok.decode_from(rest, next);
        let last = head_text(tok, id, memory(tok, rest, next));
        assert(head + (middle + last) =~= (head + middle) + last);
    }
}

/// An id that a following word is set apart from: that of a word, that for
/// unknown, that of a special token, or that of the contraction suffix.
pub open spec fn sets_apart(tok: WhitelistTokenizer, id: u32) -> bool {
    &&& id < tok.words().len()
    &&& id >= tok.n_fixed || id == tok.unk_id || tok.words()[id as int] == seq!['\'', 's']
}

/// An id that the decoder passes over in looking for the one before: that of a
/// space, or one without a token.
pub open spec fn passed_over(tok: WhitelistTokenizer, id: u32) -> bool {
    id == tok.space_id || id >= tok.words().len()
}

/// A word behind these ids is set apart by a space: the last of them that is
/// not passed over asks for it.
pub open spec fn apart_after(tok: WhitelistTokenizer, ids: Seq<u32>) -> bool {
    exists|i: int|
        0 <= i < ids.len() && sets_apart(tok, #[trigger] ids[i]) && !passed_over(tok, ids[i])
            && forall|j: int| i < j < ids.len() ==> passed_over(tok, #[trigger] ids[j])
}

proof fn lemma_memory(tok: WhitelistTokenizer, lines: Seq<Seq<char>>, ids: Seq<u32>)
    requires
        tok.built_from(lines),
    ensures
        memory(tok, ids, false) == apart_after(tok, ids),
    decreases ids.len(),
{
    lemma_unk(tok, lines);
    assert(seq!['\n'].len() == 1 && seq!['\'', 's'].len() == 2);
    if ids.len() > 0 {
        let init = ids.drop_last();
        let n = ids.len() - 1;
        lemma_memory(tok, lines, init);
        if passed_over(tok, ids.last()) {
            if apart_after(tok, init) {
                let i = choose|i: int|
                    0 <= i < init.len() && sets_apart(tok, #[trigger] init[i]) && !passed_over(
                        tok,
                        init[i],
                    ) && forall|j: int| i < j < init.len() ==> passed_over(tok, #[trigger] init[j]);
                assert(ids[i] == init[i]);
                assert forall|j: int| i < j < ids.len() implies passed_over(
                    tok,
                    #[trigger] ids[j],
                ) by {
                    if j < n {
                        assert(ids[j] == init[j]);
                    }
                }
                assert(apart_after(tok, ids));
            }
            if apart_after(tok, ids) {
                let i = choose|i: int|
                    0 <= i < ids.len() && sets_apart(tok, #[trigger] ids[i]) && !passed_over(
                        tok,
                        ids[i],
                    ) && forall|j: int| i < j < ids.len() ==> passed_over(tok, #[trigger] ids[j]);
                assert(i < n);
                assert(init[i] == ids[i]);
                assert forall|j: int| i < j < init.len() implies passed_over(
                    tok,
                    #[trigger] init[j],
                ) by {
                    assert(init[j] == ids[j]);
                }
                assert(apart_after(tok, init));
            }
        } else {
            if sets_apart(tok, ids.last()) {
                assert(sets_apart(tok, ids[n]) && !passed_over(tok, ids[n]));
                assert(apart_after(tok, ids));
            } else if apart_after(tok, ids) {
                let i = choose|i: int|
                    0 <= i < ids.len() && sets_apart(tok, #[trigger] ids[i]) && !passed_over(
                        tok,
                        ids[i],
                    ) && forall|j: int| i < j < ids.len() ==> passed_over(tok, #[trigger] ids[j]);
                assert(i == n || passed_over(tok, ids[n]));
            }
        }
    }
}

/// How the text grows with one more id: not at all where the id has no token;
/// otherwise by the token, and before it a space where the token is a word and
/// the ids before it set it apart.
pub proof fn law_decoding_grows_by_tokens(
    tok: WhitelistTokenizer,
    lines: Seq<Seq<char>>,
    ids: Seq<u32>,
    id: u32,
)
    requires
        tok.built_from(lines),
    ensures
        tok.decoding(Seq::<u32>::empty()) == Seq::<char>::empty(),
        id >= tok.words().len() ==> tok.decoding(ids.push(id)) == tok.decoding(ids),
        id < tok.words().len() ==> tok.decoding(ids.push(id)) == tok.decoding(ids) + (
        if id >= tok.n_fixed && apart_after(tok, ids) {
            seq![' ']
        } else {
            seq![]
        }) + tok.words()[id as int],
{
    lemma_unk(tok, lines);
    lemma_memory(tok, lines, ids);
    lemma_decode_push(tok, ids, id, false);
    assert(tok.decoding(Seq::<u32>::empty()) =~= Seq::<char>::empty());
    if id >= tok.words().len() {
        assert(tok.decoding(ids) + Seq::<char>::empty() =~= tok.decoding(ids));
    } else {
        let gap = if id >= tok.n_fixed && apart_after(tok, ids) {
            seq![' ']
        } else {
            Seq::<char>::empty()
        };
        let token = tok.words()[id as int];
        assert(head_text(tok, id, memory(tok, ids, false)) =~= gap + token);
        assert(tok.decoding(ids) + (gap + token) =~= tok.decoding(ids) + gap + token);
    }
}

} // verus!
