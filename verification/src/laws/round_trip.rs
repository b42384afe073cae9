//! What decoding gives back of an encoded text.
use crate::counting::{equal_to, lemma_count_if_none, lemma_count_if_zero};
use crate::laws::codec::{
    head_ids, is_unknown, joins, law_unknowns_are_replaced_one_for_one, lemma_encode_step,
    lemma_fixed_id, lemma_unk, lemma_word_id, shown, spaces, unknown_text,
};
use crate::laws::stream::{
    all_stream_items, canonical, canonical_char, law_plain_form_has_same_stream, law_stream_items,
    stream_item, white_space_item,
};
use crate::splitter::has_suffix;
use crate::stream::{
    boundary, classify, classify_part, classify_split, fixed_each, has_separator, not_inner_punct,
    not_white_space, punct, scan, separator_item, split_rest, stream_of, surface_items, ItemView,
    Separator,
};
use crate::text::{
    all_letters, ascii_lowercase, is_white_space, lemma_prefix_len, lemma_suffix_len, normalized,
    prefix_len, suffix_len,
};
use crate::tokenizer::{closes_word, explicit_spaces, implicit_space, WhitelistTokenizer};
use crate::vocab::is_whole_contraction;
use vstd::prelude::*;

verus! {

// ---------------------------------------------------------------------------
// The text of a stream
// ---------------------------------------------------------------------------

/// The text that an item is decoded to.
pub open spec fn item_text(tok: WhitelistTokenizer, item: ItemView) -> Seq<char> {
    match item {
        ItemView::Word(w) => shown(tok, w),
        ItemView::Fixed(t) => shown(tok, t),
        ItemView::Unk => unknown_text(),
        ItemView::Sp => seq![' '],
        ItemView::Nl => seq!['\n'],
    }
}

/// An item that is decoded like a word.
pub open spec fn word_kind(item: ItemView) -> bool {
    item is Word || item is Unk
}

/// Whether a space is put between two items that stand side by side.
pub open spec fn glued(a: ItemView, b: ItemView) -> bool {
    joins(a) && word_kind(b)
}

/// The texts of the items of a stream, one after the other, with a space
/// wherever a word stands directly behind a word or a contraction suffix.
pub open spec fn rendering(tok: WhitelistTokenizer, items: Seq<ItemView>) -> Seq<char>
    decreases items.len(),
{
    if items.len() == 0 {
        seq![]
    } else {
        item_text(tok, items[0]) + implicit_space(items.len() > 1 && glued(items[0], items[1]))
            + rendering(tok, items.skip(1))
    }
}

/// The space ids before some ids are decoded to spaces before their text.
proof fn lemma_decode_spaces(
    tok: WhitelistTokenizer,
    lines: Seq<Seq<char>>,
    n: nat,
    ids: Seq<u32>,
    after_word: bool,
)
    requires
        tok.built_from(lines),
    ensures
        tok.decode_from(tok.space_ids(n) + ids, after_word) == spaces(n) + tok.decode_from(
            ids,
            after_word,
        ),
    decreases n,
{
    lemma_unk(tok, lines);
    if n == 0 {
        assert(tok.space_ids(0) + ids =~= ids);
        assert(spaces(0) + tok.decode_from(ids, after_word) =~= tok.decode_from(ids, after_word));
    } else {
        let m = (n - 1) as nat;
        let list = tok.space_ids(n) + ids;
        assert(list.skip(1) =~= tok.space_ids(m) + ids);
        assert(list[0] == tok.space_id);
        lemma_decode_spaces(tok, lines, m, ids, after_word);
        assert(spaces(n) + tok.decode_from(ids, after_word) =~= seq![' '] + (spaces(m)
            + tok.decode_from(ids, after_word)));
    }
}

/// One id that is no space, behind spaces.
proof fn lemma_decode_head(
    tok: WhitelistTokenizer,
    lines: Seq<Seq<char>>,
    n: nat,
    id: u32,
    tail: Seq<u32>,
    after_word: bool,
)
    requires
        tok.built_from(lines),
        id < tok.words().len(),
        id != tok.space_id,
    ensures
        tok.decode_from(tok.space_ids(n).push(id) + tail, after_word) == spaces(n)
            + implicit_space(after_word && tok.is_word_id(id) && id != tok.newline_id)
            + tok.words()[id as int] + tok.decode_from(
            tail,
            id != tok.newline_id && (tok.is_word_id(id) || closes_word(tok.words()[id as int])),
        ),
{
    let list = seq![id] + tail;
    assert(tok.space_ids(n).push(id) + tail =~= tok.space_ids(n) + list);
    lemma_decode_spaces(tok, lines, n, list, after_word);
    assert(list.skip(1) =~= tail);
    let gap = implicit_space(after_word && tok.is_word_id(id) && id != tok.newline_id);
    let token = tok.words()[id as int];
    let rest = tok.decode_from(
        tail,
        id != tok.newline_id && (tok.is_word_id(id) || closes_word(token)),
    );
    assert(tok.decode_from(list, after_word) =~= gap + token + rest);
    assert(spaces(n) + (gap + token + rest) =~= spaces(n) + gap + token + rest);
}

/// The ids of one item that is no space, and of those that follow.
proof fn lemma_decode_item(
    tok: WhitelistTokenizer,
    lines: Seq<Seq<char>>,
    item: ItemView,
    after_word: bool,
    k: nat,
    tail: Seq<u32>,
)
    requires
        tok.built_from(lines),
        stream_item(item),
        item != ItemView::Sp,
    ensures
        tok.decode_from(head_ids(tok, item, after_word, k) + tail, after_word) == spaces(k)
            + implicit_space(after_word && k == 0 && word_kind(item)) + item_text(tok, item)
            + tok.decode_from(tail, joins(item)),
{
    lemma_unk(tok, lines);
    let n = explicit_spaces(after_word, k);
    let gap = implicit_space(after_word && k == 0);
    match item {
        ItemView::Word(w) => {
            lemma_word_id(tok, lines, w);
            lemma_decode_head(tok, lines, n, tok.id_of(w), tail, after_word);
            assert(spaces(n) + implicit_space(after_word) =~= spaces(k) + gap);
        },
        ItemView::Unk => {
            lemma_decode_head(tok, lines, n, tok.unk_id, tail, after_word);
            assert(spaces(n) + implicit_space(after_word) =~= spaces(k) + gap);
        },
        ItemView::Fixed(t) => {
            lemma_fixed_id(tok, lines, t);
            lemma_decode_head(tok, lines, k, tok.id_of(t), tail, after_word);
        },
        ItemView::Nl => {
            lemma_decode_head(tok, lines, k, tok.newline_id, tail, after_word);
        },
        ItemView::Sp => {},
    }
}

proof fn lemma_decode_encode(
    tok: WhitelistTokenizer,
    lines: Seq<Seq<char>>,
    items: Seq<ItemView>,
    after_word: bool,
    k: nat,
)
    requires
        tok.built_from(lines),
        all_stream_items(items),
    ensures
        tok.decode_from(tok.encode_from(items, after_word, k), after_word) == spaces(k)
            + implicit_space(after_word && k == 0 && items.len() > 0 && word_kind(items[0]))
            + rendering(tok, items),
    decreases items.len(),
{
    let lead = spaces(k) + implicit_space(
        after_word && k == 0 && items.len() > 0 && word_kind(items[0]),
    );
    if items.len() == 0 {
        let none = Seq::<u32>::empty();
        assert(tok.encode_from(items, after_word, k) =~= tok.space_ids(k) + none);
        lemma_decode_spaces(tok, lines, k, none, after_word);
        assert(spaces(k) + tok.decode_from(none, after_word) =~= lead + rendering(tok, items));
    } else {
        let item = items[0];
        let rest = items.skip(1);
        assert(all_stream_items(rest)) by {
            assert forall|i: int| 0 <= i < rest.len() implies stream_item(#[trigger] rest[i]) by {
                assert(stream_item(items[i + 1]));
            }
        }
        assert(stream_item(item));
        lemma_encode_step(tok, items, after_word, k);
        let gap = implicit_space(items.len() > 1 && glued(item, items[1]));
        let text = item_text(tok, item);
        if item == ItemView::Sp {
            let ids = tok.encode_from(rest, after_word, k + 1);
            lemma_decode_encode(tok, lines, rest, after_word, k + 1);
            assert(head_ids(tok, item, after_word, k) + ids =~= ids);
            assert(spaces(k + 1) + implicit_space(false) + rendering(tok, rest) =~= lead + (text
                + gap + rendering(tok, rest)));
        } else {
            let tail = tok.encode_from(rest, joins(item), 0);
            lemma_decode_encode(tok, lines, rest, joins(item), 0);
            assert(spaces(0) + gap + rendering(tok, rest) =~= gap + rendering(tok, rest));
            lemma_decode_item(tok, lines, item, after_word, k, tail);
            assert(lead + text + (gap + rendering(tok, rest)) =~= lead + (text + gap + rendering(
                tok,
                rest,
            )));
        }
    }
}

/// Decoding gives back what the stream of the encoded text says: each space
/// and each line break in its place, each word and punctuation token as it is
/// in the stream, the text for unknown for everything else, and one space
/// wherever a word stands directly behind another or behind a suffix.
pub proof fn law_decoding_renders_the_stream(
    tok: WhitelistTokenizer,
    lines: Seq<Seq<char>>,
    text: Seq<char>,
)
    requires
        tok.built_from(lines),
    ensures
        tok.decoding(tok.encoding(text, false)) == rendering(tok, stream_of(text)),
{
    law_stream_items(text);
    lemma_decode_encode(tok, lines, stream_of(text), false, 0);
    assert(spaces(0) + implicit_space(false) + rendering(tok, stream_of(text)) =~= rendering(
        tok,
        stream_of(text),
    ));
}

// ---------------------------------------------------------------------------
// What a stream spells
// ---------------------------------------------------------------------------

/// The text that an item has in the stream.
pub open spec fn own_text(item: ItemView) -> Seq<char> {
    match item {
        ItemView::Word(w) => w,
        ItemView::Fixed(t) => t,
        ItemView::Unk => unknown_text(),
        ItemView::Sp => seq![' '],
        ItemView::Nl => seq!['\n'],
    }
}

/// The texts of the items of a stream, one after the other.
pub open spec fn spelling(items: Seq<ItemView>) -> Seq<char>
    decreases items.len(),
{
    if items.len() == 0 {
        seq![]
    } else {
        own_text(items[0]) + spelling(items.skip(1))
    }
}

/// No item is unknown.
pub open spec fn no_unknown(items: Seq<ItemView>) -> bool {
    forall|i: int| 0 <= i < items.len() ==> (#[trigger] items[i]) != ItemView::Unk
}

/// An item behind which a word may stand in a stream without unknowns.
spec fn loose(item: ItemView) -> bool {
    match item {
        ItemView::Fixed(t) => t.len() == 1,
        ItemView::Sp => true,
        ItemView::Nl => true,
        _ => false,
    }
}

/// Words stand behind white space and punctuation only.
spec fn parted(items: Seq<ItemView>) -> bool {
    forall|i: int| 0 < i < items.len() && (#[trigger] items[i]) is Word ==> loose(items[i - 1])
}

/// The items spell the text, and words are parted.
spec fn spells(items: Seq<ItemView>, text: Seq<char>) -> bool {
    spelling(items) == text && parted(items)
}

proof fn lemma_spelling_add(a: Seq<ItemView>, b: Seq<ItemView>)
    ensures
        spelling(a + b) == spelling(a) + spelling(b),
    decreases a.len(),
{
    if a.len() == 0 {
        assert(a + b =~= b);
        assert(spelling(a) + spelling(b) =~= spelling(b));
    } else {
        lemma_spelling_add(a.skip(1), b);
        assert((a + b).skip(1) =~= a.skip(1) + b);
        assert(own_text(a[0]) + (spelling(a.skip(1)) + spelling(b)) =~= spelling(a) + spelling(b));
    }
}

proof fn lemma_spells_one(item: ItemView)
    ensures
        spells(seq![item], own_text(item)),
{
    assert(seq![item].skip(1) =~= seq![]);
    assert(spelling(seq![item].skip(1)) =~= seq![]);
    assert(spelling(seq![item]) =~= own_text(item));
}

proof fn lemma_spells_add(a: Seq<ItemView>, s: Seq<char>, b: Seq<ItemView>, t: Seq<char>)
    requires
        spells(a, s),
        spells(b, t),
        a.len() > 0 && b.len() > 0 && b[0] is Word ==> loose(a.last()),
    ensures
        spells(a + b, s + t),
{
    lemma_spelling_add(a, b);
    let c = a + b;
    assert forall|i: int| 0 < i < c.len() && (#[trigger] c[i]) is Word implies loose(c[i - 1]) by {
        if i < a.len() {
            assert(c[i] == a[i]);
        } else if i > a.len() {
            assert(c[i] == b[i - a.len()]);
        }
    }
}

proof fn lemma_no_unknown_parts(a: Seq<ItemView>, b: Seq<ItemView>)
    requires
        no_unknown(a + b),
    ensures
        no_unknown(a),
        no_unknown(b),
{
    assert forall|i: int| 0 <= i < a.len() implies (#[trigger] a[i]) != ItemView::Unk by {
        assert((a + b)[i] == a[i]);
    }
    assert forall|i: int| 0 <= i < b.len() implies (#[trigger] b[i]) != ItemView::Unk by {
        assert((a + b)[a.len() + i] == b[i]);
    }
}

/// A core without unknowns spells its lowercase.
proof fn lemma_classify_spells(core: Seq<char>)
    requires
        core.len() > 0,
        no_unknown(classify(core)),
    ensures
        spells(classify(core), ascii_lowercase(core)),
    decreases core.len(), 2int,
{
    let low = ascii_lowercase(core);
    let items = classify(core);
    if is_whole_contraction(low) {
        lemma_spells_one(ItemView::Word(low));
    } else if has_suffix(core) {
        let n = core.len() - 2;
        let head = classify_part(core.take(n));
        let suffix = ItemView::Fixed(seq!['\'', 's']);
        lemma_no_unknown_parts(head, seq![suffix]);
        lemma_part_spells(core.take(n));
        lemma_spells_one(suffix);
        lemma_spells_add(head, ascii_lowercase(core.take(n)), seq![suffix], seq!['\'', 's']);
        assert(ascii_lowercase(core.take(n)) + seq!['\'', 's'] =~= low);
    } else if has_separator(Separator::Punct, core) {
        lemma_split_spells(core);
    } else if has_separator(Separator::Dash, core) {
        let n = boundary(Separator::Dash, core) as int;
        let head = classify_part(core.take(n));
        let item = seq![separator_item(Separator::Dash, core[n])];
        let rest = split_rest(Separator::Dash, core.skip(n + 1));
        assert(items == head + item + rest);
        lemma_no_unknown_parts(head + item, rest);
        lemma_no_unknown_parts(head, item);
        assert(item[0] == ItemView::Unk);
    } else if all_letters(core) {
        lemma_spells_one(ItemView::Word(low));
    } else {
        assert(items[0] == ItemView::Unk);
    }
}

proof fn lemma_part_spells(part: Seq<char>)
    requires
        no_unknown(classify_part(part)),
    ensures
        spells(classify_part(part), ascii_lowercase(part)),
    decreases part.len(), 3int,
{
    if part.len() > 0 {
        lemma_classify_spells(part);
    } else {
        assert(spelling(classify_part(part)) =~= ascii_lowercase(part));
    }
}

proof fn lemma_split_spells(s: Seq<char>)
    requires
        has_separator(Separator::Punct, s),
        no_unknown(classify_split(Separator::Punct, s)),
    ensures
        spells(classify_split(Separator::Punct, s), ascii_lowercase(s)),
    decreases s.len(), 0int,
{
    let sep = Separator::Punct;
    let n = boundary(sep, s) as int;
    lemma_prefix_len(s, not_inner_punct());
    let head = classify_part(s.take(n));
    let item = separator_item(sep, s[n]);
    let rest = s.skip(n + 1);
    let tail = split_rest(sep, rest);
    lemma_no_unknown_parts(head + seq![item], tail);
    lemma_no_unknown_parts(head, seq![item]);
    lemma_part_spells(s.take(n));
    if has_separator(sep, rest) {
        lemma_split_spells(rest);
    } else {
        lemma_part_spells(rest);
    }
    lemma_spells_one(item);
    let before = ascii_lowercase(s.take(n));
    lemma_spells_add(head, before, seq![item], seq![s[n]]);
    lemma_spells_add(head + seq![item], before + seq![s[n]], tail, ascii_lowercase(rest));
    assert(!not_inner_punct()(s[n]));
    assert(before + seq![s[n]] + ascii_lowercase(rest) =~= ascii_lowercase(s));
}

proof fn lemma_fixed_each_spells(s: Seq<char>)
    ensures
        spells(fixed_each(s), s),
    decreases s.len(),
{
    if s.len() == 0 {
        assert(spelling(fixed_each(s)) =~= s);
    } else {
        let head = s.drop_last();
        let last = ItemView::Fixed(seq![s.last()]);
        lemma_fixed_each_spells(head);
        lemma_spells_one(last);
        lemma_spells_add(fixed_each(head), head, seq![last], seq![s.last()]);
        assert(fixed_each(s) =~= fixed_each(head) + seq![last]);
        assert(s =~= head + seq![s.last()]);
    }
}

proof fn lemma_surface_spells(surface: Seq<char>)
    requires
        ascii_lowercase(surface) == surface,
        no_unknown(surface_items(surface)),
    ensures
        spells(surface_items(surface), surface),
{
    let lead = prefix_len(surface, punct()) as int;
    let rest = surface.skip(lead);
    let core_len = rest.len() - suffix_len(rest, punct());
    lemma_prefix_len(surface, punct());
    lemma_suffix_len(rest, punct());
    let core = rest.take(core_len);
    let a = fixed_each(surface.take(lead));
    let b = classify_part(core);
    let c = fixed_each(rest.skip(core_len));
    lemma_no_unknown_parts(a + b, c);
    lemma_no_unknown_parts(a, b);
    assert(ascii_lowercase(core) =~= core) by {
        assert forall|i: int| 0 <= i < core.len() implies ascii_lowercase(core)[i] == core[i] by {
            assert(ascii_lowercase(surface)[lead + i] == surface[lead + i]);
        }
    }
    lemma_fixed_each_spells(surface.take(lead));
    lemma_part_spells(core);
    lemma_fixed_each_spells(rest.skip(core_len));
    if a.len() > 0 {
        assert(a.last() == ItemView::Fixed(seq![surface.take(lead).last()]));
    }
    lemma_spells_add(a, surface.take(lead), b, core);
    lemma_spells_add(a + b, surface.take(lead) + core, c, rest.skip(core_len));
    assert(surface.take(lead) + core + rest.skip(core_len) =~= surface);
}

/// A text in its plain form.
pub open spec fn is_plain(s: Seq<char>) -> bool {
    canonical(s) == s
}

proof fn lemma_plain_part(s: Seq<char>, i: int, j: int)
    requires
        is_plain(s),
        0 <= i <= j <= s.len(),
    ensures
        is_plain(s.subrange(i, j)),
{
    let t = s.subrange(i, j);
    assert forall|k: int| 0 <= k < t.len() implies canonical(t)[k] == t[k] by {
        assert(canonical(s)[i + k] == canonical_char(s[i + k]));
    }
    assert(canonical(t) =~= t);
}

proof fn lemma_scan_spells(s: Seq<char>)
    requires
        is_plain(s),
        no_unknown(scan(s)),
    ensures
        spells(scan(s), s),
    decreases s.len(),
{
    if s.len() == 0 {
        assert(spelling(scan(s)) =~= s);
    } else if is_white_space(s[0]) {
        let item = white_space_item(s[0]);
        let rest = s.skip(1);
        assert(scan(s) == seq![item] + scan(rest));
        lemma_no_unknown_parts(seq![item], scan(rest));
        lemma_plain_part(s, 1, s.len() as int);
        lemma_scan_spells(rest);
        assert(canonical(s)[0] == canonical_char(s[0]));
        lemma_spells_one(item);
        lemma_spells_add(seq![item], seq![s[0]], scan(rest), rest);
        assert(seq![s[0]] + rest =~= s);
    } else {
        let n = prefix_len(s, not_white_space()) as int;
        lemma_prefix_len(s, not_white_space());
        let run = s.take(n);
        let rest = s.skip(n);
        lemma_no_unknown_parts(surface_items(run), scan(rest));
        lemma_plain_part(s, n, s.len() as int);
        assert(ascii_lowercase(run) =~= run) by {
            assert forall|i: int| 0 <= i < run.len() implies ascii_lowercase(run)[i] == run[i] by {
                assert(not_white_space()(s[i]));
                assert(canonical(s)[i] == canonical_char(s[i]));
            }
        }
        lemma_surface_spells(run);
        lemma_scan_spells(rest);
        if rest.len() > 0 {
            assert(!not_white_space()(s[n]));
            assert(rest[0] == s[n]);
        }
        lemma_spells_add(surface_items(run), run, scan(rest), rest);
        assert(run + rest =~= s);
    }
}

proof fn lemma_stream_spells(text: Seq<char>)
    requires
        no_unknown(stream_of(text)),
    ensures
        spells(stream_of(text), canonical(text)),
{
    let s = canonical(text);
    law_plain_form_has_same_stream(text);
    assert(normalized(s) =~= s) by {
        assert forall|i: int| 0 <= i < s.len() implies normalized(s)[i] == s[i] by {
            assert(s[i] == canonical_char(text[i]));
        }
    }
    lemma_scan_spells(s);
}

/// The stream spells the text: where nothing is unknown, the texts of its
/// items make up the plain form of the text, character by character.
pub proof fn law_stream_spells_the_text(text: Seq<char>)
    requires
        no_unknown(stream_of(text)),
    ensures
        spelling(stream_of(text)) == canonical(text),
{
    lemma_stream_spells(text);
}

// ---------------------------------------------------------------------------
// Round trips
// ---------------------------------------------------------------------------

proof fn lemma_known_rendering(
    tok: WhitelistTokenizer,
    lines: Seq<Seq<char>>,
    items: Seq<ItemView>,
)
    requires
        tok.built_from(lines),
        all_stream_items(items),
        forall|i: int| 0 <= i < items.len() ==> !is_unknown(tok)(#[trigger] items[i]),
        parted(items),
    ensures
        rendering(tok, items) == spelling(items),
    decreases items.len(),
{
    if items.len() > 0 {
        let rest = items.skip(1);
        assert forall|i: int| 0 <= i < rest.len() implies stream_item(#[trigger] rest[i])
            && !is_unknown(tok)(rest[i]) by {
            assert(stream_item(items[i + 1]));
        }
        assert forall|i: int| 0 < i < rest.len() && (#[trigger] rest[i]) is Word implies loose(
            rest[i - 1],
        ) by {
            assert(items[i + 1] is Word);
        }
        lemma_known_rendering(tok, lines, rest);
        assert(stream_item(items[0]));
        match items[0] {
            ItemView::Fixed(t) => lemma_fixed_id(tok, lines, t),
            _ => {},
        }
        assert(item_text(tok, items[0]) == own_text(items[0]));
        if items.len() > 1 {
            assert(!is_unknown(tok)(items[1]));
            assert(!glued(items[0], items[1])) by {
                if items[1] is Word {
                    assert(loose(items[0]));
                }
            }
        }
        assert(rendering(tok, items) =~= spelling(items));
    }
}

/// Encoding and decoding give back the plain form of a text: its ASCII letters
/// in lowercase, its quotation marks in ASCII and its white space as spaces
/// and line breaks, each character in its place. This holds of every text
/// whose encoding holds no unknown. What was decoded has the same encoding
/// again.
pub proof fn law_round_trip(tok: WhitelistTokenizer, lines: Seq<Seq<char>>, text: Seq<char>)
    requires
        tok.built_from(lines),
        !tok.encoding(text, false).contains(tok.unk_id),
    ensures
        tok.decoding(tok.encoding(text, false)) == canonical(text),
        tok.encoding(canonical(text), false) == tok.encoding(text, false),
{
    let items = stream_of(text);
    let ids = tok.encoding(text, false);
    law_plain_form_has_same_stream(text);
    law_stream_items(text);
    law_unknowns_are_replaced_one_for_one(tok, lines, text);
    assert forall|i: int| 0 <= i < ids.len() implies !equal_to(tok.unk_id)(#[trigger] ids[i]) by {
        assert(ids.contains(ids[i]));
    }
    lemma_count_if_none(ids, equal_to(tok.unk_id));
    lemma_count_if_zero(items, is_unknown(tok));
    assert forall|i: int| 0 <= i < items.len() implies (#[trigger] items[i]) != ItemView::Unk by {
        assert(!is_unknown(tok)(items[i]));
    }
    lemma_stream_spells(text);
    lemma_known_rendering(tok, lines, items);
    law_decoding_renders_the_stream(tok, lines, text);
}

/// A text in plain form whose encoding holds no unknown comes back as it was.
pub proof fn law_plain_text_round_trip(
    tok: WhitelistTokenizer,
    lines: Seq<Seq<char>>,
    text: Seq<char>,
)
    requires
        tok.built_from(lines),
        is_plain(text),
        !tok.encoding(text, false).contains(tok.unk_id),
    ensures
        tok.decoding(tok.encoding(text, false)) == text,
{
    law_round_trip(tok, lines, text);
}

} // verus!
