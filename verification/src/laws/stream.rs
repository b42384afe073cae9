//! Laws of the pretokenizer.
use crate::counting::{count_if, lemma_count_if_add, lemma_count_if_none, lemma_count_if_one};
use crate::splitter::{has_suffix, is_dash, not_dash};
use crate::stream::{
    boundary, classify, classify_part, classify_split, fixed_each, has_separator,
    is_punct, not_inner_punct, not_white_space, punct, scan, separator_item,
    split_rest, stream_of, surface_items, ItemView, Separator,
};
use crate::text::{
    all_letters, all_small_letters, ascii_lower, ascii_lowercase, is_letter,
    is_small_letter, is_white_space, lemma_prefix_len, lemma_prefix_len_is, lemma_suffix_len,
    lemma_suffix_len_is, normalized, plain_quote, prefix_len, suffix_len,
};
use crate::vocab::{is_whole_contraction, lemma_contraction_shape};
use vstd::prelude::*;

verus! {

// ---------------------------------------------------------------------------
// White space
// ---------------------------------------------------------------------------

/// The item of a white-space character.
pub open spec fn white_space_item(c: char) -> ItemView {
    if c == '\n' {
        ItemView::Nl
    } else {
        ItemView::Sp
    }
}

/// What precedes white space does not depend on what follows it.
proof fn lemma_scan_append(a: Seq<char>, b: Seq<char>)
    requires
        b.len() > 0 ==> is_white_space(b[0]),
    ensures
        scan(a + b) == scan(a) + scan(b),
    decreases a.len(),
{
    if a.len() == 0 {
        assert(a + b =~= b);
        assert(scan(a) + scan(b) =~= scan(b));
    } else if is_white_space(a[0]) {
        lemma_scan_append(a.skip(1), b);
        assert((a + b).skip(1) =~= a.skip(1) + b);
        let item = seq![white_space_item(a[0])];
        assert(item + (scan(a.skip(1)) + scan(b)) =~= (item + scan(a.skip(1))) + scan(b));
    } else {
        let n = prefix_len(a, not_white_space());
        lemma_prefix_len(a, not_white_space());
        assert forall|i: int| 0 <= i < n implies not_white_space()(#[trigger] (a + b)[i]) by {
            assert((a + b)[i] == a[i]);
        }
        lemma_prefix_len_is(a + b, not_white_space(), n);
        lemma_scan_append(a.skip(n as int), b);
        assert((a + b).take(n as int) =~= a.take(n as int));
        assert((a + b).skip(n as int) =~= a.skip(n as int) + b);
        let head = surface_items(a.take(n as int));
        assert(head + (scan(a.skip(n as int)) + scan(b)) =~= (head + scan(a.skip(n as int)))
            + scan(b));
    }
}

/// White space separates: the stream of two texts with a white-space
/// character between them is the stream of the first, the item of that
/// character, and the stream of the second.
pub proof fn law_white_space_separates(a: Seq<char>, c: char, b: Seq<char>)
    requires
        is_white_space(c),
    ensures
        stream_of(a.push(c) + b) == stream_of(a).push(white_space_item(c)) + stream_of(b),
{
    let x = normalized(a);
    let y = normalized(b);
    let rest = seq![c] + y;
    assert(plain_quote(c) == c);
    assert(normalized(a.push(c) + b) =~= x + rest);
    lemma_scan_append(x, rest);
    assert(rest.skip(1) =~= y);
    assert(scan(rest) == seq![white_space_item(c)] + scan(y));
    assert(scan(x) + (seq![white_space_item(c)] + scan(y)) =~= scan(x).push(white_space_item(c))
        + scan(y));
}

// ---------------------------------------------------------------------------
// The items that a run of characters gives
// ---------------------------------------------------------------------------

/// The texts of fixed tokens in a stream: one punctuation character, or the
/// suffix `'s`.
pub open spec fn fixed_text(t: Seq<char>) -> bool {
    ||| t.len() == 1 && is_punct(t[0])
    ||| t == seq!['\'', 's']
}

/// The words in a stream: whole contractions and texts in small letters.
pub open spec fn word_text(w: Seq<char>) -> bool {
    w.len() > 0 && (is_whole_contraction(w) || all_small_letters(w))
}

/// An item that stands for something other than white space.
pub open spec fn content_item(item: ItemView) -> bool {
    match item {
        ItemView::Word(w) => word_text(w),
        ItemView::Fixed(t) => fixed_text(t),
        ItemView::Unk => true,
        ItemView::Sp => false,
        ItemView::Nl => false,
    }
}

/// Every item stands for something other than white space.
pub open spec fn all_content(items: Seq<ItemView>) -> bool {
    forall|i: int| 0 <= i < items.len() ==> content_item(#[trigger] items[i])
}

proof fn lemma_all_content_add(a: Seq<ItemView>, b: Seq<ItemView>)
    requires
        all_content(a),
        all_content(b),
    ensures
        all_content(a + b),
{
    assert forall|i: int| 0 <= i < (a + b).len() implies content_item(#[trigger] (a + b)[i]) by {
        if i < a.len() {
            assert((a + b)[i] == a[i]);
        } else {
            assert((a + b)[i] == b[i - a.len()]);
        }
    }
}

/// The lowercase of letters is small letters.
pub proof fn lemma_lowercase_letters(s: Seq<char>)
    requires
        all_letters(s),
    ensures
        all_small_letters(ascii_lowercase(s)),
{
    assert forall|i: int| 0 <= i < s.len() implies is_small_letter(
        #[trigger] ascii_lowercase(s)[i],
    ) by {
        assert(is_letter(s[i]));
    }
}

proof fn lemma_classify_content(core: Seq<char>)
    requires
        core.len() > 0,
    ensures
        all_content(classify(core)),
    decreases core.len(), 2int,
{
    let lower = ascii_lowercase(core);
    if is_whole_contraction(lower) {
        lemma_contraction_shape(lower);
    } else if has_suffix(core) {
        lemma_part_content(core.take(core.len() - 2));
        let suffix = seq![ItemView::Fixed(seq!['\'', 's'])];
        lemma_all_content_add(classify_part(core.take(core.len() - 2)), suffix);
    } else if has_separator(Separator::Punct, core) {
        lemma_split_content(Separator::Punct, core);
    } else if has_separator(Separator::Dash, core) {
        lemma_split_content(Separator::Dash, core);
    } else if all_letters(core) {
        lemma_lowercase_letters(core);
    }
}

proof fn lemma_part_content(part: Seq<char>)
    ensures
        all_content(classify_part(part)),
    decreases part.len(), 3int,
{
    if part.len() > 0 {
        lemma_classify_content(part);
    }
}

proof fn lemma_split_content(sep: Separator, s: Seq<char>)
    ensures
        all_content(classify_split(sep, s)),
    decreases s.len(), 0int,
{
    let n = boundary(sep, s) as int;
    if n < s.len() {
        lemma_prefix_len(s, not_inner_punct());
        lemma_prefix_len(s, not_dash());
        let head = classify_part(s.take(n));
        let item = seq![separator_item(sep, s[n])];
        let rest = s.skip(n + 1);
        lemma_part_content(s.take(n));
        if has_separator(sep, rest) {
            lemma_split_content(sep, rest);
        } else {
            lemma_part_content(rest);
        }
        lemma_all_content_add(head, item);
        lemma_all_content_add(head + item, split_rest(sep, rest));
    }
}

proof fn lemma_fixed_each_content(s: Seq<char>)
    requires
        forall|i: int| 0 <= i < s.len() ==> is_punct(#[trigger] s[i]),
    ensures
        all_content(fixed_each(s)),
{
    assert forall|i: int| 0 <= i < s.len() implies content_item(#[trigger] fixed_each(s)[i]) by {
        assert(is_punct(s[i]));
    }
}

/// A run of characters gives words, fixed tokens and unknowns only, no space
/// and no line break. Its words are whole contractions or in small letters;
/// its fixed tokens are punctuation or the contraction suffix.
pub proof fn law_surface_items_are_content(surface: Seq<char>)
    ensures
        all_content(surface_items(surface)),
{
    let lead = prefix_len(surface, punct()) as int;
    let rest = surface.skip(lead);
    let core_len = rest.len() - suffix_len(rest, punct());
    lemma_prefix_len(surface, punct());
    lemma_suffix_len(rest, punct());
    lemma_part_content(rest.take(core_len));
    assert forall|i: int| 0 <= i < lead implies is_punct(#[trigger] surface.take(lead)[i]) by {
        assert(punct()(surface[i]));
    }
    assert forall|i: int| 0 <= i < rest.skip(core_len).len() implies is_punct(
        #[trigger] rest.skip(core_len)[i],
    ) by {
        assert(punct()(rest[core_len + i]));
    }
    lemma_fixed_each_content(surface.take(lead));
    lemma_fixed_each_content(rest.skip(core_len));
    lemma_all_content_add(fixed_each(surface.take(lead)), classify_part(rest.take(core_len)));
    lemma_all_content_add(
        fixed_each(surface.take(lead)) + classify_part(rest.take(core_len)),
        fixed_each(rest.skip(core_len)),
    );
}

/// An item that a stream may hold.
pub open spec fn stream_item(item: ItemView) -> bool {
    item == ItemView::Sp || item == ItemView::Nl || content_item(item)
}

/// Every item is one that a stream may hold.
pub open spec fn all_stream_items(items: Seq<ItemView>) -> bool {
    forall|i: int| 0 <= i < items.len() ==> stream_item(#[trigger] items[i])
}

/// Every item of the stream of a text is a space, a line break, an unknown, a
/// word that is a whole contraction or in small letters, or a fixed token
/// that is punctuation or the contraction suffix.
pub proof fn law_stream_items(text: Seq<char>)
    ensures
        all_stream_items(stream_of(text)),
{
    lemma_scan_items(normalized(text));
}

proof fn lemma_scan_items(s: Seq<char>)
    ensures
        all_stream_items(scan(s)),
    decreases s.len(),
{
    if s.len() > 0 {
        if is_white_space(s[0]) {
            let head = seq![white_space_item(s[0])];
            let tail = scan(s.skip(1));
            lemma_scan_items(s.skip(1));
            assert forall|i: int| 0 <= i < (head + tail).len() implies stream_item(
                #[trigger] (head + tail)[i],
            ) by {
                if i > 0 {
                    assert((head + tail)[i] == tail[i - 1]);
                }
            }
        } else {
            lemma_prefix_len(s, not_white_space());
            let n = prefix_len(s, not_white_space()) as int;
            let head = surface_items(s.take(n));
            let tail = scan(s.skip(n));
            law_surface_items_are_content(s.take(n));
            lemma_scan_items(s.skip(n));
            assert forall|i: int| 0 <= i < (head + tail).len() implies stream_item(
                #[trigger] (head + tail)[i],
            ) by {
                if i < head.len() {
                    assert((head + tail)[i] == head[i]);
                } else {
                    assert((head + tail)[i] == tail[i - head.len()]);
                }
            }
        }
    }
}

// ---------------------------------------------------------------------------
// Counting white space
// ---------------------------------------------------------------------------

/// The white-space characters that do not break a line.
pub open spec fn blank() -> spec_fn(char) -> bool {
    |c: char| is_white_space(c) && c != '\n'
}

/// The line-break character.
pub open spec fn line_break() -> spec_fn(char) -> bool {
    |c: char| c == '\n'
}

/// The item of a space.
pub open spec fn is_sp() -> spec_fn(ItemView) -> bool {
    |item: ItemView| item == ItemView::Sp
}

/// The item of a line break.
pub open spec fn is_nl() -> spec_fn(ItemView) -> bool {
    |item: ItemView| item == ItemView::Nl
}

/// White space is represented by explicit items: the stream holds as many
/// line-break items as the text holds line breaks, and as many space items as
/// the text holds other white-space characters.
pub proof fn law_white_space_is_explicit(text: Seq<char>)
    ensures
        count_if(stream_of(text), is_nl()) == count_if(text, line_break()),
        count_if(stream_of(text), is_sp()) == count_if(text, blank()),
{
    lemma_scan_counts(normalized(text));
    lemma_count_normalized(text, line_break());
    lemma_count_normalized(text, blank());
}

proof fn lemma_count_normalized(s: Seq<char>, p: spec_fn(char) -> bool)
    requires
        forall|c: char| #[trigger] p(plain_quote(c)) == p(c),
    ensures
        count_if(normalized(s), p) == count_if(s, p),
    decreases s.len(),
{
    if s.len() > 0 {
        lemma_count_normalized(s.drop_last(), p);
        assert(normalized(s).drop_last() =~= normalized(s.drop_last()));
        assert(p(plain_quote(s.last())) == p(s.last()));
    }
}

proof fn lemma_scan_counts(s: Seq<char>)
    ensures
        count_if(scan(s), is_nl()) == count_if(s, line_break()),
        count_if(scan(s), is_sp()) == count_if(s, blank()),
    decreases s.len(),
{
    if s.len() > 0 {
        let n = if is_white_space(s[0]) {
            1
        } else {
            prefix_len(s, not_white_space()) as int
        };
        lemma_prefix_len(s, not_white_space());
        let head = if is_white_space(s[0]) {
            seq![white_space_item(s[0])]
        } else {
            surface_items(s.take(n))
        };
        let tail = scan(s.skip(n));
        lemma_scan_counts(s.skip(n));
        assert(scan(s) == head + tail);
        lemma_count_if_add(head, tail, is_nl());
        lemma_count_if_add(head, tail, is_sp());
        assert(s =~= s.take(n) + s.skip(n));
        lemma_count_if_add(s.take(n), s.skip(n), line_break());
        lemma_count_if_add(s.take(n), s.skip(n), blank());
        if is_white_space(s[0]) {
            assert(s.take(1) =~= seq![s[0]]);
            lemma_count_if_one(s[0], line_break());
            lemma_count_if_one(s[0], blank());
            lemma_count_if_one(white_space_item(s[0]), is_nl());
            lemma_count_if_one(white_space_item(s[0]), is_sp());
        } else {
            law_surface_items_are_content(s.take(n));
            assert forall|i: int| 0 <= i < head.len() implies !is_nl()(#[trigger] head[i])
                && !is_sp()(head[i]) by {
                assert(content_item(head[i]));
            }
            lemma_count_if_none(head, is_nl());
            lemma_count_if_none(head, is_sp());
            assert forall|i: int| 0 <= i < n implies !line_break()(#[trigger] s.take(n)[i])
                && !blank()(s.take(n)[i]) by {
                assert(not_white_space()(s[i]));
            }
            lemma_count_if_none(s.take(n), line_break());
            lemma_count_if_none(s.take(n), blank());
        }
    }
}

// ---------------------------------------------------------------------------
// Texts with the same stream
// ---------------------------------------------------------------------------

/// Typographic quotation marks count as their ASCII forms.
pub proof fn law_quotation_marks(text: Seq<char>)
    ensures
        stream_of(normalized(text)) == stream_of(text),
{
    assert(normalized(normalized(text)) =~= normalized(text));
}

/// The plain form of a character: a space for white space other than a line
/// break, the ASCII form of a quotation mark, the small letter of an ASCII
/// letter, and otherwise the character itself.
pub open spec fn canonical_char(c: char) -> char {
    if c == '\n' {
        c
    } else if is_white_space(c) {
        ' '
    } else {
        ascii_lower(plain_quote(c))
    }
}

/// A text with each character in its plain form.
pub open spec fn canonical(text: Seq<char>) -> Seq<char> {
    text.map_values(|c: char| canonical_char(c))
}

proof fn lemma_prefix_len_map(s: Seq<char>, f: spec_fn(char) -> char, p: spec_fn(char) -> bool)
    requires
        forall|c: char| p(#[trigger] f(c)) == p(c),
    ensures
        prefix_len(s.map_values(f), p) == prefix_len(s, p),
{
    let t = s.map_values(f);
    let n = prefix_len(s, p);
    lemma_prefix_len(s, p);
    assert forall|i: int| 0 <= i < n implies p(#[trigger] t[i]) by {
        assert(t[i] == f(s[i]));
    }
    if n < s.len() {
        assert(t[n as int] == f(s[n as int]));
    }
    lemma_prefix_len_is(t, p, n);
}

proof fn lemma_suffix_len_map(s: Seq<char>, f: spec_fn(char) -> char, p: spec_fn(char) -> bool)
    requires
        forall|c: char| p(#[trigger] f(c)) == p(c),
    ensures
        suffix_len(s.map_values(f), p) == suffix_len(s, p),
{
    let t = s.map_values(f);
    let n = suffix_len(s, p);
    lemma_suffix_len(s, p);
    assert forall|i: int| s.len() - n <= i < s.len() implies p(#[trigger] t[i]) by {
        assert(t[i] == f(s[i]));
    }
    if n < s.len() {
        assert(t[s.len() - n - 1] == f(s[s.len() - n - 1]));
    }
    lemma_suffix_len_is(t, p, n);
}

proof fn lemma_classify_lower(core: Seq<char>)
    ensures
        classify(ascii_lowercase(core)) == classify(core),
    decreases core.len(), 2int,
{
    let low = ascii_lowercase(core);
    assert(ascii_lowercase(low) =~= low);
    if core.len() >= 2 {
        assert(low[core.len() - 2] == ascii_lower(core[core.len() - 2]));
        assert(low[core.len() - 1] == ascii_lower(core[core.len() - 1]));
    }
    assert(has_suffix(low) == has_suffix(core));
    lemma_boundary_lower(Separator::Punct, core);
    lemma_boundary_lower(Separator::Dash, core);
    assert(all_letters(low) == all_letters(core)) by {
        if all_letters(low) {
            assert forall|i: int| 0 <= i < core.len() implies is_letter(#[trigger] core[i]) by {
                assert(is_letter(low[i]));
            }
        }
        if all_letters(core) {
            assert forall|i: int| 0 <= i < low.len() implies is_letter(#[trigger] low[i]) by {
                assert(is_letter(core[i]));
            }
        }
    }
    if is_whole_contraction(low) {
    } else if has_suffix(core) {
        let bare = core.take(core.len() - 2);
        assert(low.take(core.len() - 2) =~= ascii_lowercase(bare));
        lemma_part_lower(bare);
    } else if has_separator(Separator::Punct, core) {
        lemma_split_lower(Separator::Punct, core);
    } else if has_separator(Separator::Dash, core) {
        lemma_split_lower(Separator::Dash, core);
    }
}

proof fn lemma_boundary_lower(sep: Separator, s: Seq<char>)
    ensures
        boundary(sep, ascii_lowercase(s)) == boundary(sep, s),
{
    let f = |c: char| ascii_lower(c);
    lemma_prefix_len_map(s, f, not_inner_punct());
    lemma_prefix_len_map(s, f, not_dash());
}

proof fn lemma_part_lower(part: Seq<char>)
    ensures
        classify_part(ascii_lowercase(part)) == classify_part(part),
    decreases part.len(), 3int,
{
    if part.len() > 0 {
        lemma_classify_lower(part);
    }
}

proof fn lemma_split_lower(sep: Separator, s: Seq<char>)
    ensures
        classify_split(sep, ascii_lowercase(s)) == classify_split(sep, s),
    decreases s.len(), 0int,
{
    let low = ascii_lowercase(s);
    let n = boundary(sep, s) as int;
    lemma_boundary_lower(sep, s);
    if n < s.len() {
        lemma_prefix_len(s, not_inner_punct());
        lemma_prefix_len(s, not_dash());
        let rest = s.skip(n + 1);
        assert(low.take(n) =~= ascii_lowercase(s.take(n)));
        assert(low.skip(n + 1) =~= ascii_lowercase(rest));
        lemma_part_lower(s.take(n));
        lemma_boundary_lower(sep, rest);
        if has_separator(sep, rest) {
            lemma_split_lower(sep, rest);
        } else {
            lemma_part_lower(rest);
        }
        assert(low[n] == s[n]);
    }
}

proof fn lemma_surface_lower(surface: Seq<char>)
    ensures
        surface_items(ascii_lowercase(surface)) == surface_items(surface),
{
    let low = ascii_lowercase(surface);
    let f = |c: char| ascii_lower(c);
    let lead = prefix_len(surface, punct()) as int;
    let rest = surface.skip(lead);
    let core_len = rest.len() - suffix_len(rest, punct());
    lemma_prefix_len(surface, punct());
    lemma_suffix_len(rest, punct());
    lemma_prefix_len_map(surface, f, punct());
    lemma_suffix_len_map(rest, f, punct());
    assert(low.skip(lead) =~= ascii_lowercase(rest));
    assert(ascii_lowercase(rest).take(core_len) =~= ascii_lowercase(rest.take(core_len)));
    lemma_part_lower(rest.take(core_len));
    assert(low.take(lead) =~= surface.take(lead)) by {
        assert forall|i: int| 0 <= i < lead implies low[i] == surface[i] by {
            assert(punct()(surface[i]));
        }
    }
    assert(ascii_lowercase(rest).skip(core_len) =~= rest.skip(core_len)) by {
        assert forall|i: int| core_len <= i < rest.len() implies ascii_lowercase(rest)[i]
            == rest[i] by {
            assert(punct()(rest[i]));
        }
    }
}

/// What `canonical_char` does to a character whose quotation mark is in ASCII.
spec fn fold(c: char) -> char {
    if c == '\n' {
        c
    } else if is_white_space(c) {
        ' '
    } else {
        ascii_lower(c)
    }
}

spec fn fold_all(s: Seq<char>) -> Seq<char> {
    s.map_values(|c: char| fold(c))
}

proof fn lemma_scan_fold(s: Seq<char>)
    ensures
        scan(fold_all(s)) == scan(s),
    decreases s.len(),
{
    let t = fold_all(s);
    let f = |c: char| fold(c);
    if s.len() > 0 {
        assert(t[0] == fold(s[0]));
        lemma_prefix_len_map(s, f, not_white_space());
        lemma_prefix_len(s, not_white_space());
        let n = if is_white_space(s[0]) {
            1
        } else {
            prefix_len(s, not_white_space()) as int
        };
        assert(t.skip(n) =~= fold_all(s.skip(n)));
        lemma_scan_fold(s.skip(n));
        if !is_white_space(s[0]) {
            let surface = s.take(n);
            assert(t.take(n) =~= ascii_lowercase(surface)) by {
                assert forall|i: int| 0 <= i < n implies t[i] == ascii_lower(surface[i]) by {
                    assert(not_white_space()(s[i]));
                }
            }
            lemma_surface_lower(surface);
        }
    }
}

/// ASCII case, the shape of quotation marks and the kind of white space do
/// not matter: a text and its plain form have the same stream.
pub proof fn law_plain_form_has_same_stream(text: Seq<char>)
    ensures
        stream_of(canonical(text)) == stream_of(text),
        canonical(canonical(text)) == canonical(text),
{
    let plain = canonical(text);
    let s = normalized(text);
    assert(plain =~= fold_all(s));
    assert(normalized(plain) =~= plain);
    assert(canonical(plain) =~= plain);
    lemma_scan_fold(s);
}

/// Two texts that differ in ASCII case, in the shape of quotation marks and in
/// the kind of white space alone have the same stream.
pub proof fn law_same_plain_form_same_stream(a: Seq<char>, b: Seq<char>)
    requires
        canonical(a) == canonical(b),
    ensures
        stream_of(a) == stream_of(b),
{
    law_plain_form_has_same_stream(a);
    law_plain_form_has_same_stream(b);
}

// ---------------------------------------------------------------------------
// Single words
// ---------------------------------------------------------------------------

/// A core that neither begins nor ends with punctuation and holds no white
/// space is the whole of its text.
proof fn lemma_stream_of_core(core: Seq<char>)
    requires
        core.len() > 0,
        normalized(core) == core,
        forall|i: int| 0 <= i < core.len() ==> !is_white_space(#[trigger] core[i]),
        !is_punct(core[0]),
        !is_punct(core.last()),
    ensures
        stream_of(core) == classify(core),
{
    let n = core.len();
    lemma_prefix_len_is(core, not_white_space(), n);
    assert(core.take(n as int) =~= core);
    assert(core.skip(n as int) =~= seq![]);
    lemma_prefix_len_is(core, punct(), 0);
    assert(core.skip(0) =~= core);
    lemma_suffix_len_is(core, punct(), 0);
    assert(core.take(0) =~= seq![]);
    assert(fixed_each(seq![]) =~= seq![]);
    assert(scan(seq![]) =~= seq![]);
    assert(surface_items(core) =~= classify(core));
    assert(scan(core) =~= surface_items(core));
}

/// A text of ASCII letters is one word, in small letters.
pub proof fn law_letters_are_one_word(word: Seq<char>)
    requires
        word.len() > 0,
        all_letters(word),
    ensures
        stream_of(word) == seq![ItemView::Word(ascii_lowercase(word))],
{
    assert forall|i: int| 0 <= i < word.len() implies !is_white_space(#[trigger] word[i])
        && !is_punct(word[i]) && !is_dash(word[i]) && plain_quote(word[i]) == word[i] by {
        assert(is_letter(word[i]));
    }
    assert(normalized(word) =~= word);
    lemma_stream_of_core(word);
    lemma_lowercase_letters(word);
    lemma_prefix_len_is(word, not_inner_punct(), word.len());
    lemma_prefix_len_is(word, not_dash(), word.len());
    if has_suffix(word) {
        assert(is_letter(word[word.len() - 2]));
    }
}

/// A run of characters that holds no punctuation and no dash is one unknown if
/// it holds anything but ASCII letters: a digit, an emoji, a letter outside
/// ASCII.
pub proof fn law_other_runs_are_unknown(run: Seq<char>)
    requires
        run.len() > 0,
        forall|i: int|
            0 <= i < run.len() ==> !is_white_space(#[trigger] run[i]) && !is_punct(run[i])
                && !is_dash(run[i]) && plain_quote(run[i]) == run[i],
        !all_letters(run),
    ensures
        stream_of(run) == seq![ItemView::Unk],
{
    assert(normalized(run) =~= run);
    lemma_stream_of_core(run);
    let low = ascii_lowercase(run);
    if is_whole_contraction(low) {
        lemma_contraction_shape(low);
        assert(!is_punct(run[run.len() - 2]) && !is_punct(run[run.len() - 3]));
    }
    lemma_prefix_len_is(run, not_inner_punct(), run.len());
    lemma_prefix_len_is(run, not_dash(), run.len());
    if has_suffix(run) {
        assert(!is_punct(run[run.len() - 2]));
    }
}

/// A whole contraction, in whatever case, is one word.
pub proof fn law_contraction_is_one_word(word: Seq<char>)
    requires
        is_whole_contraction(ascii_lowercase(word)),
    ensures
        stream_of(word) == seq![ItemView::Word(ascii_lowercase(word))],
{
    let low = ascii_lowercase(word);
    lemma_contraction_shape(low);
    assert forall|i: int| 0 <= i < word.len() implies !is_white_space(#[trigger] word[i])
        && plain_quote(word[i]) == word[i] by {
        assert(low[i] == ascii_lower(word[i]));
    }
    assert(normalized(word) =~= word);
    assert(low[0] == ascii_lower(word[0]));
    assert(low[word.len() - 1] == ascii_lower(word[word.len() - 1]));
    lemma_stream_of_core(word);
}

/// A text of ASCII letters with the suffix `'s` is that word and the suffix,
/// unless it is a whole contraction.
pub proof fn law_possessive_is_word_and_suffix(word: Seq<char>)
    requires
        word.len() > 0,
        all_letters(word),
        !is_whole_contraction(ascii_lowercase(word) + seq!['\'', 's']),
    ensures
        stream_of(word + seq!['\'', 's']) == seq![
            ItemView::Word(ascii_lowercase(word)),
            ItemView::Fixed(seq!['\'', 's']),
        ],
{
    let core = word + seq!['\'', 's'];
    assert forall|i: int| 0 <= i < core.len() implies !is_white_space(#[trigger] core[i])
        && plain_quote(core[i]) == core[i] by {
        if i < word.len() {
            assert(is_letter(word[i]));
        }
    }
    assert(normalized(core) =~= core);
    assert(is_letter(word[0]));
    assert(core[0] == word[0]);
    lemma_stream_of_core(core);
    assert(ascii_lowercase(core) =~= ascii_lowercase(word) + seq!['\'', 's']);
    assert(core.take(core.len() - 2) =~= word);
    law_letters_are_one_word(word);
    assert forall|i: int| 0 <= i < word.len() implies !is_white_space(#[trigger] word[i])
        && plain_quote(word[i]) == word[i] && !is_punct(word[i]) by {
        assert(is_letter(word[i]));
    }
    assert(normalized(word) =~= word);
    lemma_stream_of_core(word);
    assert(classify(core) =~= seq![
        ItemView::Word(ascii_lowercase(word)),
        ItemView::Fixed(seq!['\'', 's']),
    ]);
}

} // verus!
