//! The pretokenizer: from a text to a flat stream of items.
use crate::splitter::{dash_parts, has_suffix, not_dash, Splitter};
use crate::text::{
    all_ascii, all_ascii_alphabetic, all_letters, all_lower_to_ascii, ascii_lowercase, chars_of,
    is_ascii_char, is_letter, is_white_space, is_whitespace, lemma_prefix_len,
    lemma_prefix_len_is, lemma_suffix_len_is, lower_char, lower_text, lowers_to_ascii, normalize,
    normalized, prefix_len, string_of, suffix_len, to_lowercase,
};
use crate::vocab::{is_whole_contraction, lemma_contraction_shape, slices};
use vstd::prelude::*;

verus! {

// ---------------------------------------------------------------------------
// Stream items
// ---------------------------------------------------------------------------

/// A single item in the pretokenized stream.
#[derive(Debug, Clone, PartialEq, Eq)]
pub enum StreamItem {
    /// An ASCII-alphabetic word or whole contraction (word-kind: implicit spacing).
    Word(String),
    /// A fixed-vocab token: punctuation or contraction suffix "'s".
    Fixed(String),
    /// Anything that cannot be represented (digit, non-ASCII, etc.).
    Unk,
    /// One space character (may appear multiple times in a run).
    Sp,
    /// One newline character.
    Nl,
}

/// A stream item with its text as a sequence of characters.
pub enum ItemView {
    Word(Seq<char>),
    Fixed(Seq<char>),
    Unk,
    Sp,
    Nl,
}

impl View for StreamItem {
    type V = ItemView;

    open spec fn view(&self) -> ItemView {
        match *self {
            StreamItem::Word(text) => ItemView::Word(text@),
            StreamItem::Fixed(text) => ItemView::Fixed(text@),
            StreamItem::Unk => ItemView::Unk,
            StreamItem::Sp => ItemView::Sp,
            StreamItem::Nl => ItemView::Nl,
        }
    }
}

/// The views of a list of items.
pub open spec fn views(items: Seq<StreamItem>) -> Seq<ItemView> {
    items.map_values(|item: StreamItem| item@)
}

proof fn lemma_views_push(items: Seq<StreamItem>, item: StreamItem)
    ensures
        views(items.push(item)) == views(items).push(item@),
{
    assert(views(items.push(item)) =~= views(items).push(item@));
}

proof fn lemma_views_add(a: Seq<StreamItem>, b: Seq<StreamItem>)
    ensures
        views(a + b) == views(a) + views(b),
{
    assert(views(a + b) =~= views(a) + views(b));
}

// ---------------------------------------------------------------------------
// What the stream of a text is
// ---------------------------------------------------------------------------

/// The punctuation characters that have a token.
pub open spec fn is_punct(c: char) -> bool {
    c == '.' || c == ',' || c == '\'' || c == '"' || c == '?' || c == '!' || c == '(' || c == ')'
}

/// The punctuation that splits a word it stands in: all but the apostrophe.
pub open spec fn is_inner_punct(c: char) -> bool {
    is_punct(c) && c != '\''
}

/// The punctuation characters.
pub open spec fn punct() -> spec_fn(char) -> bool {
    |c: char| is_punct(c)
}

/// The characters that do not split a word as punctuation.
pub open spec fn not_inner_punct() -> spec_fn(char) -> bool {
    |c: char| !is_inner_punct(c)
}

/// The characters that are no white space.
pub open spec fn not_white_space() -> spec_fn(char) -> bool {
    |c: char| !is_white_space(c)
}

/// What a core is split at.
pub enum Separator {
    /// Punctuation other than the apostrophe, which becomes a fixed token.
    Punct,
    /// A dash, which becomes an unknown token.
    Dash,
}

/// The position of the first separator of `s`, or the length of `s`.
pub open spec fn boundary(sep: Separator, s: Seq<char>) -> nat {
    match sep {
        Separator::Punct => prefix_len(s, not_inner_punct()),
        Separator::Dash => prefix_len(s, not_dash()),
    }
}

/// `s` holds a separator.
pub open spec fn has_separator(sep: Separator, s: Seq<char>) -> bool {
    boundary(sep, s) < s.len()
}

/// The item that stands for a separator.
pub open spec fn separator_item(sep: Separator, c: char) -> ItemView {
    match sep {
        Separator::Punct => ItemView::Fixed(seq![c]),
        Separator::Dash => ItemView::Unk,
    }
}

/// The items of a core whose lowercase is `lower`. A core is a run of
/// characters without white space, stripped of the punctuation at its ends.
/// The first of these rules that applies counts.
///
/// - A whole contraction is a word.
/// - A core that ends in the contraction suffix is what precedes the suffix,
///   then the suffix as a fixed token.
/// - A core with punctuation in it is split there.
/// - A core with dashes in it is split there.
/// - ASCII letters are a word; anything else is unknown.
pub open spec fn classify_as(core: Seq<char>, lower: Seq<char>) -> Seq<ItemView>
    decreases core.len(), 1int,
{
    if is_whole_contraction(lower) {
        seq![ItemView::Word(lower)]
    } else if has_suffix(core) {
        classify_part(core.take(core.len() - 2)) + seq![ItemView::Fixed(seq!['\'', 's'])]
    } else if has_separator(Separator::Punct, core) {
        classify_split(Separator::Punct, core)
    } else if has_separator(Separator::Dash, core) {
        classify_split(Separator::Dash, core)
    } else if all_letters(core) {
        seq![ItemView::Word(lower)]
    } else {
        seq![ItemView::Unk]
    }
}

/// The items of a core. Lowercase outside ASCII makes no difference to them.
pub open spec fn classify(core: Seq<char>) -> Seq<ItemView>
    decreases core.len(), 2int,
{
    classify_as(core, ascii_lowercase(core))
}

/// The items of a part of a core; an empty part has none.
pub open spec fn classify_part(part: Seq<char>) -> Seq<ItemView>
    decreases part.len(), 3int,
{
    if part.len() == 0 {
        seq![]
    } else {
        classify(part)
    }
}

/// The items of what follows a separator.
pub open spec fn split_rest(sep: Separator, rest: Seq<char>) -> Seq<ItemView>
    decreases rest.len(), 4int,
{
    if has_separator(sep, rest) {
        classify_split(sep, rest)
    } else {
        classify_part(rest)
    }
}

/// The items of a text that is split at its separators: those of each part,
/// and between them the item of each separator.
pub open spec fn classify_split(sep: Separator, s: Seq<char>) -> Seq<ItemView>
    decreases s.len(), 0int,
{
    let n = boundary(sep, s) as int;
    if n >= s.len() {
        seq![]
    } else {
        classify_part(s.take(n)) + seq![separator_item(sep, s[n])] + split_rest(sep, s.skip(n + 1))
    }
}

/// Each character as a fixed token.
pub open spec fn fixed_each(s: Seq<char>) -> Seq<ItemView> {
    s.map_values(|c: char| ItemView::Fixed(seq![c]))
}

/// The items of a run of characters without white space: its leading
/// punctuation, its core, its trailing punctuation.
pub open spec fn surface_items(surface: Seq<char>) -> Seq<ItemView> {
    let lead = prefix_len(surface, punct()) as int;
    let rest = surface.skip(lead);
    let core_len = rest.len() - suffix_len(rest, punct());
    fixed_each(surface.take(lead)) + classify_part(rest.take(core_len)) + fixed_each(
        rest.skip(core_len),
    )
}

/// The items of a text whose quotation marks are in ASCII: one for each line
/// break, one for each other white-space character, and those of each run
/// between.
pub open spec fn scan(s: Seq<char>) -> Seq<ItemView>
    decreases s.len(),
{
    let n = prefix_len(s, not_white_space()) as int;
    if s.len() == 0 {
        seq![]
    } else if s[0] == '\n' {
        seq![ItemView::Nl] + scan(s.skip(1))
    } else if is_white_space(s[0]) {
        seq![ItemView::Sp] + scan(s.skip(1))
    } else {
        proof {
            lemma_prefix_len(s, not_white_space());
        }
        surface_items(s.take(n)) + scan(s.skip(n))
    }
}

/// The stream of a text.
pub open spec fn stream_of(text: Seq<char>) -> Seq<ItemView> {
    scan(normalized(text))
}

// ---------------------------------------------------------------------------
// Splitting
// ---------------------------------------------------------------------------

/// Whether `c` is a punctuation character that has a token.
fn is_allowed_punct(c: char) -> (r: bool)
    ensures
        r == is_punct(c),
{
    c == '.' || c == ',' || c == '\'' || c == '"' || c == '?' || c == '!' || c == '(' || c == ')'
}

/// What the lowercase of a core does beyond ASCII makes no difference to its
/// items: no core outside ASCII has a whole contraction for its lowercase.
proof fn lemma_lowercase(core: Seq<char>, lower: Seq<char>)
    requires
        all_lower_to_ascii(core) ==> lower == lower_text(core),
        !all_lower_to_ascii(core) ==> !all_ascii(lower),
    ensures
        classify_as(core, lower) == classify(core),
{
    let low = ascii_lowercase(core);
    if all_ascii(core) {
        assert forall|i: int| 0 <= i < core.len() implies lowers_to_ascii(#[trigger] core[i])
            && lower_char(core[i]) == low[i] by {
            assert(is_ascii_char(core[i]));
        }
        assert(lower_text(core) =~= low);
    } else {
        let j = choose|j: int| 0 <= j < core.len() && !is_ascii_char(#[trigger] core[j]);
        if is_whole_contraction(low) {
            lemma_contraction_shape(low);
            assert(low[j] == core[j]);
        }
        if is_whole_contraction(lower) {
            lemma_contraction_shape(lower);
            if all_lower_to_ascii(core) {
                assert(lowers_to_ascii(core[j]));
                assert(lower[j] == lower_char(core[j]));
            } else {
                assert forall|i: int| 0 <= i < lower.len() implies is_ascii_char(
                    #[trigger] lower[i],
                ) by {}
            }
        }
        assert(!all_letters(core)) by {
            if all_letters(core) {
                assert(is_letter(core[j]));
            }
        }
    }
}

/// Pushes `chars[i]` as a fixed token.
fn push_fixed(items: &mut Vec<StreamItem>, chars: &Vec<char>, i: usize)
    requires
        i < chars@.len(),
    ensures
        views(final(items)@) == views(old(items)@).push(ItemView::Fixed(seq![chars@[i as int]])),
{
    let ghost before = items@;
    let len: usize = chars.len();
    assert(i < len);
    let item = StreamItem::Fixed(string_of(chars, i, i + 1));
    proof {
        assert(chars@.subrange(i as int, i + 1) =~= seq![chars@[i as int]]);
        lemma_views_push(before, item);
    }
    items.push(item);
}

/// Whether a character other than the apostrophe splits the core as
/// punctuation.
fn has_inner_punct(chars: &Vec<char>) -> (r: bool)
    ensures
        r == has_separator(Separator::Punct, chars@),
{
    let mut i: usize = 0;
    while i < chars.len()
        invariant
            i <= chars@.len(),
            forall|j: int| 0 <= j < i ==> !is_inner_punct(#[trigger] chars@[j]),
        decreases chars@.len() - i,
    {
        if chars[i] != '\'' && is_allowed_punct(chars[i]) {
            proof {
                lemma_prefix_len_is(chars@, not_inner_punct(), i as nat);
            }
            return true;
        }
        i += 1;
    }
    proof {
        lemma_prefix_len_is(chars@, not_inner_punct(), chars@.len());
    }
    false
}

impl Splitter {
    /// Splits a run of characters without white space into words, fixed
    /// tokens and unknowns; it holds no space and no line break.
    pub fn split_surface(&self, surface: &str) -> (items: Vec<StreamItem>)
        ensures
            views(items@) == surface_items(surface@),
    {
        let chars = chars_of(surface);
        let mut items: Vec<StreamItem> = Vec::new();

        // Peel leading allowed punctuation.
        let mut lo: usize = 0;
        assert(views(items@) =~= fixed_each(chars@.take(0)));
        while lo < chars.len() && is_allowed_punct(chars[lo])
            invariant
                lo <= chars@.len(),
                forall|j: int| 0 <= j < lo ==> is_punct(#[trigger] chars@[j]),
                views(items@) == fixed_each(chars@.take(lo as int)),
            decreases chars@.len() - lo,
        {
            push_fixed(&mut items, &chars, lo);
            assert(fixed_each(chars@.take(lo + 1)) =~= fixed_each(chars@.take(lo as int)).push(
                ItemView::Fixed(seq![chars@[lo as int]]),
            ));
            lo += 1;
        }

        // Peel trailing allowed punctuation.
        let mut hi: usize = chars.len();
        while hi > lo && is_allowed_punct(chars[hi - 1])
            invariant
                lo <= hi <= chars@.len(),
                forall|j: int| hi <= j < chars@.len() ==> is_punct(#[trigger] chars@[j]),
            decreases hi,
        {
            hi -= 1;
        }
        let ghost rest = chars@.skip(lo as int);
        let ghost core_len = hi - lo;
        proof {
            lemma_prefix_len_is(chars@, punct(), lo as nat);
            let n = (chars@.len() - hi) as nat;
            assert forall|i: int| rest.len() - n <= i < rest.len() implies punct()(
                #[trigger] rest[i],
            ) by {
                assert(rest[i] == chars@[lo + i]);
            }
            lemma_suffix_len_is(rest, punct(), n);
        }

        let ghost leading = views(items@);
        if lo < hi {
            let core = string_of(&chars, lo, hi);
            assert(core@ =~= rest.take(core_len));
            let mut parts = self.classify_core(core.as_str());
            proof {
                lemma_views_add(items@, parts@);
            }
            items.append(&mut parts);
        }
        let ghost before = views(items@);
        assert(before =~= leading + classify_part(rest.take(core_len)));

        let mut i: usize = hi;
        assert(before + fixed_each(chars@.subrange(hi as int, hi as int)) =~= before);
        while i < chars.len()
            invariant
                hi <= i <= chars@.len(),
                views(items@) == before + fixed_each(chars@.subrange(hi as int, i as int)),
            decreases chars@.len() - i,
        {
            push_fixed(&mut items, &chars, i);
            i += 1;
            assert(before + fixed_each(chars@.subrange(hi as int, i as int)) =~= (before
                + fixed_each(chars@.subrange(hi as int, i - 1))).push(
                ItemView::Fixed(seq![chars@[i - 1]]),
            ));
        }
        assert(chars@.subrange(hi as int, chars@.len() as int) =~= rest.skip(core_len));
        items
    }

    /// Classifies a core: a run of characters without white space, stripped of
    /// the punctuation at its ends.
    pub fn classify_core(&self, core: &str) -> (items: Vec<StreamItem>)
        ensures
            views(items@) == classify(core@),
        decreases core@.len(), 2int,
    {
        let lower = to_lowercase(core);
        proof {
            lemma_lowercase(core@, lower@);
        }
        self.classify_lowered(core, lower)
    }

    /// Classifies a core whose lowercase is `lower`.
    pub fn classify_lowered(&self, core: &str, lower: String) -> (items: Vec<StreamItem>)
        ensures
            views(items@) == classify_as(core@, lower@),
        decreases core@.len(), 1int,
    {
        // Whole contraction: must be checked before any splitting.
        if self.is_contraction(lower.as_str()) {
            let items = vec![StreamItem::Word(lower)];
            assert(views(items@) =~= seq![ItemView::Word(lower@)]);
            return items;
        }
        // Contraction suffix: "dog's" is the word "dog" and the token "'s". Also
        // checked before the punctuation, so that no contraction is torn apart.
        if let Some((bare, suffix)) = self.strip_suffix(core) {
            let mut items = self.classify_piece(bare);
            let item = StreamItem::Fixed(to_lowercase(suffix));
            proof {
                assert(suffix@ =~= seq!['\'', core@.last()]);
                assert(all_lower_to_ascii(suffix@));
                assert(lower_text(suffix@) =~= seq!['\'', 's']);
                lemma_views_push(items@, item);
                assert(classify_part(bare@).push(item@) =~= classify_part(bare@) + seq![item@]);
            }
            items.push(item);
            return items;
        }
        let chars = chars_of(core);
        if has_inner_punct(&chars) {
            return self.split_punct(&chars);
        }
        // Dash split: each dash becomes unknown.
        let parts = self.split_dashes(core);
        proof {
            lemma_dash_parts_len(core@);
        }
        if parts.len() > 1 {
            return self.join_dashes(core, &parts);
        }
        if all_ascii_alphabetic(&chars) {
            let items = vec![StreamItem::Word(lower)];
            assert(views(items@) =~= seq![ItemView::Word(lower@)]);
            items
        } else {
            let items = vec![StreamItem::Unk];
            assert(views(items@) =~= seq![ItemView::Unk]);
            items
        }
    }

    /// Classifies a part of a core; an empty part has no items.
    fn classify_piece(&self, part: &str) -> (items: Vec<StreamItem>)
        ensures
            views(items@) == classify_part(part@),
        decreases part@.len(), 3int,
    {
        if part.is_empty() {
            let items: Vec<StreamItem> = Vec::new();
            assert(views(items@) =~= seq![]);
            items
        } else {
            self.classify_core(part)
        }
    }

    /// Splits a core at the punctuation in it.
    fn split_punct(&self, chars: &Vec<char>) -> (items: Vec<StreamItem>)
        requires
            has_separator(Separator::Punct, chars@),
        ensures
            views(items@) == classify_split(Separator::Punct, chars@),
        decreases chars@.len(), 0int,
    {
        let ghost core = chars@;
        let mut items: Vec<StreamItem> = Vec::new();
        let mut start: usize = 0;
        let mut i: usize = 0;
        assert(core.skip(0) =~= core);
        assert(views(items@) + classify_split(Separator::Punct, core) =~= classify_split(
            Separator::Punct,
            core,
        ));
        while i < chars.len()
            invariant
                chars@ == core,
                start <= i <= core.len(),
                forall|j: int| start <= j < i ==> !is_inner_punct(#[trigger] core[j]),
                has_separator(Separator::Punct, core),
                views(items@) + split_rest(Separator::Punct, core.skip(start as int))
                    == classify_split(Separator::Punct, core),
            decreases core.len() - i,
        {
            if chars[i] != '\'' && is_allowed_punct(chars[i]) {
                let ghost rest = core.skip(start as int);
                let ghost before = views(items@);
                let part = string_of(chars, start, i);
                let mut parts = self.classify_piece(part.as_str());
                proof {
                    lemma_views_add(items@, parts@);
                }
                items.append(&mut parts);
                push_fixed(&mut items, chars, i);
                proof {
                    let n = (i - start) as nat;
                    lemma_prefix_len_is(rest, not_inner_punct(), n);
                    assert(rest.take(n as int) =~= part@);
                    assert(rest.skip(n as int + 1) =~= core.skip(i + 1));
                    let sep = ItemView::Fixed(seq![core[i as int]]);
                    let tail = split_rest(Separator::Punct, core.skip(i + 1));
                    assert(rest[n as int] == core[i as int]);
                    assert(split_rest(Separator::Punct, rest) == classify_part(part@) + seq![sep]
                        + tail);
                    assert(before + (classify_part(part@) + seq![sep] + tail) =~= views(items@)
                        + tail);
                }
                start = i + 1;
            }
            i += 1;
        }
        proof {
            let rest = core.skip(start as int);
            assert forall|j: int| 0 <= j < rest.len() implies not_inner_punct()(
                #[trigger] rest[j],
            ) by {
                assert(rest[j] == core[start + j]);
            }
            lemma_prefix_len_is(rest, not_inner_punct(), rest.len());
            if start == 0 {
                assert(rest =~= core);
            }
        }
        let part = string_of(chars, start, chars.len());
        assert(part@ =~= core.skip(start as int));
        let mut parts = self.classify_piece(part.as_str());
        proof {
            lemma_views_add(items@, parts@);
        }
        items.append(&mut parts);
        items
    }

    /// Classifies the parts that the dashes of a core separate; each dash
    /// becomes unknown.
    fn join_dashes(&self, core: &str, parts: &Vec<&str>) -> (items: Vec<StreamItem>)
        requires
            slices(parts@) == dash_parts(core@),
            parts@.len() > 1,
        ensures
            views(items@) == classify_split(Separator::Dash, core@),
        decreases core@.len(), 0int,
    {
        let ghost target = classify_split(Separator::Dash, core@);
        let ghost n = prefix_len(core@, not_dash()) as int;
        let ghost mut rest = core@.skip(n + 1);
        proof {
            lemma_prefix_len(core@, not_dash());
            assert(slices(parts@)[0] == parts@[0]@);
            assert(slices(parts@).skip(1) =~= dash_parts(rest));
        }
        let mut items = self.classify_piece(parts[0]);
        let mut idx: usize = 1;
        assert(views(items@) + (seq![ItemView::Unk] + split_rest(Separator::Dash, rest))
            =~= target);
        while idx < parts.len()
            invariant
                slices(parts@) == dash_parts(core@),
                1 <= idx <= parts@.len(),
                rest.len() < core@.len(),
                idx < parts@.len() ==> {
                    &&& slices(parts@).skip(idx as int) == dash_parts(rest)
                    &&& views(items@) + (seq![ItemView::Unk] + split_rest(Separator::Dash, rest))
                        == target
                },
                idx == parts@.len() ==> views(items@) == target,
            decreases parts@.len() - idx,
        {
            let ghost before = views(items@);
            proof {
                lemma_views_push(items@, StreamItem::Unk);
            }
            items.push(StreamItem::Unk);
            let ghost n = prefix_len(rest, not_dash()) as int;
            proof {
                lemma_prefix_len(rest, not_dash());
                assert(dash_parts(rest)[0] == parts@[idx as int]@);
                if n < rest.len() {
                    lemma_dash_parts_len(rest.skip(n + 1));
                }
                assert(slices(parts@).skip(idx as int).skip(1) =~= slices(parts@).skip(idx + 1));
            }
            let mut piece = self.classify_piece(parts[idx]);
            proof {
                lemma_views_add(items@, piece@);
                let part = parts@[idx as int]@;
                if n < rest.len() {
                    let tail = split_rest(Separator::Dash, rest.skip(n + 1));
                    assert(before + (seq![ItemView::Unk] + (classify_part(part) + seq![
                        ItemView::Unk,
                    ] + tail)) =~= (before.push(ItemView::Unk) + classify_part(part)) + (seq![
                        ItemView::Unk,
                    ] + tail));
                    assert(dash_parts(rest).skip(1) =~= dash_parts(rest.skip(n + 1)));
                    rest = rest.skip(n + 1);
                } else {
                    assert(before + (seq![ItemView::Unk] + classify_part(part)) =~= before.push(
                        ItemView::Unk,
                    ) + classify_part(part));
                }
            }
            items.append(&mut piece);
            idx += 1;
        }
        items
    }

    /// Tokenizes `text` into a flat stream of items.
    pub fn pretokenize(&self, text: &str) -> (items: Vec<StreamItem>)
        ensures
            views(items@) == stream_of(text@),
    {
        let plain = normalize(text);
        let chars = chars_of(plain.as_str());
        let mut items: Vec<StreamItem> = Vec::new();
        let mut i: usize = 0;
        assert(chars@.skip(0) =~= chars@);
        assert(views(items@) + scan(chars@) =~= scan(chars@));
        while i < chars.len()
            invariant
                i <= chars@.len(),
                views(items@) + scan(chars@.skip(i as int)) == scan(chars@),
            decreases chars@.len() - i,
        {
            let ghost rest = chars@.skip(i as int);
            let ghost before = views(items@);
            let c = chars[i];
            if c == '\n' {
                proof {
                    lemma_views_push(items@, StreamItem::Nl);
                    assert(rest.skip(1) =~= chars@.skip(i + 1));
                    let tail = scan(chars@.skip(i + 1));
                    assert(before + (seq![ItemView::Nl] + tail) =~= before.push(ItemView::Nl)
                        + tail);
                }
                items.push(StreamItem::Nl);
                i += 1;
            } else if is_whitespace(c) {
                proof {
                    lemma_views_push(items@, StreamItem::Sp);
                    assert(rest.skip(1) =~= chars@.skip(i + 1));
                    let tail = scan(chars@.skip(i + 1));
                    assert(before + (seq![ItemView::Sp] + tail) =~= before.push(ItemView::Sp)
                        + tail);
                }
                items.push(StreamItem::Sp);
                i += 1;
            } else {
                // Collect a run without white space.
                let start: usize = i;
                i += 1;
                while i < chars.len() && !is_whitespace(chars[i])
                    invariant
                        start < i <= chars@.len(),
                        forall|j: int| start <= j < i ==> !is_white_space(#[trigger] chars@[j]),
                    decreases chars@.len() - i,
                {
                    i += 1;
                }
                let surface = string_of(&chars, start, i);
                let mut parts = self.split_surface(surface.as_str());
                proof {
                    let n = (i - start) as nat;
                    assert forall|j: int| 0 <= j < n implies not_white_space()(
                        #[trigger] rest[j],
                    ) by {
                        assert(rest[j] == chars@[start + j]);
                    }
                    lemma_prefix_len_is(rest, not_white_space(), n);
                    assert(rest.take(n as int) =~= surface@);
                    assert(rest.skip(n as int) =~= chars@.skip(i as int));
                    lemma_views_add(items@, parts@);
                    let tail = scan(chars@.skip(i as int));
                    assert(before + (surface_items(surface@) + tail) =~= (before + surface_items(
                        surface@,
                    )) + tail);
                }
                items.append(&mut parts);
            }
        }
        assert(views(items@) + scan(chars@.skip(i as int)) =~= views(items@));
        items
    }
}

/// There is a part before each dash and one after the last.
proof fn lemma_dash_parts_len(s: Seq<char>)
    ensures
        dash_parts(s).len() >= 1,
        dash_parts(s).len() > 1 <==> has_separator(Separator::Dash, s),
    decreases s.len(),
{
    let n = prefix_len(s, not_dash()) as int;
    if n < s.len() {
        lemma_dash_parts_len(s.skip(n + 1));
    }
}

/// Tokenizes `text` into a flat stream of [`StreamItem`]s.
///
/// Whitespace is represented as explicit `Sp` and `Nl` items so the encoder
/// needs no lookahead or spacing arithmetic.
pub fn pretokenize(text: &str) -> (items: Vec<StreamItem>)
    ensures
        views(items@) == stream_of(text@),
{
    Splitter::new().pretokenize(text)
}

} // verus!
