//! How a run of characters without white space is read: what stands around it,
//! what splits it, and what is left when nothing does.
use crate::counting::{count_if, lemma_count_if_add, lemma_count_if_none, lemma_count_if_one};
use crate::laws::stream::law_letters_are_one_word;
use crate::splitter::{dash_parts, has_suffix, is_dash, not_dash};
use crate::stream::{
    boundary, classify, classify_as, classify_part, classify_split, fixed_each, has_separator,
    is_inner_punct, not_inner_punct, not_white_space, punct, scan, separator_item,
    split_rest, stream_of, surface_items, ItemView, Separator,
};
use crate::text::{
    ascii_lowercase, is_letter, is_white_space, lemma_prefix_len, lemma_prefix_len_is,
    lemma_suffix_len, lemma_suffix_len_is, normalized, plain_quote, prefix_len, suffix_len,
};
use crate::vocab::{is_whole_contraction, lemma_contraction_shape};
use vstd::prelude::*;

verus! {

// ---------------------------------------------------------------------------
// Words for characters
// ---------------------------------------------------------------------------

/// The punctuation marks that split what they stand in.
pub open spec fn splits(c: char) -> bool {
    c == '.' || c == ',' || c == '"' || c == '?' || c == '!' || c == '(' || c == ')'
}

/// The punctuation marks: those that split, and the apostrophe.
pub open spec fn is_mark(c: char) -> bool {
    splits(c) || c == '\''
}

/// The hyphen, the en dash and the em dash.
pub open spec fn dashes(c: char) -> bool {
    c == '-' || c == '\u{2013}' || c == '\u{2014}'
}

/// A text ends in an apostrophe and an `s`, in either case.
pub open spec fn ends_in_suffix(s: Seq<char>) -> bool {
    s.len() >= 2 && s[s.len() - 2] == '\'' && (s.last() == 's' || s.last() == 'S')
}

/// No character of a text splits it.
pub open spec fn no_split(s: Seq<char>) -> bool {
    forall|i: int| 0 <= i < s.len() ==> !splits(#[trigger] s[i])
}

/// No character of a text is a dash.
pub open spec fn no_dash(s: Seq<char>) -> bool {
    forall|i: int| 0 <= i < s.len() ==> !dashes(#[trigger] s[i])
}

/// The items of a core; an empty one has none.
pub open spec fn core_items(s: Seq<char>) -> Seq<ItemView> {
    if s.len() == 0 {
        seq![]
    } else {
        classify(s)
    }
}

// ---------------------------------------------------------------------------
// Cores
// ---------------------------------------------------------------------------

/// What stands before and after a separator is split by itself.
proof fn lemma_split_add(sep: Separator, a: Seq<char>, c: char, b: Seq<char>)
    requires
        match sep {
            Separator::Punct => is_inner_punct(c),
            Separator::Dash => is_dash(c),
        },
    ensures
        has_separator(sep, a.push(c) + b),
        classify_split(sep, a.push(c) + b) == split_rest(sep, a) + seq![separator_item(sep, c)]
            + split_rest(sep, b),
    decreases a.len(),
{
    let s = a.push(c) + b;
    lemma_prefix_len(a, not_inner_punct());
    lemma_prefix_len(a, not_dash());
    let n = boundary(sep, a);
    assert forall|i: int| 0 <= i < n implies s[i] == a[i] by {}
    assert(s[a.len() as int] == c);
    match sep {
        Separator::Punct => {
            assert forall|i: int| 0 <= i < n implies not_inner_punct()(#[trigger] s[i]) by {
                assert(not_inner_punct()(a[i]));
            }
            if n < a.len() {
                assert(!not_inner_punct()(a[n as int]));
            }
            lemma_prefix_len_is(s, not_inner_punct(), n);
        },
        Separator::Dash => {
            assert forall|i: int| 0 <= i < n implies not_dash()(#[trigger] s[i]) by {
                assert(not_dash()(a[i]));
            }
            if n < a.len() {
                assert(!not_dash()(a[n as int]));
            }
            lemma_prefix_len_is(s, not_dash(), n);
        },
    }
    let m = n as int;
    assert(s.take(m) =~= a.take(m));
    if n >= a.len() {
        assert(a.take(m) =~= a);
        assert(s.skip(m + 1) =~= b);
    } else {
        let rest = a.skip(m + 1);
        lemma_split_add(sep, rest, c, b);
        assert(s.skip(m + 1) =~= rest.push(c) + b);
        let head = classify_part(a.take(m)) + seq![separator_item(sep, a[m])];
        assert(head + (split_rest(sep, rest) + seq![separator_item(sep, c)] + split_rest(sep, b))
            =~= (head + split_rest(sep, rest)) + seq![separator_item(sep, c)] + split_rest(
            sep,
            b,
        ));
    }
}

/// No whole contraction holds a mark that splits, or a dash.
proof fn lemma_not_contraction(s: Seq<char>, i: int)
    requires
        0 <= i < s.len(),
        splits(s[i]) || dashes(s[i]),
    ensures
        !is_whole_contraction(ascii_lowercase(s)),
{
    let low = ascii_lowercase(s);
    if is_whole_contraction(low) {
        lemma_contraction_shape(low);
        assert(low[i] == s[i]);
    }
}

proof fn lemma_has_punct(s: Seq<char>)
    ensures
        has_separator(Separator::Punct, s) <==> !no_split(s),
        has_separator(Separator::Dash, s) <==> !no_dash(s),
{
    lemma_prefix_len(s, not_inner_punct());
    lemma_prefix_len(s, not_dash());
    let n = boundary(Separator::Punct, s) as int;
    if n < s.len() {
        assert(!not_inner_punct()(s[n]));
        assert(splits(s[n]));
    } else {
        assert forall|i: int| 0 <= i < s.len() implies !splits(#[trigger] s[i]) by {
            assert(not_inner_punct()(s[i]));
        }
    }
    let m = boundary(Separator::Dash, s) as int;
    if m < s.len() {
        assert(!not_dash()(s[m]));
        assert(dashes(s[m]));
    } else {
        assert forall|i: int| 0 <= i < s.len() implies !dashes(#[trigger] s[i]) by {
            assert(not_dash()(s[i]));
        }
    }
}

/// Where the marks of a text split it when it is read by itself, that is how
/// it is split in a larger one.
proof fn lemma_rest_is_core(sep: Separator, s: Seq<char>)
    requires
        match sep {
            Separator::Punct => no_split(s) || !ends_in_suffix(s),
            Separator::Dash => no_dash(s) || (!ends_in_suffix(s) && no_split(s)),
        },
    ensures
        split_rest(sep, s) == core_items(s),
{
    lemma_has_punct(s);
    if has_separator(sep, s) {
        match sep {
            Separator::Punct => {
                let i = choose|i: int| 0 <= i < s.len() && splits(#[trigger] s[i]);
                lemma_not_contraction(s, i);
            },
            Separator::Dash => {
                let i = choose|i: int| 0 <= i < s.len() && dashes(#[trigger] s[i]);
                lemma_not_contraction(s, i);
            },
        }
        assert(!has_suffix(s));
    }
}

/// Classifying a core is classifying it with its lowercase.
pub proof fn law_core_and_lowercase(core: Seq<char>)
    ensures
        classify(core) == classify_as(core, ascii_lowercase(core)),
{
}

/// A core whose lowercase is a whole contraction is that word, before any
/// other rule is looked at.
pub proof fn law_whole_contraction_comes_first(core: Seq<char>, lower: Seq<char>)
    requires
        is_whole_contraction(lower),
    ensures
        classify_as(core, lower) == seq![ItemView::Word(lower)],
{
}

/// The contraction suffix is split off whatever it stands behind.
pub proof fn law_suffix_is_split_off(bare: Seq<char>, s: char, lower: Seq<char>)
    requires
        s == 's' || s == 'S',
        !is_whole_contraction(lower),
    ensures
        classify_as(bare + seq!['\'', s], lower) == core_items(bare) + seq![
            ItemView::Fixed(seq!['\'', 's']),
        ],
{
    let core = bare + seq!['\'', s];
    assert(has_suffix(core));
    assert(core.take(core.len() - 2) =~= bare);
}

/// Punctuation in a core splits it: what stands before the mark is read by
/// itself, and so is what stands after it, at every mark.
pub proof fn law_inner_mark_splits(a: Seq<char>, c: char, b: Seq<char>, lower: Seq<char>)
    requires
        splits(c),
        !is_whole_contraction(lower),
        !ends_in_suffix(a.push(c) + b),
        no_split(a) || !ends_in_suffix(a),
    ensures
        classify_as(a.push(c) + b, lower) == core_items(a) + seq![ItemView::Fixed(seq![c])]
            + core_items(b),
{
    let s = a.push(c) + b;
    assert(!has_suffix(s));
    assert(!ends_in_suffix(b)) by {
        if ends_in_suffix(b) {
            assert(s[s.len() - 2] == b[b.len() - 2]);
            assert(s.last() == b.last());
        }
    }
    lemma_split_add(Separator::Punct, a, c, b);
    lemma_rest_is_core(Separator::Punct, a);
    lemma_rest_is_core(Separator::Punct, b);
}

/// A dash in a core without punctuation splits it and is itself unknown: what
/// stands before it is read by itself, and so is what stands after it, at
/// every dash.
pub proof fn law_dash_splits(a: Seq<char>, d: char, b: Seq<char>, lower: Seq<char>)
    requires
        dashes(d),
        !is_whole_contraction(lower),
        no_split(a),
        no_split(b),
        !ends_in_suffix(a.push(d) + b),
        no_dash(a) || !ends_in_suffix(a),
    ensures
        classify_as(a.push(d) + b, lower) == core_items(a) + seq![ItemView::Unk] + core_items(b),
{
    let s = a.push(d) + b;
    assert(!has_suffix(s));
    assert(!ends_in_suffix(b)) by {
        if ends_in_suffix(b) {
            assert(s[s.len() - 2] == b[b.len() - 2]);
            assert(s.last() == b.last());
        }
    }
    assert(no_split(s)) by {
        assert forall|i: int| 0 <= i < s.len() implies !splits(#[trigger] s[i]) by {
            if i < a.len() {
                assert(s[i] == a[i]);
            } else if i > a.len() {
                assert(s[i] == b[i - a.len() - 1]);
            }
        }
    }
    lemma_has_punct(s);
    lemma_split_add(Separator::Dash, a, d, b);
    lemma_rest_is_core(Separator::Dash, a);
    lemma_rest_is_core(Separator::Dash, b);
}

/// A core that nothing splits is one item: a word if it is made of letters,
/// and unknown otherwise.
pub proof fn law_bare_core_is_one_item(core: Seq<char>, lower: Seq<char>)
    requires
        !is_whole_contraction(lower),
        no_split(core),
        no_dash(core),
        !ends_in_suffix(core),
    ensures
        (forall|i: int|
            0 <= i < core.len() ==> 'a' <= #[trigger] core[i] <= 'z' || 'A' <= core[i] <= 'Z')
            ==> classify_as(core, lower) == seq![ItemView::Word(lower)],
        (exists|i: int|
            0 <= i < core.len() && !('a' <= #[trigger] core[i] <= 'z') && !('A' <= core[i] <= 'Z'))
            ==> classify_as(core, lower) == seq![ItemView::Unk],
{
    lemma_has_punct(core);
    assert(!has_suffix(core));
    if exists|i: int|
        0 <= i < core.len() && !('a' <= #[trigger] core[i] <= 'z') && !('A' <= core[i] <= 'Z') {
        let i = choose|i: int|
            0 <= i < core.len() && !('a' <= #[trigger] core[i] <= 'z') && !('A' <= core[i]
                <= 'Z');
        assert(!is_letter(core[i]));
    }
}

/// A text is parted at each dash: what stands before the first, and the parts
/// of what stands after it. A text without dashes is one part.
pub proof fn law_dash_parts(a: Seq<char>, d: char, b: Seq<char>)
    requires
        no_dash(a),
        dashes(d),
    ensures
        dash_parts(a) == seq![a],
        dash_parts(a.push(d) + b) == seq![a] + dash_parts(b),
{
    let s = a.push(d) + b;
    assert forall|i: int| 0 <= i < a.len() implies not_dash()(#[trigger] a[i])
        && not_dash()(s[i]) by {
        assert(!dashes(a[i]));
        assert(s[i] == a[i]);
    }
    lemma_prefix_len_is(a, not_dash(), a.len());
    assert(s[a.len() as int] == d);
    lemma_prefix_len_is(s, not_dash(), a.len());
    assert(s.take(a.len() as int) =~= a);
    assert(s.skip(a.len() as int + 1) =~= b);
}

/// Which texts the suffix is split off from.
pub proof fn law_suffix(s: Seq<char>)
    ensures
        has_suffix(s) <==> s.len() >= 2 && s[s.len() - 2] == '\'' && (s.last() == 's' || s.last()
            == 'S'),
{
}

// ---------------------------------------------------------------------------
// Punctuation around a run
// ---------------------------------------------------------------------------

/// Each character of a text as a fixed token of its own.
pub open spec fn marks_of(s: Seq<char>) -> Seq<ItemView> {
    Seq::new(s.len(), |i: int| ItemView::Fixed(seq![s[i]]))
}

/// A text of punctuation marks.
pub open spec fn all_marks(s: Seq<char>) -> bool {
    forall|i: int| 0 <= i < s.len() ==> is_mark(#[trigger] s[i])
}

/// A text that neither begins nor ends with punctuation.
pub open spec fn bare_ends(w: Seq<char>) -> bool {
    w.len() > 0 && !is_mark(w[0]) && !is_mark(w.last())
}

/// No character of a text is white space.
pub open spec fn no_white_space(s: Seq<char>) -> bool {
    forall|i: int| 0 <= i < s.len() ==> !is_white_space(#[trigger] s[i])
}

/// The punctuation around a core is split off, mark by mark, and does not
/// change how the core is read.
pub proof fn law_surface(p: Seq<char>, w: Seq<char>, q: Seq<char>)
    requires
        all_marks(p),
        all_marks(q),
        bare_ends(w),
    ensures
        surface_items(p + w + q) == marks_of(p) + classify(w) + marks_of(q),
        surface_items(p) == marks_of(p),
{
    let s = p + w + q;
    assert forall|i: int| 0 <= i < p.len() implies punct()(#[trigger] s[i]) by {
        assert(s[i] == p[i]);
        assert(is_mark(p[i]));
    }
    assert(s[p.len() as int] == w[0]);
    lemma_prefix_len_is(s, punct(), p.len());
    let rest = s.skip(p.len() as int);
    assert(rest =~= w + q);
    assert forall|i: int| w.len() <= i < rest.len() implies punct()(#[trigger] rest[i]) by {
        assert(rest[i] == q[i - w.len()]);
        assert(is_mark(q[i - w.len()]));
    }
    assert(rest[w.len() - 1] == w.last());
    lemma_suffix_len_is(rest, punct(), q.len());
    assert(s.take(p.len() as int) =~= p);
    assert(rest.take(w.len() as int) =~= w);
    assert(rest.skip(w.len() as int) =~= q);
    assert(fixed_each(p) =~= marks_of(p));
    assert(fixed_each(q) =~= marks_of(q));
    lemma_surface_of_marks(p);
}

proof fn lemma_surface_of_marks(p: Seq<char>)
    requires
        all_marks(p),
    ensures
        surface_items(p) == marks_of(p),
{
    assert forall|i: int| 0 <= i < p.len() implies punct()(#[trigger] p[i]) by {
        assert(is_mark(p[i]));
    }
    lemma_prefix_len_is(p, punct(), p.len());
    let none = p.skip(p.len() as int);
    lemma_suffix_len_is(none, punct(), 0);
    assert(none.take(0) =~= seq![]);
    assert(none.skip(0) =~= seq![]);
    assert(p.take(p.len() as int) =~= p);
    assert(surface_items(p) =~= marks_of(p));
}

/// A text without white space is one run.
proof fn lemma_stream_of_run(s: Seq<char>)
    requires
        no_white_space(s),
    ensures
        stream_of(s) == if s.len() == 0 {
            Seq::<ItemView>::empty()
        } else {
            surface_items(normalized(s))
        },
{
    let t = normalized(s);
    if s.len() > 0 {
        assert forall|i: int| 0 <= i < t.len() implies not_white_space()(#[trigger] t[i]) by {
            assert(!is_white_space(s[i]));
        }
        lemma_prefix_len_is(t, not_white_space(), t.len());
        assert(t.take(t.len() as int) =~= t);
        assert(t.skip(t.len() as int) =~= seq![]);
        assert(scan(Seq::<char>::empty()) =~= seq![]);
        assert(scan(t) =~= surface_items(t));
    } else {
        assert(scan(t) =~= seq![]);
    }
}

/// The empty text has an empty stream; a text of punctuation marks is its
/// marks; and a run that neither begins nor ends with punctuation is its core.
pub proof fn law_simple_runs(p: Seq<char>, w: Seq<char>)
    requires
        all_marks(p),
        no_white_space(w),
        bare_ends(normalized(w)),
    ensures
        stream_of(Seq::<char>::empty()) == Seq::<ItemView>::empty(),
        stream_of(p) == marks_of(p),
        stream_of(w) == classify(normalized(w)),
{
    lemma_stream_of_run(Seq::<char>::empty());
    assert forall|i: int| 0 <= i < p.len() implies !is_white_space(#[trigger] p[i])
        && plain_quote(p[i]) == p[i] by {
        assert(is_mark(p[i]));
    }
    assert(normalized(p) =~= p);
    lemma_stream_of_run(p);
    lemma_surface_of_marks(p);
    assert(marks_of(Seq::<char>::empty()) =~= seq![]);
    if p.len() == 0 {
        assert(stream_of(p) =~= marks_of(p));
    }
    lemma_stream_of_run(w);
    let none = Seq::<char>::empty();
    law_surface(none, normalized(w), none);
    assert(none + normalized(w) + none =~= normalized(w));
    assert(marks_of(none) + classify(normalized(w)) + marks_of(none) =~= classify(normalized(w)));
}

/// Punctuation around a run does not change how it is read: the stream is the
/// marks before, the stream of the run by itself, and the marks after. So a
/// whole contraction stays one word next to punctuation.
pub proof fn law_punctuation_around_a_run(p: Seq<char>, w: Seq<char>, q: Seq<char>)
    requires
        all_marks(p),
        all_marks(q),
        no_white_space(w),
        bare_ends(normalized(w)),
    ensures
        stream_of(p + w + q) == marks_of(p) + stream_of(w) + marks_of(q),
        is_whole_contraction(ascii_lowercase(normalized(w))) ==> stream_of(p + w + q) == marks_of(p)
            + seq![ItemView::Word(ascii_lowercase(normalized(w)))] + marks_of(q),
{
    let s = p + w + q;
    assert forall|i: int| 0 <= i < s.len() implies !is_white_space(#[trigger] s[i]) by {
        if i < p.len() {
            assert(is_mark(p[i]));
        } else if i < p.len() + w.len() {
            assert(s[i] == w[i - p.len()]);
        } else {
            assert(s[i] == q[i - p.len() - w.len()]);
            assert(is_mark(q[i - p.len() - w.len()]));
        }
    }
    assert(normalized(s) =~= p + normalized(w) + q) by {
        assert forall|i: int| 0 <= i < s.len() implies normalized(s)[i] == (p + normalized(w)
            + q)[i] by {
            if i < p.len() {
                assert(is_mark(p[i]));
            } else if i >= p.len() + w.len() {
                assert(is_mark(q[i - p.len() - w.len()]));
            }
        }
    }
    lemma_stream_of_run(s);
    law_surface(p, normalized(w), q);
    law_simple_runs(p, w);
}

// ---------------------------------------------------------------------------
// Marks and dashes in running text
// ---------------------------------------------------------------------------

/// A character that splits a run: a punctuation mark other than the
/// apostrophe, or a dash.
pub open spec fn breaks(c: char) -> bool {
    splits(c) || dashes(c)
}

/// The item of such a character.
pub open spec fn break_item(c: char) -> ItemView {
    if dashes(c) {
        ItemView::Unk
    } else {
        ItemView::Fixed(seq![c])
    }
}

/// A run without apostrophes, in whatever form.
pub open spec fn no_apostrophe(s: Seq<char>) -> bool {
    forall|i: int|
        0 <= i < s.len() ==> !is_white_space(#[trigger] s[i]) && s[i] != '\'' && s[i]
            != '\u{2018}' && s[i] != '\u{2019}' && s[i] != '\u{2bc}' && s[i] != '`'
}

spec fn not_break() -> spec_fn(char) -> bool {
    |c: char| !breaks(c)
}

/// The items of a run that is split at every break.
spec fn flat(s: Seq<char>) -> Seq<ItemView>
    decreases s.len(),
{
    let n = prefix_len(s, not_break()) as int;
    if n >= s.len() {
        core_items(s)
    } else {
        core_items(s.take(n)) + seq![break_item(s[n])] + flat(s.skip(n + 1))
    }
}

proof fn lemma_flat_add(a: Seq<char>, c: char, b: Seq<char>)
    requires
        breaks(c),
    ensures
        flat(a.push(c) + b) == flat(a) + seq![break_item(c)] + flat(b),
    decreases a.len(),
{
    let s = a.push(c) + b;
    lemma_prefix_len(a, not_break());
    let n = prefix_len(a, not_break());
    let m = n as int;
    assert forall|i: int| 0 <= i < n implies not_break()(#[trigger] s[i]) by {
        assert(not_break()(a[i]));
    }
    assert(s[a.len() as int] == c);
    lemma_prefix_len_is(s, not_break(), n);
    assert(s.take(m) =~= a.take(m));
    if n >= a.len() {
        assert(a.take(m) =~= a);
        assert(s.skip(m + 1) =~= b);
    } else {
        let rest = a.skip(m + 1);
        lemma_flat_add(rest, c, b);
        assert(s.skip(m + 1) =~= rest.push(c) + b);
        let head = core_items(a.take(m)) + seq![break_item(a[m])];
        assert(head + (flat(rest) + seq![break_item(c)] + flat(b)) =~= (head + flat(rest)) + seq![
            break_item(c),
        ] + flat(b));
    }
}

/// No apostrophe in a text whose quotation marks are in ASCII.
spec fn plain_run(s: Seq<char>) -> bool {
    forall|i: int| 0 <= i < s.len() ==> #[trigger] s[i] != '\''
}

proof fn lemma_core_is_flat(s: Seq<char>)
    requires
        plain_run(s),
    ensures
        core_items(s) == flat(s),
    decreases s.len(), 1int,
{
    lemma_has_punct(s);
    lemma_prefix_len(s, not_break());
    assert(!ends_in_suffix(s));
    let low = ascii_lowercase(s);
    assert(!is_whole_contraction(low)) by {
        if is_whole_contraction(low) {
            lemma_contraction_shape(low);
            assert(low[s.len() - 2] == '\'' ==> s[s.len() - 2] == '\'');
            assert(low[s.len() - 3] == '\'' ==> s[s.len() - 3] == '\'');
        }
    }
    if !no_split(s) {
        let i = choose|i: int| 0 <= i < s.len() && splits(#[trigger] s[i]);
        lemma_core_at_break(s, i);
    } else if !no_dash(s) {
        let i = choose|i: int| 0 <= i < s.len() && dashes(#[trigger] s[i]);
        lemma_core_at_break(s, i);
    } else {
        let n = prefix_len(s, not_break()) as int;
        if n < s.len() {
            assert(!not_break()(s[n]));
        }
    }
}

proof fn lemma_core_at_break(s: Seq<char>, i: int)
    requires
        plain_run(s),
        0 <= i < s.len(),
        splits(s[i]) || (dashes(s[i]) && no_split(s)),
        !is_whole_contraction(ascii_lowercase(s)),
    ensures
        core_items(s) == flat(s),
    decreases s.len(), 0int,
{
    let a = s.take(i);
    let b = s.skip(i + 1);
    assert(s =~= a.push(s[i]) + b);
    assert forall|j: int| 0 <= j < a.len() implies #[trigger] a[j] == s[j] by {}
    assert forall|j: int| 0 <= j < b.len() implies #[trigger] b[j] == s[i + 1 + j] by {}
    assert(plain_run(a) && plain_run(b));
    lemma_core_is_flat(a);
    lemma_core_is_flat(b);
    lemma_flat_add(a, s[i], b);
    assert(!ends_in_suffix(s) && !ends_in_suffix(a));
    if splits(s[i]) {
        law_inner_mark_splits(a, s[i], b, ascii_lowercase(s));
    } else {
        assert(no_split(a) && no_split(b));
        law_dash_splits(a, s[i], b, ascii_lowercase(s));
    }
}

/// Marks before a text and after it.
proof fn lemma_flat_around(p: Seq<char>, w: Seq<char>, q: Seq<char>)
    requires
        forall|i: int| 0 <= i < p.len() ==> splits(#[trigger] p[i]),
        forall|i: int| 0 <= i < q.len() ==> splits(#[trigger] q[i]),
    ensures
        flat(p + w + q) == marks_of(p) + flat(w) + marks_of(q),
    decreases p.len() + q.len(),
{
    let none = Seq::<char>::empty();
    assert(prefix_len(none, not_break()) == 0);
    assert(flat(none) =~= seq![]);
    if p.len() > 0 {
        let rest = p.skip(1);
        lemma_flat_around(rest, w, q);
        lemma_flat_add(none, p[0], rest + w + q);
        assert(none.push(p[0]) + (rest + w + q) =~= p + w + q);
        assert(marks_of(p) =~= seq![ItemView::Fixed(seq![p[0]])] + marks_of(rest));
        assert(flat(p + w + q) =~= marks_of(p) + flat(w) + marks_of(q));
    } else if q.len() > 0 {
        let rest = q.drop_last();
        lemma_flat_around(p, w, rest);
        lemma_flat_add(w + rest, q.last(), none);
        assert(p + w + rest =~= w + rest);
        assert((w + rest).push(q.last()) + none =~= p + w + q);
        assert(marks_of(q) =~= marks_of(rest) + seq![ItemView::Fixed(seq![q.last()])]);
        assert(flat(p + w + q) =~= marks_of(p) + flat(w) + marks_of(q));
    } else {
        assert(p + w + q =~= w);
        assert(marks_of(p) + flat(w) + marks_of(q) =~= flat(w));
    }
}

proof fn lemma_surface_is_flat(s: Seq<char>)
    requires
        plain_run(s),
    ensures
        surface_items(s) == flat(s),
{
    let lead = prefix_len(s, punct()) as int;
    let rest = s.skip(lead);
    let core_len = rest.len() - suffix_len(rest, punct());
    lemma_prefix_len(s, punct());
    lemma_suffix_len(rest, punct());
    let p = s.take(lead);
    let w = rest.take(core_len);
    let q = rest.skip(core_len);
    assert forall|i: int| 0 <= i < p.len() implies splits(#[trigger] p[i]) by {
        assert(punct()(s[i]));
        assert(p[i] == s[i]);
    }
    assert forall|i: int| 0 <= i < q.len() implies splits(#[trigger] q[i]) by {
        assert(punct()(rest[core_len + i]));
        assert(q[i] == s[lead + core_len + i]);
    }
    assert forall|i: int| 0 <= i < w.len() implies #[trigger] w[i] != '\'' by {
        assert(w[i] == s[lead + i]);
    }
    lemma_core_is_flat(w);
    lemma_flat_around(p, w, q);
    assert(p + w + q =~= s);
    assert(fixed_each(p) =~= marks_of(p));
    assert(fixed_each(q) =~= marks_of(q));
}

proof fn lemma_stream_is_flat(s: Seq<char>)
    requires
        no_apostrophe(s),
    ensures
        stream_of(s) == flat(normalized(s)),
{
    let t = normalized(s);
    assert(no_white_space(s));
    assert forall|i: int| 0 <= i < t.len() implies #[trigger] t[i] != '\'' by {
        assert(s[i] != '\'');
    }
    lemma_stream_of_run(s);
    if s.len() == 0 {
        assert(prefix_len(t, not_break()) == 0);
        assert(flat(t) =~= seq![]);
    } else {
        lemma_surface_is_flat(t);
    }
}

/// In a run without apostrophes every mark and every dash splits: the stream
/// is that of what stands before it, the item of the mark or dash, and that of
/// what stands after it.
pub proof fn law_marks_and_dashes_split_a_run(a: Seq<char>, c: char, b: Seq<char>)
    requires
        no_apostrophe(a),
        no_apostrophe(b),
        splits(c) || dashes(c),
    ensures
        stream_of(a.push(c) + b) == stream_of(a).push(
            if dashes(c) {
                ItemView::Unk
            } else {
                ItemView::Fixed(seq![c])
            },
        ) + stream_of(b),
{
    let s = a.push(c) + b;
    assert forall|i: int| 0 <= i < s.len() implies !is_white_space(#[trigger] s[i]) && s[i] != '\''
        && s[i] != '\u{2018}' && s[i] != '\u{2019}' && s[i] != '\u{2bc}' && s[i] != '`' by {
        if i < a.len() {
            assert(s[i] == a[i]);
        } else if i > a.len() {
            assert(s[i] == b[i - a.len() - 1]);
        }
    }
    lemma_stream_is_flat(s);
    lemma_stream_is_flat(a);
    lemma_stream_is_flat(b);
    lemma_flat_add(normalized(a), c, normalized(b));
    assert(plain_quote(c) == c);
    assert(normalized(s) =~= normalized(a).push(c) + normalized(b));
    assert(flat(normalized(a)) + seq![break_item(c)] =~= flat(normalized(a)).push(break_item(c)));
}

/// A run made of ASCII letters, marks and dashes.
pub open spec fn letters_and_breaks(s: Seq<char>) -> bool {
    forall|i: int|
        0 <= i < s.len() ==> 'a' <= #[trigger] s[i] <= 'z' || 'A' <= s[i] <= 'Z' || splits(s[i])
            || dashes(s[i])
}

/// In a run of ASCII letters, marks and dashes the dashes alone are unknown,
/// one for one, and each mark is one fixed token. So without dashes nothing is
/// unknown.
pub proof fn law_only_dashes_are_unknown(s: Seq<char>)
    requires
        letters_and_breaks(s),
    ensures
        count_if(stream_of(s), |item: ItemView| item is Unk) == count_if(s, |c: char| dashes(c)),
        count_if(stream_of(s), |item: ItemView| item is Fixed) == count_if(s, |c: char| splits(c)),
    decreases s.len(),
{
    let unknown = |item: ItemView| item is Unk;
    let fixed = |item: ItemView| item is Fixed;
    let dash = |c: char| dashes(c);
    let mark = |c: char| splits(c);
    lemma_prefix_len(s, not_break());
    let n = prefix_len(s, not_break()) as int;
    let word = s.take(n);
    assert forall|i: int| 0 <= i < n implies is_letter(#[trigger] word[i]) && !dash(word[i])
        && !mark(word[i]) by {
        assert(not_break()(s[i]));
    }
    lemma_count_if_none(word, dash);
    lemma_count_if_none(word, mark);
    if n > 0 {
        law_letters_are_one_word(word);
    } else {
        lemma_stream_of_run(word);
    }
    let head = stream_of(word);
    assert(count_if(head, unknown) == 0 && count_if(head, fixed) == 0) by {
        if n > 0 {
            lemma_count_if_one(head[0], unknown);
            lemma_count_if_one(head[0], fixed);
            assert(head =~= seq![head[0]]);
        }
    }
    if n >= s.len() {
        assert(word =~= s);
    } else {
        let c = s[n];
        let rest = s.skip(n + 1);
        assert(!not_break()(c));
        assert forall|i: int| 0 <= i < rest.len() implies #[trigger] rest[i] == s[n + 1 + i] by {}
        law_only_dashes_are_unknown(rest);
        assert(no_apostrophe(word) && no_apostrophe(rest)) by {
            assert forall|i: int| 0 <= i < word.len() implies is_letter(#[trigger] word[i]) by {}
            assert forall|i: int| 0 <= i < rest.len() implies 'a' <= #[trigger] rest[i] <= 'z'
                || 'A' <= rest[i] <= 'Z' || splits(rest[i]) || dashes(rest[i]) by {}
        }
        law_marks_and_dashes_split_a_run(word, c, rest);
        let item = break_item(c);
        assert(word.push(c) + rest =~= s);
        assert(stream_of(s) =~= head + seq![item] + stream_of(rest));
        lemma_count_if_add(head + seq![item], stream_of(rest), unknown);
        lemma_count_if_add(head, seq![item], unknown);
        lemma_count_if_one(item, unknown);
        lemma_count_if_add(head + seq![item], stream_of(rest), fixed);
        lemma_count_if_add(head, seq![item], fixed);
        lemma_count_if_one(item, fixed);
        assert(s =~= word + seq![c] + rest);
        lemma_count_if_add(word + seq![c], rest, dash);
        lemma_count_if_add(word, seq![c], dash);
        lemma_count_if_one(c, dash);
        lemma_count_if_add(word + seq![c], rest, mark);
        lemma_count_if_add(word, seq![c], mark);
        lemma_count_if_one(c, mark);
    }
}

} // verus!
