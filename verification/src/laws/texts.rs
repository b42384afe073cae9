//! Laws of the operations on plain texts.
use crate::frames::id_lists;
use crate::stream::{views, ItemView, StreamItem};
use crate::text::{
    ascii_lowercase, is_white_space, lemma_prefix_len_is, lemma_suffix_len_is, lines_of,
    lower_text, normalized, not_newline, texts, trimmed, white_space,
};
use crate::vocab::slices;
use vstd::prelude::*;

verus! {

// ---------------------------------------------------------------------------
// Trimming
// ---------------------------------------------------------------------------

/// Trimming takes away the white space at both ends and nothing else: what
/// stands between is kept, whatever it holds.
pub proof fn law_trim(a: Seq<char>, middle: Seq<char>, b: Seq<char>)
    requires
        forall|i: int| 0 <= i < a.len() ==> is_white_space(#[trigger] a[i]),
        forall|i: int| 0 <= i < b.len() ==> is_white_space(#[trigger] b[i]),
        middle.len() > 0 ==> !is_white_space(middle[0]) && !is_white_space(middle.last()),
    ensures
        trimmed(a + middle + b) == middle,
{
    let s = a + middle + b;
    if middle.len() == 0 {
        assert forall|i: int| 0 <= i < s.len() implies white_space()(#[trigger] s[i]) by {
            if i < a.len() {
                assert(s[i] == a[i]);
            } else {
                assert(s[i] == b[i - a.len()]);
            }
        }
        lemma_prefix_len_is(s, white_space(), s.len());
        lemma_suffix_len_is(s.skip(s.len() as int), white_space(), 0);
        assert(trimmed(s) =~= middle);
    } else {
        assert forall|i: int| 0 <= i < a.len() implies white_space()(#[trigger] s[i]) by {
            assert(s[i] == a[i]);
        }
        assert(s[a.len() as int] == middle[0]);
        lemma_prefix_len_is(s, white_space(), a.len());
        let rest = s.skip(a.len() as int);
        assert(rest =~= middle + b);
        assert forall|i: int| middle.len() <= i < rest.len() implies white_space()(
            #[trigger] rest[i],
        ) by {
            assert(rest[i] == b[i - middle.len()]);
        }
        assert(rest[middle.len() - 1] == middle.last());
        lemma_suffix_len_is(rest, white_space(), b.len());
        assert(trimmed(s) =~= middle);
    }
}

// ---------------------------------------------------------------------------
// Lines
// ---------------------------------------------------------------------------

/// A text without a line break is one line, as it is; the empty text has
/// none.
pub proof fn law_last_line(line: Seq<char>)
    requires
        !line.contains('\n'),
    ensures
        lines_of(line) == if line.len() == 0 {
            Seq::<Seq<char>>::empty()
        } else {
            seq![line]
        },
{
    assert forall|i: int| 0 <= i < line.len() implies not_newline()(#[trigger] line[i]) by {
        assert(line.contains(line[i]));
    }
    lemma_prefix_len_is(line, not_newline(), line.len());
}

/// A line break ends a line: the lines of a text are its first line, without
/// the line break and without a carriage return before it, and then the lines
/// of what follows.
pub proof fn law_first_line(line: Seq<char>, rest: Seq<char>)
    requires
        !line.contains('\n'),
    ensures
        line.len() == 0 || line.last() != '\r' ==> lines_of(line + seq!['\n'] + rest) == seq![line]
            + lines_of(rest),
        lines_of(line + seq!['\r', '\n'] + rest) == seq![line] + lines_of(rest),
{
    lemma_first_line(line, rest);
    let with_return = line.push('\r');
    assert(!with_return.contains('\n')) by {
        if with_return.contains('\n') {
            let i = with_return.index_of('\n');
            if i < line.len() {
                assert(line[i] == '\n');
            }
        }
    }
    lemma_first_line(with_return, rest);
    assert(with_return.drop_last() =~= line);
    assert(line + seq!['\r', '\n'] + rest =~= with_return + seq!['\n'] + rest);
}

proof fn lemma_first_line(line: Seq<char>, rest: Seq<char>)
    requires
        !line.contains('\n'),
    ensures
        lines_of(line + seq!['\n'] + rest) == seq![
            if line.len() > 0 && line.last() == '\r' {
                line.drop_last()
            } else {
                line
            },
        ] + lines_of(rest),
{
    let s = line + seq!['\n'] + rest;
    let n = line.len();
    assert forall|i: int| 0 <= i < n implies not_newline()(#[trigger] s[i]) by {
        assert(s[i] == line[i]);
        assert(line.contains(line[i]));
    }
    assert(s[n as int] == '\n');
    lemma_prefix_len_is(s, not_newline(), n);
    assert(s.take(n as int) =~= line);
    assert(s.skip(n as int + 1) =~= rest);
}

// ---------------------------------------------------------------------------
// Lists
// ---------------------------------------------------------------------------

/// A list is seen as the list of what its elements hold, all of them, in
/// order.
pub proof fn law_lists(
    strings: Seq<String>,
    parts: Seq<&str>,
    lists: Seq<Vec<u32>>,
    items: Seq<StreamItem>,
)
    ensures
        texts(strings).len() == strings.len(),
        forall|i: int| 0 <= i < strings.len() ==> #[trigger] texts(strings)[i] == strings[i]@,
        slices(parts).len() == parts.len(),
        forall|i: int| 0 <= i < parts.len() ==> #[trigger] slices(parts)[i] == parts[i]@,
        id_lists(lists).len() == lists.len(),
        forall|i: int| 0 <= i < lists.len() ==> #[trigger] id_lists(lists)[i] == lists[i]@,
        views(items).len() == items.len(),
        forall|i: int|
            0 <= i < items.len() ==> #[trigger] views(items)[i] == match items[i] {
                StreamItem::Word(s) => ItemView::Word(s@),
                StreamItem::Fixed(s) => ItemView::Fixed(s@),
                StreamItem::Unk => ItemView::Unk,
                StreamItem::Sp => ItemView::Sp,
                StreamItem::Nl => ItemView::Nl,
            },
{
}

// ---------------------------------------------------------------------------
// Characters, one by one
// ---------------------------------------------------------------------------

/// Normalising replaces each typographic quotation mark by its ASCII form and
/// keeps every other character, each in its place.
pub proof fn law_normalize(text: Seq<char>)
    ensures
        normalized(text).len() == text.len(),
        forall|i: int|
            0 <= i < text.len() ==> #[trigger] normalized(text)[i] == match text[i] {
                '\u{2018}' | '\u{2019}' | '\u{2bc}' | '`' => '\'',
                '\u{201c}' | '\u{201d}' => '"',
                c => c,
            },
{
}

/// The lowercase of a text in ASCII: each capital letter becomes the small
/// letter of the same place in the alphabet, and every other character is
/// kept, each in its place.
pub proof fn law_lowercase(s: Seq<char>)
    ensures
        ascii_lowercase(s).len() == s.len(),
        lower_text(s).len() == s.len(),
        forall|i: int|
            0 <= i < s.len() ==> {
                let c = s[i];
                let low = #[trigger] ascii_lowercase(s)[i];
                if 'A' <= c <= 'Z' {
                    'a' <= low <= 'z' && low as int - 'a' as int == c as int - 'A' as int
                } else {
                    low == c
                }
            },
        forall|i: int|
            0 <= i < s.len() ==> #[trigger] lower_text(s)[i] == if s[i] == '\u{212a}' {
                'k'
            } else {
                ascii_lowercase(s)[i]
            },
{
}

} // verus!
