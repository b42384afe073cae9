//! The compiled patterns and the table that the pretokenizer consults.
use crate::text::{chars_of, prefix_len};
use crate::vocab::{is_whole_contraction, slices, whole_contractions, WHOLE_CONTRACTIONS};
use regex::Regex;
use vstd::hash_map::StringHashMap;
use vstd::prelude::*;

verus! {

// ---------------------------------------------------------------------------
// Patterns
// ---------------------------------------------------------------------------

/// The contraction suffix `'s` at the end of a text, in either case.
pub const SUFFIX_PATTERN: &'static str = r"(?i)('s)$";

/// A hyphen, an en dash or an em dash.
pub const DASH_PATTERN: &'static str = r"[-\u{2013}\u{2014}]";

/// The characters that `s` matches when case is ignored: U+017F, LATIN SMALL
/// LETTER LONG S, folds to `s` too.
pub open spec fn folds_to_s(c: char) -> bool {
    c == 's' || c == 'S' || c == '\u{17f}'
}

/// The suffix pattern matches at the end of `s`.
pub open spec fn suffix_matches(s: Seq<char>) -> bool {
    &&& s.len() >= 2
    &&& s[s.len() - 2] == '\''
    &&& folds_to_s(s[s.len() - 1])
}

/// `s` ends in the contraction suffix, in either case.
pub open spec fn has_suffix(s: Seq<char>) -> bool {
    &&& s.len() >= 2
    &&& s[s.len() - 2] == '\''
    &&& s[s.len() - 1] == 's' || s[s.len() - 1] == 'S'
}

/// The hyphen, the en dash and the em dash.
pub open spec fn is_dash(c: char) -> bool {
    c == '-' || c == '\u{2013}' || c == '\u{2014}'
}

/// The characters that are no dash.
pub open spec fn not_dash() -> spec_fn(char) -> bool {
    |c: char| !is_dash(c)
}

/// The parts of `s` before, between and after its dashes. There is one more
/// part than there are dashes; a part may be empty.
pub open spec fn dash_parts(s: Seq<char>) -> Seq<Seq<char>>
    decreases s.len(),
{
    let n = prefix_len(s, not_dash()) as int;
    if n >= s.len() {
        seq![s]
    } else {
        seq![s.take(n)] + dash_parts(s.skip(n + 1))
    }
}

// ---------------------------------------------------------------------------
// The regular-expression engine
// ---------------------------------------------------------------------------

/// `regex::Regex`: a compiled regular expression.
#[verifier::external_type_specification]
#[verifier::external_body]
pub struct ExRegex(Regex);

/// The pattern that a regular expression was compiled from, which is what
/// `Regex::as_str` returns.
pub uninterp spec fn regex_pattern(re: Regex) -> Seq<char>;

/// `Regex::new`: compiles a pattern. It accepts the two patterns named here,
/// and the expression it returns keeps the pattern.
#[verifier::external_body]
fn compile(pattern: &str) -> (re: Regex)
    requires
        pattern@ == SUFFIX_PATTERN@ || pattern@ == DASH_PATTERN@,
    ensures
        regex_pattern(re) == pattern@,
{
    Regex::new(pattern).unwrap()
}

/// `Regex::find`: the leftmost match in a text. The suffix pattern matches at
/// the end of the text only: an apostrophe followed by a character that folds
/// to `s`. Returned are the text before the match and the matched text.
#[verifier::external_body]
fn find<'t>(re: &Regex, text: &'t str) -> (found: Option<(&'t str, &'t str)>)
    requires
        regex_pattern(*re) == SUFFIX_PATTERN@,
    ensures
        found is Some <==> suffix_matches(text@),
        found matches Some((before, matched)) ==> {
            &&& before@ == text@.take(text@.len() - 2)
            &&& matched@ == text@.skip(text@.len() - 2)
        },
{
    match re.find(text) {
        Some(m) => Some((&text[..m.start()], m.as_str())),
        None => None,
    }
}

/// `Regex::split`: the parts of a text that its matches separate, in order.
/// The dash pattern matches each dash by itself, so the parts are those
/// before, between and after the dashes.
#[verifier::external_body]
fn split<'t>(re: &Regex, text: &'t str) -> (parts: Vec<&'t str>)
    requires
        regex_pattern(*re) == DASH_PATTERN@,
    ensures
        slices(parts@) == dash_parts(text@),
{
    re.split(text).collect()
}

// ---------------------------------------------------------------------------
// Splitter
// ---------------------------------------------------------------------------

/// The patterns, compiled once, and the set of whole contractions.
pub struct Splitter {
    suffix: Regex,
    dash: Regex,
    whole: StringHashMap<()>,
}

impl Splitter {
    #[verifier::type_invariant]
    spec fn wf(self) -> bool {
        &&& regex_pattern(self.suffix) == SUFFIX_PATTERN@
        &&& regex_pattern(self.dash) == DASH_PATTERN@
        &&& forall|w: Seq<char>| #[trigger] self.whole@.contains_key(w) <==> is_whole_contraction(w)
    }

    /// The pattern that finds the contraction suffix.
    pub closed spec fn suffix_pattern(self) -> Seq<char> {
        regex_pattern(self.suffix)
    }

    /// The pattern that finds the dashes.
    pub closed spec fn dash_pattern(self) -> Seq<char> {
        regex_pattern(self.dash)
    }

    /// The contractions that are not split.
    pub closed spec fn contractions(self) -> Set<Seq<char>> {
        self.whole@.dom()
    }

    /// Compiles the patterns and fills the set.
    pub fn new() -> (r: Splitter)
        ensures
            r.suffix_pattern() == SUFFIX_PATTERN@,
            r.dash_pattern() == DASH_PATTERN@,
            forall|w: Seq<char>| #[trigger]
                r.contractions().contains(w) <==> is_whole_contraction(w),
    {
        let mut whole: StringHashMap<()> = StringHashMap::new();
        let mut i: usize = 0;
        while i < WHOLE_CONTRACTIONS.len()
            invariant
                i <= WHOLE_CONTRACTIONS@.len(),
                forall|w: Seq<char>| #[trigger]
                    whole@.contains_key(w) <==> whole_contractions().take(i as int).contains(w),
            decreases WHOLE_CONTRACTIONS@.len() - i,
        {
            let ghost before = whole@;
            whole.insert(WHOLE_CONTRACTIONS[i].to_owned(), ());
            proof {
                let last = WHOLE_CONTRACTIONS@[i as int]@;
                let shorter = whole_contractions().take(i as int);
                let longer = whole_contractions().take(i + 1);
                assert(longer =~= shorter.push(last));
                assert forall|w: Seq<char>| #[trigger]
                    whole@.contains_key(w) <==> longer.contains(w) by {
                    assert(before.contains_key(w) <==> shorter.contains(w));
                    if shorter.contains(w) {
                        let j = shorter.index_of(w);
                        assert(longer[j] == w);
                    }
                    assert(longer[i as int] == last);
                    if longer.contains(w) && w != last {
                        let j = longer.index_of(w);
                        assert(shorter[j] == w);
                    }
                }
            }
            i += 1;
        }
        assert(whole_contractions().take(i as int) =~= whole_contractions());
        Splitter { suffix: compile(SUFFIX_PATTERN), dash: compile(DASH_PATTERN), whole }
    }

    /// Whether `word` is a whole contraction.
    pub fn is_contraction(&self, word: &str) -> (r: bool)
        ensures
            r == is_whole_contraction(word@),
    {
        proof {
            use_type_invariant(self);
        }
        self.whole.contains_key(word)
    }

    /// Parts a text from the contraction suffix it ends in: what stands before
    /// the suffix, and the suffix as it is written. A match with the long s is
    /// no contraction suffix.
    pub fn strip_suffix<'t>(&self, text: &'t str) -> (r: Option<(&'t str, &'t str)>)
        ensures
            r is Some <==> has_suffix(text@),
            r matches Some((bare, suffix)) ==> {
                &&& bare@ == text@.take(text@.len() - 2)
                &&& suffix@ == text@.skip(text@.len() - 2)
            },
    {
        proof {
            use_type_invariant(self);
        }
        match find(&self.suffix, text) {
            Some((bare, suffix)) => {
                let chars = chars_of(suffix);
                assert(chars@[1] == text@.last());
                if chars[1] == '\u{17f}' {
                    None
                } else {
                    Some((bare, suffix))
                }
            },
            None => None,
        }
    }

    /// Splits a text at its dashes.
    pub fn split_dashes<'t>(&self, text: &'t str) -> (parts: Vec<&'t str>)
        ensures
            slices(parts@) == dash_parts(text@),
    {
        proof {
            use_type_invariant(self);
        }
        split(&self.dash, text)
    }
}

} // verus!
