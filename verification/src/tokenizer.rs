//! The tokenizer: the vocabulary, the encoder and the decoder.
use crate::parallel::par_map;
use crate::splitter::Splitter;
use crate::stream::{stream_of, views, ItemView, StreamItem};
use crate::text::{chars_of, lines_of, split_lines, texts};
use crate::vocab::{
    accept_line, fixed_tokens, lemma_listed_words_grow, lemma_vocabulary_distinct, listed_words,
    slices, special_tokens, vocabulary, whole_contractions, CONTRACTION_SUFFIXES, NEWLINE_TOKEN,
    PUNCT_TOKENS, SPACE_TOKEN, SPECIAL_TOKENS, WHOLE_CONTRACTIONS,
};
use vstd::hash_map::StringHashMap;
use vstd::prelude::*;
use vstd::std_specs::iter::IteratorSpec;

verus! {

/// Why a vocabulary cannot be built.
#[derive(Debug, Clone, Copy, PartialEq, Eq)]
pub enum VocabularyError {
    /// There are more tokens than token ids.
    TooManyTokens,
}

/// A word-level tokenizer over a whitelist of words.
pub struct WhitelistTokenizer {
    /// The id of each token.
    pub word_ids: StringHashMap<u32>,
    /// The token of each id.
    pub id_to_word: Vec<String>,
    pub space_id: u32,
    pub newline_id: u32,
    pub unk_id: u32,
    pub bos_id: u32,
    pub mask_id: u32,
    /// One past the last fixed-token id.
    pub n_fixed: u32,
    /// The id of each special token.
    pub special_ids: StringHashMap<u32>,
    /// The compiled patterns of the pretokenizer.
    pub splitter: Splitter,
}

/// `ids` gives each of `words`, and nothing else, its position counted from
/// `base`.
pub open spec fn indexes(ids: Map<Seq<char>, u32>, words: Seq<Seq<char>>, base: int) -> bool {
    &&& forall|w: Seq<char>| #[trigger] ids.contains_key(w) <==> words.contains(w)
    &&& forall|i: int| 0 <= i < words.len() ==> ids[#[trigger] words[i]] == base + i
}

proof fn lemma_indexes_push(
    ids: Map<Seq<char>, u32>,
    words: Seq<Seq<char>>,
    base: int,
    w: Seq<char>,
    id: u32,
)
    requires
        indexes(ids, words, base),
        !words.contains(w),
        id == base + words.len(),
    ensures
        indexes(ids.insert(w, id), words.push(w), base),
{
    let more = words.push(w);
    let ids2 = ids.insert(w, id);
    assert forall|v: Seq<char>| #[trigger] ids2.contains_key(v) <==> more.contains(v) by {
        assert(ids.contains_key(v) <==> words.contains(v));
        assert(more[words.len() as int] == w);
        if words.contains(v) {
            assert(more[words.index_of(v)] == v);
        }
        if more.contains(v) && v != w {
            assert(words[more.index_of(v)] == v);
        }
    }
    assert forall|i: int| 0 <= i < more.len() implies ids2[#[trigger] more[i]] == base + i by {
        if i < words.len() {
            assert(more[i] == words[i]);
            assert(words.contains(words[i]));
        }
    }
}

/// Gives `surface` the next id, unless it has one. Says whether an id was
/// there to give.
fn assign(surface: &str, word_ids: &mut StringHashMap<u32>, id_to_word: &mut Vec<String>) -> (ok:
    bool)
    requires
        indexes(old(word_ids)@, texts(old(id_to_word)@), 0),
        old(id_to_word)@.len() <= u32::MAX,
    ensures
        indexes(final(word_ids)@, texts(final(id_to_word)@), 0),
        final(id_to_word)@.len() <= u32::MAX,
        ok <==> texts(old(id_to_word)@).contains(surface@) || old(id_to_word)@.len() < u32::MAX,
        texts(final(id_to_word)@) == if ok && !texts(old(id_to_word)@).contains(surface@) {
            texts(old(id_to_word)@).push(surface@)
        } else {
            texts(old(id_to_word)@)
        },
{
    if word_ids.contains_key(surface) {
        return true;
    }
    let len: usize = id_to_word.len();
    if len >= u32::MAX as usize {
        return false;
    }
    let ghost before = texts(id_to_word@);
    proof {
        lemma_indexes_push(word_ids@, before, 0, surface@, len as u32);
    }
    word_ids.insert(surface.to_owned(), len as u32);
    id_to_word.push(surface.to_owned());
    assert(texts(id_to_word@) =~= before.push(surface@));
    true
}

/// Gives the next ids to a list of tokens that have none.
fn assign_all(
    list: &[&str],
    word_ids: &mut StringHashMap<u32>,
    id_to_word: &mut Vec<String>,
)
    requires
        indexes(old(word_ids)@, texts(old(id_to_word)@), 0),
        (texts(old(id_to_word)@) + slices(list@)).no_duplicates(),
        old(id_to_word)@.len() + list@.len() <= u32::MAX,
    ensures
        indexes(final(word_ids)@, texts(final(id_to_word)@), 0),
        texts(final(id_to_word)@) == texts(old(id_to_word)@) + slices(list@),
{
    let ghost before = texts(id_to_word@);
    let ghost target = before + slices(list@);
    let mut i: usize = 0;
    assert(before + slices(list@).take(0) =~= before);
    while i < list.len()
        invariant
            i <= list@.len(),
            target == before + slices(list@),
            target.no_duplicates(),
            before.len() + list@.len() <= u32::MAX,
            indexes(word_ids@, texts(id_to_word@), 0),
            texts(id_to_word@) == before + slices(list@).take(i as int),
        decreases list@.len() - i,
    {
        let ghost known = texts(id_to_word@);
        proof {
            let w = list@[i as int]@;
            if known.contains(w) {
                let j = known.index_of(w);
                assert(target[j] == known[j]);
                assert(target[before.len() + i] == w);
            }
            assert(known.push(w) =~= before + slices(list@).take(i + 1));
        }
        let fits = assign(list[i], word_ids, id_to_word);
        assert(fits);
        i += 1;
    }
    assert(slices(list@).take(i as int) =~= slices(list@));
}

/// Gives the next ids to the words of a word list. Says whether there were
/// ids enough.
fn assign_words(
    lines: &[&str],
    word_ids: &mut StringHashMap<u32>,
    id_to_word: &mut Vec<String>,
) -> (ok: bool)
    requires
        indexes(old(word_ids)@, texts(old(id_to_word)@), 0),
        texts(old(id_to_word)@) == fixed_tokens() + whole_contractions(),
        old(id_to_word)@.len() <= u32::MAX,
    ensures
        ok <==> fixed_tokens().len() + whole_contractions().len() + listed_words(
            slices(lines@),
        ).len() <= u32::MAX,
        ok ==> indexes(final(word_ids)@, texts(final(id_to_word)@), 0),
        ok ==> texts(final(id_to_word)@) == fixed_tokens() + whole_contractions() + listed_words(
            slices(lines@),
        ),
{
    let ghost list = slices(lines@);
    let ghost closed = fixed_tokens() + whole_contractions();
    let mut i: usize = 0;
    assert(closed + listed_words(list.take(0)) =~= closed);
    while i < lines.len()
        invariant
            i <= lines@.len(),
            list == slices(lines@),
            closed == fixed_tokens() + whole_contractions(),
            indexes(word_ids@, texts(id_to_word@), 0),
            id_to_word@.len() <= u32::MAX,
            texts(id_to_word@) == closed + listed_words(list.take(i as int)),
        decreases lines@.len() - i,
    {
        let line = lines[i];
        proof {
            assert(list.take(i + 1).drop_last() =~= list.take(i as int));
            assert(list.take(i + 1).last() == line@);
        }
        if let Some(word) = accept_line(line) {
            let ghost before = texts(id_to_word@);
            let ghost listed = listed_words(list.take(i as int));
            proof {
                lemma_vocabulary_distinct(list.take(i + 1));
                if listed.contains(word@) {
                    let j = listed.index_of(word@);
                    assert(before[closed.len() + j] == word@);
                } else if before.contains(word@) {
                    let j = before.index_of(word@);
                    let v = vocabulary(list.take(i + 1));
                    assert(v[j] == word@);
                    assert(v[before.len() as int] == word@);
                }
                assert(closed + listed.push(word@) =~= before.push(word@));
                lemma_listed_words_grow(list, i + 1);
            }
            if !assign(word.as_str(), word_ids, id_to_word) {
                return false;
            }
        }
        i += 1;
    }
    assert(list.take(i as int) =~= list);
    true
}

impl WhitelistTokenizer {
    /// The tokens in the order of their ids.
    pub open spec fn words(&self) -> Seq<Seq<char>> {
        texts(self.id_to_word@)
    }

    /// The tokenizer of a word list: ids follow the order of the vocabulary,
    /// and each field holds what its name says.
    pub open spec fn built_from(&self, lines: Seq<Seq<char>>) -> bool {
        let words = vocabulary(lines);
        let first_special = words.len() - special_tokens().len();
        &&& words.len() <= u32::MAX
        &&& self.words() == words
        &&& indexes(self.word_ids@, words, 0)
        &&& indexes(self.special_ids@, special_tokens(), first_special)
        &&& self.n_fixed == fixed_tokens().len()
        &&& self.space_id == PUNCT_TOKENS@.len()
        &&& self.newline_id == PUNCT_TOKENS@.len() + 1
        &&& self.bos_id == first_special
        &&& self.unk_id == first_special + 1
        &&& self.mask_id == first_special + 2
    }

    // ------------------------------------------------------------------
    // Construction
    // ------------------------------------------------------------------

    /// Builds the tokenizer of a word list, given line by line. The iterator
    /// has to end.
    pub fn from_allowed_words<'a, I: Iterator<Item = &'a str>>(lines: I) -> (r: Result<
        WhitelistTokenizer,
        VocabularyError,
    >)
        requires
            lines.obeys_prophetic_iter_laws(),
            lines.decrease() is Some,
        ensures
            match r {
                Ok(tok) => tok.built_from(slices(lines.remaining())),
                Err(VocabularyError::TooManyTokens) => vocabulary(slices(lines.remaining())).len()
                    > u32::MAX,
            },
    {
        let mut lines = lines;
        let ghost all = lines.remaining();
        let mut list: Vec<&'a str> = Vec::new();
        assert(list@ + lines.remaining() =~= all);
        loop
            invariant_except_break
                lines.obeys_prophetic_iter_laws(),
                lines.decrease() is Some,
                list@ + lines.remaining() == all,
            ensures
                list@ == all,
            decreases lines.decrease()->0,
        {
            match lines.next() {
                Some(line) => {
                    list.push(line);
                    assert(list@ + lines.remaining() =~= all);
                },
                None => {
                    assert(list@ =~= all);
                    break ;
                },
            }
        }
        WhitelistTokenizer::from_lines(list.as_slice())
    }

    /// Builds the tokenizer of a word list, given as a list of lines.
    pub fn from_lines(lines: &[&str]) -> (r: Result<WhitelistTokenizer, VocabularyError>)
        ensures
            match r {
                Ok(tok) => tok.built_from(slices(lines@)),
                Err(VocabularyError::TooManyTokens) => vocabulary(slices(lines@)).len() > u32::MAX,
            },
    {
        let ghost list = slices(lines@);
        let mut word_ids: StringHashMap<u32> = StringHashMap::new();
        let mut id_to_word: Vec<String> = Vec::new();
        proof {
            lemma_vocabulary_distinct(list);
        }
        let ghost target = vocabulary(list);

        // Fixed tokens.
        assert forall|n: int| 0 <= n <= target.len() implies #[trigger] target.take(
            n,
        ).no_duplicates() by {}
        assert(texts(id_to_word@) =~= seq![]);
        assert(texts(id_to_word@) + slices(PUNCT_TOKENS@) =~= target.take(8));
        assign_all(PUNCT_TOKENS.as_slice(), &mut word_ids, &mut id_to_word);
        let white = [SPACE_TOKEN, NEWLINE_TOKEN];
        assert(slices(white@) =~= seq![SPACE_TOKEN@, NEWLINE_TOKEN@]);
        assert(texts(id_to_word@) + slices(white@) =~= target.take(10));
        assign_all(white.as_slice(), &mut word_ids, &mut id_to_word);
        assert(texts(id_to_word@) + slices(CONTRACTION_SUFFIXES@) =~= target.take(11));
        assign_all(CONTRACTION_SUFFIXES.as_slice(), &mut word_ids, &mut id_to_word);
        assert(texts(id_to_word@) == fixed_tokens());
        let n_fixed: u32 = id_to_word.len() as u32;

        // Whole contractions, then the listed words in file order.
        assert(texts(id_to_word@) + whole_contractions() =~= target.take(45));
        assign_all(WHOLE_CONTRACTIONS.as_slice(), &mut word_ids, &mut id_to_word);
        if !assign_words(lines, &mut word_ids, &mut id_to_word) {
            return Err(VocabularyError::TooManyTokens);
        }

        // Special tokens.
        if id_to_word.len() > u32::MAX as usize - SPECIAL_TOKENS.len() {
            return Err(VocabularyError::TooManyTokens);
        }
        let first: u32 = id_to_word.len() as u32;
        assert(texts(id_to_word@) + special_tokens() =~= target);
        assign_all(SPECIAL_TOKENS.as_slice(), &mut word_ids, &mut id_to_word);
        let mut special_ids: StringHashMap<u32> = StringHashMap::new();
        let mut i: usize = 0;
        assert(special_tokens().take(0) =~= seq![]);
        assert forall|a: int, b: int|
            0 <= a < special_tokens().len() && 0 <= b < special_tokens().len() && a
                != b implies special_tokens()[a] != special_tokens()[b] by {
            assert(target[first + a] == special_tokens()[a]);
            assert(target[first + b] == special_tokens()[b]);
        }
        while i < SPECIAL_TOKENS.len()
            invariant
                i <= SPECIAL_TOKENS@.len(),
                first + SPECIAL_TOKENS@.len() <= u32::MAX,
                special_tokens().no_duplicates(),
                indexes(special_ids@, special_tokens().take(i as int), first as int),
            decreases SPECIAL_TOKENS@.len() - i,
        {
            let ghost done = special_tokens().take(i as int);
            proof {
                let w = special_tokens()[i as int];
                assert(special_tokens().take(i + 1) =~= done.push(w));
                lemma_indexes_push(special_ids@, done, first as int, w, (first + i) as u32);
            }
            special_ids.insert(SPECIAL_TOKENS[i].to_owned(), first + i as u32);
            i += 1;
        }
        assert(special_tokens().take(i as int) =~= special_tokens());

        proof {
            assert(target[8] == SPACE_TOKEN@);
            assert(target[9] == NEWLINE_TOKEN@);
            assert(special_tokens()[0] == "<|bos|>"@);
            assert(special_tokens()[1] == "<|unk|>"@);
            assert(special_tokens()[2] == "<|mask|>"@);
        }
        let space_id = *word_ids.get(SPACE_TOKEN).unwrap();
        let newline_id = *word_ids.get(NEWLINE_TOKEN).unwrap();
        let unk_id = *special_ids.get("<|unk|>").unwrap();
        let bos_id = *special_ids.get("<|bos|>").unwrap();
        let mask_id = *special_ids.get("<|mask|>").unwrap();
        let splitter = Splitter::new();
        Ok(
            WhitelistTokenizer {
                word_ids,
                id_to_word,
                space_id,
                newline_id,
                unk_id,
                bos_id,
                mask_id,
                n_fixed,
                special_ids,
                splitter,
            },
        )
    }

    /// Builds the tokenizer of a word list, given as the text of its file.
    pub fn from_word_list(text: &str) -> (r: Result<WhitelistTokenizer, VocabularyError>)
        ensures
            match r {
                Ok(tok) => tok.built_from(lines_of(text@)),
                Err(VocabularyError::TooManyTokens) => vocabulary(lines_of(text@)).len() > u32::MAX,
            },
    {
        let lines = split_lines(text);
        let mut list: Vec<&str> = Vec::new();
        let mut i: usize = 0;
        while i < lines.len()
            invariant
                i <= lines@.len(),
                slices(list@) == texts(lines@).take(i as int),
            decreases lines@.len() - i,
        {
            let ghost before = list@;
            list.push(lines[i].as_str());
            assert(slices(list@) =~= slices(before).push(lines@[i as int]@));
            i += 1;
            assert(texts(lines@).take(i as int) =~= texts(lines@).take(i - 1).push(
                lines@[i - 1]@,
            ));
        }
        assert(texts(lines@).take(i as int) =~= texts(lines@));
        WhitelistTokenizer::from_lines(list.as_slice())
    }

    // ------------------------------------------------------------------
    // Encoding
    // ------------------------------------------------------------------

    /// The id of a token, or the id for unknown.
    pub open spec fn id_of(&self, token: Seq<char>) -> u32 {
        if self.word_ids@.contains_key(token) {
            self.word_ids@[token]
        } else {
            self.unk_id
        }
    }

    /// `n` space ids.
    pub open spec fn space_ids(&self, n: nat) -> Seq<u32> {
        Seq::new(n, |i: int| self.space_id)
    }

    /// The ids of a stream. `spaces` spaces are pending, and `after_word` says
    /// whether one of them is implicit before a word: the item before them was
    /// word-kind or closes a word.
    pub open spec fn encode_from(
        &self,
        items: Seq<ItemView>,
        after_word: bool,
        spaces: nat,
    ) -> Seq<u32>
        decreases items.len(),
    {
        if items.len() == 0 {
            self.space_ids(spaces)
        } else {
            let rest = items.skip(1);
            match items[0] {
                ItemView::Sp => self.encode_from(rest, after_word, spaces + 1),
                ItemView::Nl => self.space_ids(spaces) + seq![self.newline_id] + self.encode_from(
                    rest,
                    false,
                    0,
                ),
                ItemView::Word(token) => self.space_ids(explicit_spaces(after_word, spaces))
                    + seq![self.id_of(token)] + self.encode_from(rest, true, 0),
                ItemView::Unk => self.space_ids(explicit_spaces(after_word, spaces)) + seq![
                    self.unk_id,
                ] + self.encode_from(rest, true, 0),
                ItemView::Fixed(token) => self.space_ids(spaces) + seq![self.id_of(token)]
                    + self.encode_from(rest, closes_word(token), 0),
            }
        }
    }

    /// The ids of a text.
    pub open spec fn encoding(&self, text: Seq<char>, prepend_bos: bool) -> Seq<u32> {
        let ids = self.encode_from(stream_of(text), false, 0);
        if prepend_bos {
            seq![self.bos_id] + ids
        } else {
            ids
        }
    }

    /// Encodes a text, with the token that begins a text before it if asked.
    pub fn encode(&self, text: &str, prepend_bos: bool) -> (ids: Vec<u32>)
        ensures
            ids@ == self.encoding(text@, prepend_bos),
    {
        let mut ids: Vec<u32> = Vec::with_capacity(text.len() / 4 + 4);
        if prepend_bos {
            ids.push(self.bos_id);
        }
        let stream = self.splitter.pretokenize(text);
        self.encode_stream(stream.as_slice(), &mut ids);
        assert(seq![self.bos_id] =~= Seq::<u32>::empty().push(self.bos_id));
        assert(Seq::<u32>::empty() + self.encode_from(stream_of(text@), false, 0)
            =~= self.encode_from(stream_of(text@), false, 0));
        ids
    }

    /// Encodes each of the texts, in parallel.
    pub fn encode_batch(&self, texts: &[&str], prepend_bos: bool) -> (batch: Vec<Vec<u32>>)
        ensures
            batch@.len() == texts@.len(),
            forall|i: int|
                0 <= i < texts@.len() ==> (#[trigger] batch@[i])@ == self.encoding(
                    texts@[i]@,
                    prepend_bos,
                ),
    {
        let encode_one = |text: &&str| -> (ids: Vec<u32>)
            ensures
                ids@ == self.encoding(text@, prepend_bos),
            { self.encode(*text, prepend_bos) };
        par_map(texts, encode_one)
    }

    /// The id of a token, or the id for unknown.
    fn lookup(&self, token: &str) -> (id: u32)
        ensures
            id == self.id_of(token@),
    {
        match self.word_ids.get(token) {
            Some(id) => *id,
            None => self.unk_id,
        }
    }

    /// Appends `n` space ids.
    fn push_spaces(&self, ids: &mut Vec<u32>, n: usize)
        ensures
            final(ids)@ == old(ids)@ + self.space_ids(n as nat),
    {
        let ghost before = ids@;
        let mut i: usize = 0;
        assert(before + self.space_ids(0) =~= before);
        while i < n
            invariant
                i <= n,
                ids@ == before + self.space_ids(i as nat),
            decreases n - i,
        {
            ids.push(self.space_id);
            i += 1;
            assert(before + self.space_ids(i as nat) =~= (before + self.space_ids(
                (i - 1) as nat,
            )).push(self.space_id));
        }
    }

    /// Walks the stream linearly and appends its ids.
    ///
    /// The only non-trivial rule: a single `Sp` between two word-kind items is
    /// implicit and produces no token. Every other `Sp` emits `space_id`. The
    /// suffix `'s` counts as word-kind for the space after it.
    pub fn encode_stream(&self, stream: &[StreamItem], ids: &mut Vec<u32>)
        ensures
            final(ids)@ == old(ids)@ + self.encode_from(views(stream@), false, 0),
    {
        let ghost items = views(stream@);
        let ghost target = ids@ + self.encode_from(items, false, 0);
        let mut prev_word = false;
        let mut sp_run: usize = 0;
        let mut i: usize = 0;
        assert(items.skip(0) =~= items);
        while i < stream.len()
            invariant
                i <= stream@.len(),
                items == views(stream@),
                sp_run <= i,
                ids@ + self.encode_from(items.skip(i as int), prev_word, sp_run as nat) == target,
            decreases stream@.len() - i,
        {
            let ghost before = ids@;
            let ghost rest = items.skip(i as int);
            let ghost spaces = sp_run as nat;
            let ghost was_word = prev_word;
            assert(rest[0] == stream@[i as int]@);
            assert(rest.skip(1) =~= items.skip(i + 1));
            match &stream[i] {
                StreamItem::Sp => {
                    sp_run += 1;
                },
                StreamItem::Nl => {
                    self.push_spaces(ids, sp_run);
                    sp_run = 0;
                    ids.push(self.newline_id);
                    prev_word = false;
                    assert(ids@ =~= before + (self.space_ids(spaces) + seq![self.newline_id]));
                },
                StreamItem::Word(text) => {
                    // One space is implicit between words; drop it.
                    let emit: usize = if prev_word && sp_run > 0 {
                        sp_run - 1
                    } else {
                        sp_run
                    };
                    self.push_spaces(ids, emit);
                    sp_run = 0;
                    ids.push(self.lookup(text.as_str()));
                    prev_word = true;
                    assert(ids@ =~= before + (self.space_ids(explicit_spaces(was_word, spaces))
                        + seq![self.id_of(text@)]));
                },
                StreamItem::Unk => {
                    let emit: usize = if prev_word && sp_run > 0 {
                        sp_run - 1
                    } else {
                        sp_run
                    };
                    self.push_spaces(ids, emit);
                    sp_run = 0;
                    ids.push(self.unk_id);
                    prev_word = true;
                    assert(ids@ =~= before + (self.space_ids(explicit_spaces(was_word, spaces))
                        + seq![self.unk_id]));
                },
                StreamItem::Fixed(text) => {
                    // Every pending space is explicit.
                    self.push_spaces(ids, sp_run);
                    sp_run = 0;
                    ids.push(self.lookup(text.as_str()));
                    prev_word = is_closer(text.as_str());
                    assert(ids@ =~= before + (self.space_ids(spaces) + seq![self.id_of(text@)]));
                },
            }
            i += 1;
            proof {
                let tail = self.encode_from(items.skip(i as int), prev_word, sp_run as nat);
                assert(ids@ + tail =~= before + self.encode_from(rest, was_word, spaces));
            }
        }
        // Trailing spaces have no item after them; all are explicit.
        self.push_spaces(ids, sp_run);
    }

    // ------------------------------------------------------------------
    // Decoding
    // ------------------------------------------------------------------

    /// Whether an id stands for a word: an unknown, or an id past the fixed
    /// tokens.
    pub open spec fn is_word_id(&self, id: u32) -> bool {
        id == self.unk_id || id >= self.n_fixed
    }

    /// The text of a list of ids. `after_word` says whether a word that comes
    /// next is set off by a space. Ids without a token are skipped.
    pub open spec fn decode_from(&self, ids: Seq<u32>, after_word: bool) -> Seq<char>
        decreases ids.len(),
    {
        if ids.len() == 0 {
            seq![]
        } else {
            let id = ids[0];
            let rest = ids.skip(1);
            if id >= self.words().len() {
                self.decode_from(rest, after_word)
            } else {
                let token = self.words()[id as int];
                if id == self.space_id || id == self.newline_id {
                    token + self.decode_from(rest, after_word && id != self.newline_id)
                } else {
                    implicit_space(after_word && self.is_word_id(id)) + token + self.decode_from(
                        rest,
                        self.is_word_id(id) || closes_word(token),
                    )
                }
            }
        }
    }

    /// The text of a list of ids.
    pub open spec fn decoding(&self, ids: Seq<u32>) -> Seq<char> {
        self.decode_from(ids, false)
    }

    /// Decodes a list of ids. Ids that have no token are skipped.
    pub fn decode(&self, ids: &[u32]) -> (text: String)
        ensures
            text@ == self.decoding(ids@),
    {
        let mut out = String::new();
        let mut prev_was_word = false;
        let mut i: usize = 0;
        assert(ids@.skip(0) =~= ids@);
        assert(out@ + self.decoding(ids@) =~= self.decoding(ids@));
        while i < ids.len()
            invariant
                i <= ids@.len(),
                out@ + self.decode_from(ids@.skip(i as int), prev_was_word) == self.decoding(ids@),
            decreases ids@.len() - i,
        {
            let id = ids[i];
            let ghost before = out@;
            let ghost rest = ids@.skip(i as int);
            let ghost was_word = prev_was_word;
            assert(rest[0] == id);
            assert(rest.skip(1) =~= ids@.skip(i + 1));
            if (id as usize) < self.id_to_word.len() {
                let token = &self.id_to_word[id as usize];
                assert(self.words()[id as int] == token@);
                if id == self.space_id || id == self.newline_id {
                    out.append(token.as_str());
                    if id == self.newline_id {
                        prev_was_word = false;
                    }
                } else {
                    let is_word = id == self.unk_id || id >= self.n_fixed;
                    if prev_was_word && is_word {
                        out.push(' ');
                    }
                    out.append(token.as_str());
                    prev_was_word = is_word || is_closer(token.as_str());
                    assert(out@ =~= before + (implicit_space(was_word && is_word) + token@));
                }
            }
            i += 1;
            proof {
                let tail = self.decode_from(ids@.skip(i as int), prev_was_word);
                assert(out@ + tail =~= before + self.decode_from(rest, was_word));
            }
        }
        assert(out@ + self.decode_from(ids@.skip(i as int), prev_was_word) =~= out@);
        out
    }

    // ------------------------------------------------------------------
    // Helpers
    // ------------------------------------------------------------------

    /// The token of an id, if it has one.
    pub fn id_to_token(&self, id: u32) -> (token: Option<&str>)
        ensures
            token is Some <==> id < self.words().len(),
            token matches Some(t) ==> t@ == self.words()[id as int],
    {
        if (id as usize) < self.id_to_word.len() {
            Some(self.id_to_word[id as usize].as_str())
        } else {
            None
        }
    }

    /// The number of tokens.
    pub fn vocab_size(&self) -> (n: usize)
        ensures
            n == self.words().len(),
    {
        self.id_to_word.len()
    }

    /// The id of the token that begins a text.
    pub fn bos_id(&self) -> (id: u32)
        ensures
            id == self.bos_id,
    {
        self.bos_id
    }

    /// The id of the mask token.
    pub fn mask_id(&self) -> (id: u32)
        ensures
            id == self.mask_id,
    {
        self.mask_id
    }

    /// The id that stands for anything unknown.
    pub fn unk_id(&self) -> (id: u32)
        ensures
            id == self.unk_id,
    {
        self.unk_id
    }

    /// The id of the space token.
    pub fn space_id(&self) -> (id: u32)
        ensures
            id == self.space_id,
    {
        self.space_id
    }

    /// The id of the line-break token.
    pub fn newline_id(&self) -> (id: u32)
        ensures
            id == self.newline_id,
    {
        self.newline_id
    }

    /// The id of a special token, if there is one of that name.
    pub fn special_id(&self, name: &str) -> (id: Option<u32>)
        ensures
            id is Some <==> self.special_ids@.contains_key(name@),
            id matches Some(n) ==> n == self.special_ids@[name@],
    {
        match self.special_ids.get(name) {
            Some(id) => Some(*id),
            None => None,
        }
    }
}

/// The fixed token after which a space before a word is implicit: the suffix
/// `'s`.
pub open spec fn closes_word(token: Seq<char>) -> bool {
    token == seq!['\'', 's']
}

/// How many of `spaces` spaces before a word are written out. After a word
/// the first one is implicit.
pub open spec fn explicit_spaces(after_word: bool, spaces: nat) -> nat {
    if after_word && spaces > 0 {
        (spaces - 1) as nat
    } else {
        spaces
    }
}

/// One space if asked, otherwise nothing.
pub open spec fn implicit_space(yes: bool) -> Seq<char> {
    if yes {
        seq![' ']
    } else {
        seq![]
    }
}

/// Whether a fixed token closes a word.
fn is_closer(token: &str) -> (r: bool)
    ensures
        r == closes_word(token@),
{
    let chars = chars_of(token);
    if chars.len() == 2 {
        assert(chars@ =~= seq![chars@[0], chars@[1]]);
        chars[0] == '\'' && chars[1] == 's'
    } else {
        false
    }
}

} // verus!
