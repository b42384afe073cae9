//! What the commands of the command line compute.
use crate::counting::{count_id, occurrences};
use crate::frames::{frame_bytes, frames_in, id_lists, read_frames, write_frame};
use crate::text::texts;
use crate::tokenizer::WhitelistTokenizer;
use vstd::prelude::*;

verus! {

/// What a sanity check shows of one text.
pub struct Report {
    /// The ids of the text.
    pub tokens: Vec<u32>,
    /// How many of them stand for something unknown.
    pub n_unk: usize,
    /// The text that the ids decode to.
    pub decoded: String,
}

/// The number of ids of all the texts together.
pub open spec fn token_total(tok: WhitelistTokenizer, lines: Seq<Seq<char>>) -> nat
    decreases lines.len(),
{
    if lines.len() == 0 {
        0
    } else {
        token_total(tok, lines.drop_last()) + tok.encoding(lines.last(), false).len()
    }
}

/// The number of bytes of all the texts together.
pub open spec fn byte_total(lines: Seq<Seq<char>>) -> nat
    decreases lines.len(),
{
    if lines.len() == 0 {
        0
    } else {
        byte_total(lines.drop_last()) + vstd::utf8::encode_utf8(lines.last()).len()
    }
}

/// The totals of some lines and of others add up to those of all of them; a
/// single line counts with its ids and its bytes, and no lines with nothing.
pub proof fn law_totals(
    tok: WhitelistTokenizer,
    a: Seq<Seq<char>>,
    b: Seq<Seq<char>>,
    line: Seq<char>,
)
    ensures
        token_total(tok, a + b) == token_total(tok, a) + token_total(tok, b),
        byte_total(a + b) == byte_total(a) + byte_total(b),
        token_total(tok, seq![line]) == tok.encoding(line, false).len(),
        byte_total(seq![line]) == vstd::utf8::encode_utf8(line).len(),
        token_total(tok, Seq::empty()) == 0,
        byte_total(Seq::empty()) == 0,
    decreases b.len(),
{
    assert(seq![line].drop_last() =~= seq![]);
    assert(token_total(tok, seq![line].drop_last()) == 0);
    assert(byte_total(seq![line].drop_last()) == 0);
    if b.len() == 0 {
        assert(a + b =~= a);
    } else {
        law_totals(tok, a, b.drop_last(), line);
        assert((a + b).drop_last() =~= a + b.drop_last());
    }
}

/// The number of bytes of the lines of a text, line ends not counted.
pub fn count_bytes(lines: &[String]) -> (n: u128)
    ensures
        n == byte_total(texts(lines@)),
{
    let mut n: u128 = 0;
    let mut i: usize = 0;
    let ghost list = texts(lines@);
    while i < lines.len()
        invariant
            i <= lines@.len(),
            list == texts(lines@),
            n == byte_total(list.take(i as int)),
            n <= i * usize::MAX,
        decreases lines@.len() - i,
    {
        proof {
            assert(list.take(i + 1).drop_last() =~= list.take(i as int));
            assert(list.take(i + 1).last() == lines@[i as int]@);
            assert(i * usize::MAX + usize::MAX == (i + 1) * usize::MAX) by (nonlinear_arith);
            assert((i + 1) * usize::MAX <= u128::MAX) by (nonlinear_arith)
                requires
                    i < usize::MAX,
            ;
        }
        n += lines[i].as_str().as_bytes().len() as u128;
        i += 1;
    }
    assert(list.take(i as int) =~= list);
    n
}

impl WhitelistTokenizer {
    /// Encodes a line into a frame.
    pub fn encode_frame(&self, line: &str, prepend_bos: bool) -> (out: Vec<u8>)
        ensures
            out@ == frame_bytes(self.encoding(line@, prepend_bos)),
    {
        let ids = self.encode(line, prepend_bos);
        write_frame(ids.as_slice())
    }

    /// Decodes the frames that the bytes hold, each into a text. Says whether
    /// the last frame is whole; one that is not is left out.
    pub fn decode_frames(&self, data: &[u8]) -> (r: (Vec<String>, bool))
        ensures
            texts(r.0@) == frames_in(data@).0.map_values(|ids: Seq<u32>| self.decoding(ids)),
            r.1 == frames_in(data@).1,
    {
        let (lists, whole) = read_frames(data);
        let mut lines: Vec<String> = Vec::new();
        let mut i: usize = 0;
        let ghost all = id_lists(lists@);
        let ghost f = |ids: Seq<u32>| self.decoding(ids);
        while i < lists.len()
            invariant
                i <= lists@.len(),
                all == id_lists(lists@),
                f == (|ids: Seq<u32>| self.decoding(ids)),
                texts(lines@) == all.take(i as int).map_values(f),
            decreases lists@.len() - i,
        {
            let ghost before = texts(lines@);
            lines.push(self.decode(lists[i].as_slice()));
            proof {
                assert(texts(lines@) =~= before.push(self.decoding(all[i as int])));
                assert(all.take(i + 1).map_values(f) =~= all.take(i as int).map_values(f).push(
                    f(all[i as int]),
                ));
            }
            i += 1;
        }
        assert(all.take(i as int) =~= all);
        (lines, whole)
    }

    /// Encodes a text, counts its unknowns and decodes it again.
    pub fn check_text(&self, input: &str) -> (r: Report)
        ensures
            r.tokens@ == self.encoding(input@, false),
            r.n_unk == occurrences(r.tokens@, self.unk_id),
            r.decoded@ == self.decoding(r.tokens@),
    {
        let tokens = self.encode(input, false);
        let n_unk = count_id(tokens.as_slice(), self.unk_id);
        let decoded = self.decode(tokens.as_slice());
        Report { tokens, n_unk, decoded }
    }

    /// Encodes each of the lines and counts the ids.
    pub fn count_tokens(&self, lines: &[String]) -> (n: u128)
        ensures
            n == token_total(*self, texts(lines@)),
    {
        let mut n: u128 = 0;
        let mut i: usize = 0;
        let ghost list = texts(lines@);
        while i < lines.len()
            invariant
                i <= lines@.len(),
                list == texts(lines@),
                n == token_total(*self, list.take(i as int)),
                n <= i * usize::MAX,
            decreases lines@.len() - i,
        {
            proof {
                assert(list.take(i + 1).drop_last() =~= list.take(i as int));
                assert(list.take(i + 1).last() == lines@[i as int]@);
                assert(i * usize::MAX + usize::MAX == (i + 1) * usize::MAX) by (nonlinear_arith);
                assert((i + 1) * usize::MAX <= u128::MAX) by (nonlinear_arith)
                    requires
                        i < usize::MAX,
                ;
            }
            let ids = self.encode(lines[i].as_str(), false);
            n += ids.len() as u128;
            i += 1;
        }
        assert(list.take(i as int) =~= list);
        n
    }
}

} // verus!
