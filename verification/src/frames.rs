//! The binary form of id lists: each list is a frame, made of the number of
//! its ids and then the ids, all as 32-bit little-endian numbers.
use vstd::prelude::*;

verus! {

/// The four bytes of a number, lowest first.
pub open spec fn le_bytes(x: u32) -> Seq<u8> {
    seq![
        (x % 256) as u8,
        (x / 256 % 256) as u8,
        (x / 65536 % 256) as u8,
        (x / 16777216) as u8,
    ]
}

/// The number that four bytes stand for, lowest first.
pub open spec fn le_value(b: Seq<u8>) -> u32 {
    (b[0] + 256 * b[1] + 65536 * b[2] + 16777216 * b[3]) as u32
}

/// The bytes of a list of ids.
pub open spec fn id_bytes(ids: Seq<u32>) -> Seq<u8>
    decreases ids.len(),
{
    if ids.len() == 0 {
        seq![]
    } else {
        le_bytes(ids[0]) + id_bytes(ids.skip(1))
    }
}

/// The frame of a list of ids. The number of ids is taken modulo two to the
/// power of 32.
pub open spec fn frame_bytes(ids: Seq<u32>) -> Seq<u8> {
    le_bytes((ids.len() % 0x1_0000_0000) as u32) + id_bytes(ids)
}

/// The first `n` ids that the bytes hold.
pub open spec fn ids_in(data: Seq<u8>, n: nat) -> Seq<u32> {
    Seq::new(n, |i: int| le_value(data.skip(4 * i)))
}

/// The frames that the bytes hold, and whether the last of them is whole.
/// Fewer than four bytes after the last frame do not count.
pub open spec fn frames_in(data: Seq<u8>) -> (Seq<Seq<u32>>, bool)
    decreases data.len(),
{
    if data.len() < 4 {
        (seq![], true)
    } else {
        let n = le_value(data) as nat;
        let body = data.skip(4);
        if body.len() < 4 * n {
            (seq![], false)
        } else {
            let rest = frames_in(body.skip(4 * n as int));
            (seq![ids_in(body, n)] + rest.0, rest.1)
        }
    }
}

/// The contents of a list of lists.
pub open spec fn id_lists(lists: Seq<Vec<u32>>) -> Seq<Seq<u32>> {
    lists.map_values(|ids: Vec<u32>| ids@)
}

/// Appends the four bytes of a number.
fn push_le(out: &mut Vec<u8>, x: u32)
    ensures
        final(out)@ == old(out)@ + le_bytes(x),
{
    let ghost before = out@;
    out.push((x % 256) as u8);
    out.push((x / 256 % 256) as u8);
    out.push((x / 65536 % 256) as u8);
    out.push((x / 16777216) as u8);
    assert(out@ =~= before + le_bytes(x));
}

/// Reads the four bytes of a number.
fn read_le(data: &[u8], at: usize) -> (x: u32)
    requires
        at + 4 <= data@.len(),
    ensures
        x == le_value(data@.skip(at as int)),
{
    data[at] as u32 + 256 * (data[at + 1] as u32) + 65536 * (data[at + 2] as u32) + 16777216 * (
    data[at + 3] as u32)
}

/// The frame of a list of ids.
pub fn write_frame(ids: &[u32]) -> (out: Vec<u8>)
    ensures
        out@ == frame_bytes(ids@),
{
    let mut out: Vec<u8> = Vec::new();
    push_le(&mut out, (ids.len() as u64 % 0x1_0000_0000) as u32);
    let mut i: usize = 0;
    assert(ids@.skip(0) =~= ids@);
    assert(out@ + id_bytes(ids@) =~= frame_bytes(ids@));
    while i < ids.len()
        invariant
            i <= ids@.len(),
            out@ + id_bytes(ids@.skip(i as int)) == frame_bytes(ids@),
        decreases ids@.len() - i,
    {
        let ghost before = out@;
        push_le(&mut out, ids[i]);
        proof {
            let rest = ids@.skip(i as int);
            assert(rest.skip(1) =~= ids@.skip(i + 1));
            let tail = id_bytes(ids@.skip(i + 1));
            assert(before + (le_bytes(rest[0]) + tail) =~= out@ + tail);
        }
        i += 1;
    }
    assert(out@ + id_bytes(ids@.skip(i as int)) =~= out@);
    out
}

/// Reads the frames that the bytes hold. Says whether the last of them is
/// whole; one that is not is left out.
pub fn read_frames(data: &[u8]) -> (r: (Vec<Vec<u32>>, bool))
    ensures
        (id_lists(r.0@), r.1) == frames_in(data@),
{
    let mut lists: Vec<Vec<u32>> = Vec::new();
    let mut at: usize = 0;
    assert(data@.skip(0) =~= data@);
    assert(id_lists(lists@) + frames_in(data@).0 =~= frames_in(data@).0);
    while data.len() - at >= 4
        invariant
            at <= data@.len(),
            id_lists(lists@) + frames_in(data@.skip(at as int)).0 == frames_in(data@).0,
            frames_in(data@.skip(at as int)).1 == frames_in(data@).1,
        decreases data@.len() - at,
    {
        let ghost rest = data@.skip(at as int);
        let ghost body = rest.skip(4);
        let count: usize = read_le(data, at) as usize;
        let start: usize = at + 4;
        assert(body =~= data@.skip(start as int));
        if (data.len() - start) / 4 < count {
            assert(id_lists(lists@) + seq![] =~= id_lists(lists@));
            return (lists, false);
        }
        let mut ids: Vec<u32> = Vec::new();
        let mut i: usize = 0;
        let len: usize = data.len();
        while i < count
            invariant
                i <= count,
                len == data@.len(),
                start + 4 * count <= len,
                start <= data@.len(),
                body == data@.skip(start as int),
                ids@ == ids_in(body, i as nat),
            decreases count - i,
        {
            ids.push(read_le(data, start + 4 * i));
            i += 1;
            assert(data@.skip(start + 4 * (i - 1)) =~= body.skip(4 * (i - 1)));
            assert(ids_in(body, i as nat) =~= ids_in(body, (i - 1) as nat).push(
                le_value(body.skip(4 * (i - 1))),
            ));
        }
        let ghost before = id_lists(lists@);
        lists.push(ids);
        at = start + 4 * count;
        proof {
            assert(id_lists(lists@) =~= before.push(ids@));
            assert(body.skip(4 * count as int) =~= data@.skip(at as int));
            let tail = frames_in(data@.skip(at as int)).0;
            assert(before + (seq![ids@] + tail) =~= before.push(ids@) + tail);
        }
    }
    assert(id_lists(lists@) + seq![] =~= id_lists(lists@));
    (lists, true)
}

// ---------------------------------------------------------------------------
// Laws
// ---------------------------------------------------------------------------

/// Four bytes give back the number they were made of.
pub proof fn law_number_round_trip(x: u32)
    ensures
        le_value(le_bytes(x)) == x,
{
}

/// The byte order: four bytes stand for a number, the lowest first.
pub proof fn law_byte_order(x: u32)
    ensures
        le_bytes(x).len() == 4,
        le_bytes(x)[0] + 256 * le_bytes(x)[1] + 65536 * le_bytes(x)[2] + 16777216 * le_bytes(x)[3]
            == x,
        forall|b: Seq<u8>|
            b.len() >= 4 ==> #[trigger] le_value(b) == b[0] + 256 * b[1] + 65536 * b[2] + 16777216
                * b[3],
{
    let b = le_bytes(x);
    assert(b[0] == x % 256);
    assert(b[1] == x / 256 % 256);
    assert(b[2] == x / 65536 % 256);
    assert(b[3] == x / 16777216);
}

/// The number at a place in the bytes, the lowest byte first.
pub open spec fn number_at(data: Seq<u8>, at: int) -> int {
    data[at] + 256 * data[at + 1] + 65536 * data[at + 2] + 16777216 * data[at + 3]
}

/// What a frame looks like: the number of ids, then each id, four bytes each,
/// the lowest byte first.
pub proof fn law_frame_layout(ids: Seq<u32>)
    ensures
        frame_bytes(ids).len() == 4 + 4 * ids.len(),
        number_at(frame_bytes(ids), 0) == ids.len() % 0x1_0000_0000,
        forall|i: int|
            0 <= i < ids.len() ==> number_at(frame_bytes(ids), 4 + 4 * i) == #[trigger] ids[i],
{
    let data = frame_bytes(ids);
    let n = (ids.len() % 0x1_0000_0000) as u32;
    law_byte_order(n);
    assert(data[0] == le_bytes(n)[0]);
    assert(data[1] == le_bytes(n)[1]);
    assert(data[2] == le_bytes(n)[2]);
    assert(data[3] == le_bytes(n)[3]);
    lemma_id_bytes(ids);
    assert forall|i: int| 0 <= i < ids.len() implies number_at(data, 4 + 4 * i)
        == #[trigger] ids[i] by {
        assert(number_at(id_bytes(ids), 4 * i) == ids[i]);
    }
}

proof fn lemma_id_bytes(ids: Seq<u32>)
    ensures
        id_bytes(ids).len() == 4 * ids.len(),
        forall|i: int|
            0 <= i < ids.len() ==> number_at(id_bytes(ids), 4 * i) == #[trigger] ids[i],
    decreases ids.len(),
{
    if ids.len() > 0 {
        let rest = ids.skip(1);
        lemma_id_bytes(rest);
        law_byte_order(ids[0]);
        let data = id_bytes(ids);
        assert forall|i: int| 0 <= i < ids.len() implies number_at(data, 4 * i)
            == #[trigger] ids[i] by {
            if i > 0 {
                assert(number_at(id_bytes(rest), 4 * (i - 1)) == rest[i - 1]);
            }
        }
    }
}

/// How bytes are read. Fewer than four are no frame. Otherwise the first four
/// give the number of ids; where the bytes do not hold that many, the frame is
/// not whole and ends the reading. Where they do, the ids are the numbers that
/// follow, and what stands behind them is read in the same way.
pub proof fn law_reading(data: Seq<u8>)
    ensures
        data.len() < 4 ==> frames_in(data).0.len() == 0 && frames_in(data).1,
        data.len() >= 4 && data.len() < 4 + 4 * number_at(data, 0) ==> frames_in(data).0.len() == 0
            && !frames_in(data).1,
        data.len() >= 4 && data.len() >= 4 + 4 * number_at(data, 0) ==> {
            let n = number_at(data, 0);
            let rest = frames_in(data.skip(4 + 4 * (n as int)));
            let lists = frames_in(data).0;
            &&& lists.len() == 1 + rest.0.len()
            &&& lists[0].len() == n
            &&& forall|i: int| 0 <= i < n ==> #[trigger] lists[0][i] == number_at(data, 4 + 4 * i)
            &&& lists.skip(1) == rest.0
            &&& frames_in(data).1 == rest.1
        },
{
    if data.len() >= 4 {
        law_byte_order(0);
        let n = le_value(data) as nat;
        assert(n == number_at(data, 0));
        let body = data.skip(4);
        if body.len() >= 4 * n {
            let rest = frames_in(body.skip(4 * n as int));
            let lists = frames_in(data).0;
            assert(body.skip(4 * n as int) =~= data.skip(4 + 4 * (n as int)));
            assert forall|i: int| 0 <= i < n implies #[trigger] lists[0][i] == number_at(
                data,
                4 + 4 * i,
            ) by {
                assert(lists[0] == ids_in(body, n));
                let b = body.skip(4 * i);
                assert(le_value(b) == b[0] + 256 * b[1] + 65536 * b[2] + 16777216 * b[3]);
            }
            assert(lists.skip(1) =~= rest.0);
        }
    }
}

proof fn lemma_ids_round_trip(ids: Seq<u32>, tail: Seq<u8>)
    ensures
        id_bytes(ids).len() == 4 * ids.len(),
        ids_in(id_bytes(ids) + tail, ids.len()) == ids,
    decreases ids.len(),
{
    let data = id_bytes(ids) + tail;
    if ids.len() > 0 {
        let rest = ids.skip(1);
        lemma_ids_round_trip(rest, tail);
        law_number_round_trip(ids[0]);
        let shorter = id_bytes(rest) + tail;
        assert(data.skip(4) =~= shorter);
        assert forall|i: int| 0 <= i < ids.len() implies ids_in(data, ids.len())[i] == ids[i] by {
            if i == 0 {
                assert(data.skip(0) =~= data);
                assert(data[0] == le_bytes(ids[0])[0]);
                assert(data[1] == le_bytes(ids[0])[1]);
                assert(data[2] == le_bytes(ids[0])[2]);
                assert(data[3] == le_bytes(ids[0])[3]);
            } else {
                assert(data.skip(4 * i) =~= shorter.skip(4 * (i - 1)));
                assert(ids_in(shorter, rest.len())[i - 1] == rest[i - 1]);
            }
        }
    }
    assert(ids_in(data, ids.len()) =~= ids);
}

/// A frame is read back as it was written, and what follows it is read as if
/// it stood alone.
pub proof fn law_frame_round_trip(ids: Seq<u32>, rest: Seq<u8>)
    requires
        ids.len() <= u32::MAX,
    ensures
        frames_in(frame_bytes(ids) + rest) == (
            seq![ids] + frames_in(rest).0,
            frames_in(rest).1,
        ),
{
    let data = frame_bytes(ids) + rest;
    let n = ids.len();
    lemma_ids_round_trip(ids, rest);
    law_number_round_trip(n as u32);
    assert(n % 0x1_0000_0000 == n);
    let head = le_bytes(n as u32);
    assert(data[0] == head[0]);
    assert(data[1] == head[1]);
    assert(data[2] == head[2]);
    assert(data[3] == head[3]);
    assert(le_value(data) == n);
    assert(data.skip(4) =~= id_bytes(ids) + rest);
    assert(data.skip(4).skip(4 * n as int) =~= rest);
}

/// The frames of several lists, one after the other.
pub open spec fn frames_bytes(lists: Seq<Seq<u32>>) -> Seq<u8>
    decreases lists.len(),
{
    if lists.len() == 0 {
        seq![]
    } else {
        frame_bytes(lists[0]) + frames_bytes(lists.skip(1))
    }
}

/// Lists of ids that are written frame by frame are read back.
pub proof fn law_frames_round_trip(lists: Seq<Seq<u32>>)
    requires
        forall|i: int| 0 <= i < lists.len() ==> (#[trigger] lists[i]).len() <= u32::MAX,
    ensures
        frames_in(frames_bytes(lists)) == (lists, true),
    decreases lists.len(),
{
    if lists.len() > 0 {
        let rest = lists.skip(1);
        law_frames_round_trip(rest);
        law_frame_round_trip(lists[0], frames_bytes(rest));
        assert(seq![lists[0]] + rest =~= lists);
    } else {
        assert(lists =~= seq![]);
    }
}

} // verus!
