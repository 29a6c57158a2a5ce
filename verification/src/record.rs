//! The record codec: one logical record is framed as
//! `[checksum:4][length:4][payload:length]`, little-endian, and a container's
//! record region is a stream of such frames ending at the end of the bytes.

use vstd::prelude::*;
use crate::wire::{le32, u32_of_le, lemma_le32_roundtrip, lemma_le32_inverse, write_u32_le,
    read_u32_le};
use crate::checksum::{crc32_of, crc32};
use crate::error::DatabaseError;

verus! {

/// One record as it stands in a byte stream: the checksum stored in its
/// frame, and its payload bytes.
#[verifier::ext_equal]
pub struct RecordView {
    pub saved: u32,
    pub payload: Seq<u8>,
}

/// The record that a correct writer produces for `payload`.
pub open spec fn rec_of(payload: Seq<u8>) -> RecordView {
    RecordView { saved: crc32_of(payload), payload }
}

/// The frame bytes of one record.
pub open spec fn frame_of(e: RecordView) -> Seq<u8> {
    le32(e.saved) + le32(e.payload.len() as u32) + e.payload
}

/// The concatenated frames of a sequence of records.
pub open spec fn stream_of(es: Seq<RecordView>) -> Seq<u8>
    decreases es.len(),
{
    if es.len() == 0 {
        Seq::empty()
    } else {
        frame_of(es[0]) + stream_of(es.drop_first())
    }
}

/// The records read from `b` starting at `off`, stopping at the first
/// truncated frame: a record is read only if its eight header bytes and its
/// whole payload lie within `b`.
pub open spec fn entries_from(b: Seq<u8>, off: int) -> Seq<RecordView>
    decreases b.len() - off,
{
    if off < 0 || off + 8 > b.len() {
        Seq::empty()
    } else {
        let len = u32_of_le(b.subrange(off + 4, off + 8)) as int;
        if off + 8 + len > b.len() {
            Seq::empty()
        } else {
            seq![
                RecordView {
                    saved: u32_of_le(b.subrange(off, off + 4)),
                    payload: b.subrange(off + 8, off + 8 + len),
                },
            ] + entries_from(b, off + 8 + len)
        }
    }
}

/// Whether the records read from `off` consume `b` exactly, with no
/// truncated tail left over.
pub open spec fn tight(b: Seq<u8>, off: int) -> bool
    decreases b.len() - off,
{
    if off == b.len() {
        true
    } else if off < 0 || off + 8 > b.len() {
        false
    } else {
        let len = u32_of_le(b.subrange(off + 4, off + 8)) as int;
        off + 8 + len <= b.len() && tight(b, off + 8 + len)
    }
}

/// Reading at an offset past a prefix ignores the prefix.
pub proof fn lemma_entries_shift(a: Seq<u8>, t: Seq<u8>, off: int)
    requires
        0 <= off,
    ensures
        entries_from(a + t, a.len() + off) == entries_from(t, off),
        tight(a + t, a.len() + off) == tight(t, off),
    decreases t.len() - off,
{
    let s = a + t;
    let n = a.len() as int;
    assert(s.len() == n + t.len());
    if off + 8 > t.len() {
        assert(entries_from(s, n + off) =~= entries_from(t, off));
    } else {
        assert(s.subrange(n + off, n + off + 4) =~= t.subrange(off, off + 4));
        assert(s.subrange(n + off + 4, n + off + 8) =~= t.subrange(off + 4, off + 8));
        let len = u32_of_le(t.subrange(off + 4, off + 8)) as int;
        if off + 8 + len > t.len() {
            assert(entries_from(s, n + off) =~= entries_from(t, off));
        } else {
            assert(s.subrange(n + off + 8, n + off + 8 + len) =~= t.subrange(
                off + 8,
                off + 8 + len,
            ));
            lemma_entries_shift(a, t, off + 8 + len);
            assert(entries_from(s, n + off) =~= entries_from(t, off));
        }
    }
}

/// The first record of `frame_of(e) + x` is `e`, and the rest is read from
/// `x` alone.
pub proof fn lemma_head(e: RecordView, x: Seq<u8>)
    requires
        e.payload.len() <= u32::MAX,
    ensures
        entries_from(frame_of(e) + x, 0) == seq![e] + entries_from(x, 0),
        tight(frame_of(e) + x, 0) == tight(x, 0),
        frame_of(e).len() == 8 + e.payload.len(),
{
    let b = frame_of(e) + x;
    let w = 8 + e.payload.len() as int;
    lemma_le32_roundtrip(e.saved);
    lemma_le32_roundtrip(e.payload.len() as u32);
    assert(b.subrange(0, 4) =~= le32(e.saved));
    assert(b.subrange(4, 8) =~= le32(e.payload.len() as u32));
    assert(b.subrange(8, w) =~= e.payload);
    lemma_entries_shift(frame_of(e), x, 0);
    assert(frame_of(e) + x =~= b);
    let head = RecordView { saved: u32_of_le(b.subrange(0, 4)), payload: b.subrange(8, w) };
    assert(head == e);
    assert(entries_from(b, 0) =~= seq![e] + entries_from(x, 0));
}

/// A tight stream followed by more bytes parses as the stream's records
/// followed by whatever the extra bytes hold.
pub proof fn lemma_entries_append(b: Seq<u8>, ext: Seq<u8>, off: int)
    requires
        0 <= off,
        tight(b, off),
    ensures
        entries_from(b + ext, off) == entries_from(b, off) + entries_from(ext, 0),
        tight(b + ext, off) == tight(ext, 0),
    decreases b.len() - off,
{
    let s = b + ext;
    if off == b.len() {
        lemma_entries_shift(b, ext, 0);
        assert(entries_from(s, off) =~= entries_from(b, off) + entries_from(ext, 0));
    } else {
        assert(s.subrange(off, off + 4) =~= b.subrange(off, off + 4));
        assert(s.subrange(off + 4, off + 8) =~= b.subrange(off + 4, off + 8));
        let len = u32_of_le(b.subrange(off + 4, off + 8)) as int;
        assert(s.subrange(off + 8, off + 8 + len) =~= b.subrange(off + 8, off + 8 + len));
        lemma_entries_append(b, ext, off + 8 + len);
        assert(entries_from(s, off) =~= entries_from(b, off) + entries_from(ext, 0));
    }
}

/// Concatenated frames parse back to exactly the records they came from.
pub proof fn lemma_stream_entries(es: Seq<RecordView>)
    requires
        forall|i: int| 0 <= i < es.len() ==> (#[trigger] es[i]).payload.len() <= u32::MAX,
    ensures
        entries_from(stream_of(es), 0) == es,
        tight(stream_of(es), 0),
    decreases es.len(),
{
    if es.len() == 0 {
        assert(entries_from(stream_of(es), 0) =~= es);
    } else {
        let rest = es.drop_first();
        assert(forall|i: int|
            0 <= i < rest.len() ==> (#[trigger] rest[i]).payload.len() <= u32::MAX) by {
            assert(forall|i: int|
                0 <= i < rest.len() ==> rest[i] == es[i + 1] && (#[trigger] es[i
                    + 1]).payload.len() <= u32::MAX);
        }
        lemma_stream_entries(rest);
        lemma_head(es[0], stream_of(rest));
        assert(seq![es[0]] + rest =~= es);
    }
}

/// Frames of a concatenation are the concatenation of the frames.
pub proof fn lemma_stream_append(x: Seq<RecordView>, y: Seq<RecordView>)
    ensures
        stream_of(x + y) == stream_of(x) + stream_of(y),
    decreases x.len(),
{
    if x.len() == 0 {
        assert(x + y =~= y);
        assert(stream_of(x + y) =~= stream_of(x) + stream_of(y));
    } else {
        assert((x + y).drop_first() =~= x.drop_first() + y);
        lemma_stream_append(x.drop_first(), y);
        assert(stream_of(x + y) =~= stream_of(x) + stream_of(y));
    }
}

/// Appending one record to a stream appends its frame.
pub proof fn lemma_stream_snoc(es: Seq<RecordView>, e: RecordView)
    ensures
        stream_of(es.push(e)) == stream_of(es) + frame_of(e),
{
    lemma_stream_append(es, seq![e]);
    assert(es.push(e) =~= es + seq![e]);
    assert(seq![e].drop_first() =~= Seq::<RecordView>::empty());
    assert(stream_of(Seq::<RecordView>::empty()) =~= Seq::<u8>::empty());
    assert(stream_of(seq![e]) == frame_of(e) + stream_of(seq![e].drop_first()));
    assert(stream_of(seq![e]) =~= frame_of(e));
}

/// Cutting a stream of frames strictly inside frame `k` leaves exactly the
/// first `k` records readable: the cut tail reads as the stream's clean end.
pub proof fn lemma_stream_truncated(es: Seq<RecordView>, k: int, n: int)
    requires
        forall|i: int| 0 <= i < es.len() ==> (#[trigger] es[i]).payload.len() <= u32::MAX,
        0 <= k < es.len(),
        stream_of(es.take(k)).len() < n < stream_of(es.take(k + 1)).len(),
    ensures
        entries_from(stream_of(es).take(n), 0) == es.take(k),
    decreases k,
{
    let e0 = es[0];
    let w0 = 8 + e0.payload.len() as int;
    lemma_head(e0, stream_of(es.drop_first()));
    assert(stream_of(es) == frame_of(e0) + stream_of(es.drop_first()));
    let t = stream_of(es).take(n);
    if k == 0 {
        assert(es.take(0) =~= Seq::<RecordView>::empty());
        assert(es.take(1) =~= seq![e0]);
        assert(seq![e0].drop_first() =~= Seq::<RecordView>::empty());
        assert(stream_of(seq![e0]) =~= frame_of(e0));
        assert(n < w0);
        if n < 8 {
            assert(entries_from(t, 0) =~= es.take(0));
        } else {
            lemma_le32_roundtrip(e0.payload.len() as u32);
            assert(t.subrange(4, 8) =~= le32(e0.payload.len() as u32));
            assert(8 + u32_of_le(t.subrange(4, 8)) as int > n);
            assert(entries_from(t, 0) =~= es.take(0));
        }
    } else {
        let rest = es.drop_first();
        assert(forall|i: int|
            0 <= i < rest.len() ==> (#[trigger] rest[i]).payload.len() <= u32::MAX) by {
            assert(forall|i: int|
                0 <= i < rest.len() ==> rest[i] == es[i + 1] && (#[trigger] es[i
                    + 1]).payload.len() <= u32::MAX);
        }
        assert(es.take(k) =~= seq![e0] + rest.take(k - 1));
        assert((seq![e0] + rest.take(k - 1)).drop_first() =~= rest.take(k - 1));
        assert(stream_of(es.take(k)) == frame_of(e0) + stream_of(rest.take(k - 1)));
        assert(es.take(k + 1) =~= seq![e0] + rest.take(k));
        assert((seq![e0] + rest.take(k)).drop_first() =~= rest.take(k));
        assert(stream_of(es.take(k + 1)) == frame_of(e0) + stream_of(rest.take(k)));
        assert(stream_of(rest.take(k - 1)).len() < n - w0 < stream_of(rest.take(k)).len());
        lemma_stream_truncated(rest, k - 1, n - w0);
        assert(n - w0 <= stream_of(rest).len()) by {
            assert(stream_of(rest.take(k)).len() <= stream_of(rest).len()) by {
                lemma_stream_append(rest.take(k), rest.skip(k));
                assert(rest.take(k) + rest.skip(k) =~= rest);
            }
        }
        assert(t =~= frame_of(e0) + stream_of(rest).take(n - w0));
        lemma_head(e0, stream_of(rest).take(n - w0));
        assert(entries_from(t, 0) == seq![e0] + entries_from(stream_of(rest).take(n - w0), 0));
        assert(entries_from(t, 0) =~= es.take(k));
    }
}

/// Each record consumes at least eight bytes of the stream.
pub proof fn lemma_entries_len_bound(b: Seq<u8>, off: int)
    requires
        0 <= off <= b.len(),
    ensures
        8 * entries_from(b, off).len() <= b.len() - off,
    decreases b.len() - off,
{
    if off + 8 > b.len() {
    } else {
        let len = u32_of_le(b.subrange(off + 4, off + 8)) as int;
        if off + 8 + len <= b.len() {
            lemma_entries_len_bound(b, off + 8 + len);
        }
    }
}

/// Every parsed payload fits the length field's range.
pub proof fn lemma_entries_payload_bound(b: Seq<u8>, off: int)
    ensures
        forall|i: int|
            0 <= i < entries_from(b, off).len() ==> (#[trigger] entries_from(b, off)[i])
                .payload.len() <= u32::MAX,
    decreases b.len() - off,
{
    let es = entries_from(b, off);
    if off < 0 || off + 8 > b.len() {
    } else {
        let len = u32_of_le(b.subrange(off + 4, off + 8)) as int;
        if off + 8 + len > b.len() {
        } else {
            lemma_entries_payload_bound(b, off + 8 + len);
            assert(forall|i: int|
                1 <= i < es.len() ==> es[i] == entries_from(b, off + 8 + len)[i - 1]);
        }
    }
}

/// The bytes a record occupies in the stream are exactly its frame.
pub proof fn lemma_record_bytes(b: Seq<u8>, off: int)
    requires
        0 <= off,
        entries_from(b, off).len() > 0,
    ensures
        off + 8 + entries_from(b, off)[0].payload.len() <= b.len(),
        b.subrange(off, off + 8 + entries_from(b, off)[0].payload.len()) == frame_of(
            entries_from(b, off)[0],
        ),
        entries_from(b, off + 8 + entries_from(b, off)[0].payload.len()) == entries_from(
            b,
            off,
        ).drop_first(),
{
    let e = entries_from(b, off)[0];
    let len = u32_of_le(b.subrange(off + 4, off + 8)) as int;
    assert(e.payload == b.subrange(off + 8, off + 8 + len));
    assert(e.payload.len() == len);
    assert(e.payload.len() as u32 == u32_of_le(b.subrange(off + 4, off + 8)));
    lemma_le32_inverse(b.subrange(off, off + 4));
    lemma_le32_inverse(b.subrange(off + 4, off + 8));
    assert(b.subrange(off, off + 8 + len) =~= frame_of(e));
    assert(entries_from(b, off).drop_first() =~= entries_from(b, off + 8 + len));
}

/// Appends `src[a..b]` to `dst`.
pub(crate) fn push_range(dst: &mut Vec<u8>, src: &Vec<u8>, a: usize, b: usize)
    requires
        a <= b <= src@.len(),
    ensures
        final(dst)@ == old(dst)@ + src@.subrange(a as int, b as int),
{
    let mut i: usize = a;
    while i < b
        invariant
            a <= i <= b <= src@.len(),
            dst@ == old(dst)@ + src@.subrange(a as int, i as int),
        decreases b - i,
    {
        let x = src[i];
        dst.push(x);
        proof {
            assert(old(dst)@ + src@.subrange(a as int, i as int) + seq![src@[i as int]]
                =~= old(dst)@ + src@.subrange(a as int, i as int + 1));
        }
        i = i + 1;
    }
    proof {
        assert(dst@ =~= old(dst)@ + src@.subrange(a as int, b as int));
    }
}

/// What reading one record at an offset can yield.
pub enum DecodeOutcome {
    /// The bytes end before a whole record is available: the stream's clean
    /// end, not a failure.
    Truncated,
    /// A record whose stored checksum matches the recomputed one.
    Valid { payload: Vec<u8>, next: usize },
    /// A record whose stored checksum disagrees with the recomputed one.
    /// The payload is still handed out so that the caller can attempt a
    /// best-effort decode.
    Mismatch { saved: u32, expected: u32, payload: Vec<u8>, next: usize },
}

/// Reads the record framed at `off` in `b`, distinguishing truncation from
/// corruption.
pub fn decode_record_at(b: &Vec<u8>, off: usize) -> (r: DecodeOutcome)
    requires
        off <= b@.len(),
    ensures
        ({
            let es = entries_from(b@, off as int);
            match r {
                DecodeOutcome::Truncated => es.len() == 0,
                DecodeOutcome::Valid { payload, next } => {
                    &&& es.len() > 0
                    &&& es[0].payload == payload@
                    &&& es[0].saved == crc32_of(payload@)
                    &&& off < next <= b@.len()
                    &&& next == off + 8 + payload@.len()
                    &&& entries_from(b@, next as int) == es.drop_first()
                },
                DecodeOutcome::Mismatch { saved, expected, payload, next } => {
                    &&& es.len() > 0
                    &&& es[0].payload == payload@
                    &&& es[0].saved == saved
                    &&& expected == crc32_of(payload@)
                    &&& saved != expected
                    &&& off < next <= b@.len()
                    &&& next == off + 8 + payload@.len()
                    &&& entries_from(b@, next as int) == es.drop_first()
                },
            }
        }),
{
    let n = b.len();
    if n - off < 8 {
        return DecodeOutcome::Truncated;
    }
    let saved = read_u32_le(b, off);
    let len32 = read_u32_le(b, off + 4);
    let len = len32 as usize;
    if len > n - off - 8 {
        return DecodeOutcome::Truncated;
    }
    let mut payload: Vec<u8> = Vec::new();
    push_range(&mut payload, b, off + 8, off + 8 + len);
    let expected = crc32(&payload);
    let next = off + 8 + len;
    proof {
        let es = entries_from(b@, off as int);
        assert(es[0].payload == b@.subrange(off as int + 8, off as int + 8 + len as int));
        assert(payload@ == b@.subrange(off as int + 8, off as int + 8 + len as int));
        assert(entries_from(b@, next as int) =~= es.drop_first());
    }
    if expected == saved {
        DecodeOutcome::Valid { payload, next }
    } else {
        DecodeOutcome::Mismatch { saved, expected, payload, next }
    }
}

/// Frames `payload` as one record: its CRC, its length, then the payload
/// itself. Rejected only when the payload cannot fit the length field.
pub fn encode_record(payload: &Vec<u8>) -> (r: Result<Vec<u8>, DatabaseError>)
    ensures
        ({
            match r {
                Ok(v) => payload@.len() <= u32::MAX && v@ == frame_of(rec_of(payload@)),
                Err(e) => e == DatabaseError::DataTooLarge && payload@.len() > u32::MAX,
            }
        }),
{
    let n = payload.len();
    if n as u64 > u32::MAX as u64 {
        return Err(DatabaseError::DataTooLarge);
    }
    let mut out: Vec<u8> = Vec::new();
    let c = crc32(payload);
    write_u32_le(&mut out, c);
    write_u32_le(&mut out, n as u32);
    push_range(&mut out, payload, 0, n);
    proof {
        assert(payload@.subrange(0, n as int) =~= payload@);
        assert(out@ =~= frame_of(rec_of(payload@)));
    }
    Ok(out)
}

} // verus!
