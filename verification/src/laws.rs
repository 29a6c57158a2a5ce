//! The laws relating the engine's operations across a flush/load boundary.

use vstd::prelude::*;
use crate::checksum::crc32_of;
use crate::collection::Collection;
use crate::container::{header, lemma_header};
use crate::load::{LoadModel, load_model, decoded_items, has_mismatch, last_mismatch, all_decode,
    lemma_last_mismatch_at};
use crate::record::{RecordView, frame_of, stream_of, entries_from, lemma_stream_entries,
    lemma_stream_append, lemma_stream_truncated};
use crate::storable::{Storable, dec_value};
use crate::wire::le32;

verus! {

/// Round trip: loading the image a flush of `c` produces yields a clean
/// result with exactly the items of `c`, in order. In particular, a
/// collection built by inserting a sequence of values, flushed and loaded
/// on a fresh container, reproduces those values in insertion order.
pub proof fn lemma_load_of_image<T: Storable>(c: Collection<T>)
    requires
        c.wf(),
    ensures
        load_model::<T>(c.image()) == (LoadModel::Clean { items: c@ }),
{
    let lr = c.live_records();
    let b = c.image();
    c.lemma_wf_records();
    lemma_header(stream_of(lr));
    lemma_stream_entries(lr);
    assert(entries_from(b, 8) == lr);
    assert(all_decode::<T>(lr));
    assert(!has_mismatch(lr));
    assert(decoded_items::<T>(lr) =~= c@);
}

/// Truncation tolerance: cutting the image strictly inside live record `k`
/// makes the load see exactly the earlier records, cleanly: the cut tail is
/// the stream's natural end, not an error.
pub proof fn lemma_truncation_tolerance<T: Storable>(c: Collection<T>, k: int, n: int)
    requires
        c.wf(),
        0 <= k < c@.len(),
        c.image_cut(k) < n < c.image_cut(k + 1),
    ensures
        load_model::<T>(c.image().take(n)) == (LoadModel::Clean { items: c@.take(k) }),
{
    let lr = c.live_records();
    let b = c.image();
    c.lemma_wf_records();
    let t = stream_of(lr).take(n - 8);
    lemma_header(t);
    assert(stream_of(lr.take(k + 1)).len() <= stream_of(lr).len()) by {
        lemma_stream_append(lr.take(k + 1), lr.skip(k + 1));
        assert(lr.take(k + 1) + lr.skip(k + 1) =~= lr);
    }
    assert(n - 8 <= stream_of(lr).len());
    assert(b.take(n) =~= header() + t);
    lemma_stream_truncated(lr, k, n - 8);
    assert(entries_from(b.take(n), 8) == lr.take(k));
    assert(all_decode::<T>(lr.take(k)));
    assert(!has_mismatch(lr.take(k)));
    assert(decoded_items::<T>(lr.take(k)) =~= c@.take(k));
}

/// Corruption isolation: altering one payload byte inside live record `i`
/// of the image leaves every other record intact. As long as the altered
/// payload's digest no longer equals the stored checksum, and the altered
/// payload still decodes, the load is poisoned rather than failed: every
/// item is recovered — record `i` best-effort, from the altered bytes — and
/// the diagnostics are record `i`'s stored checksum and recomputed digest.
pub proof fn lemma_corruption_isolation<T: Storable>(c: Collection<T>, i: int, j: int, v: u8)
    requires
        c.wf(),
        0 <= i < c@.len(),
        0 <= j < c.live_records()[i].payload.len(),
    ensures
        ({
            let e = c.live_records()[i];
            let p2 = e.payload.update(j, v);
            let b2 = c.image().update(c.image_cut(i) + 8 + j, v);
            (crc32_of(p2) != e.saved && T::dec(p2) is Some) ==> load_model::<T>(b2) == (
            LoadModel::Poisoned {
                items: c@.update(i, dec_value::<T>(p2)),
                saved: e.saved,
                expected: crc32_of(p2),
            })
        }),
{
    let lr = c.live_records();
    let e = lr[i];
    let p = e.payload;
    let p2 = p.update(j, v);
    let e2 = RecordView { saved: e.saved, payload: p2 };
    let lr2 = lr.update(i, e2);
    let pos = c.image_cut(i) + 8 + j;
    let b = c.image();
    let b2 = b.update(pos, v);
    c.lemma_wf_records();
    if crc32_of(p2) != e.saved && T::dec(p2) is Some {
        let pre = lr.take(i);
        let suf = lr.skip(i + 1);
        let w = stream_of(pre).len() as int;
        assert(lr =~= pre + (seq![e] + suf));
        lemma_stream_append(pre, seq![e] + suf);
        assert((seq![e] + suf).drop_first() =~= suf);
        assert((seq![e] + suf)[0] == e);
        assert(stream_of(lr) == stream_of(pre) + (frame_of(e) + stream_of(suf)));
        assert(lr2 =~= pre + (seq![e2] + suf));
        lemma_stream_append(pre, seq![e2] + suf);
        assert((seq![e2] + suf).drop_first() =~= suf);
        assert((seq![e2] + suf)[0] == e2);
        assert(stream_of(lr2) == stream_of(pre) + (frame_of(e2) + stream_of(suf)));
        assert(p2.len() == p.len());
        assert(le32(e.saved).len() == 4 && le32(p.len() as u32).len() == 4);
        assert(frame_of(e).len() == 8 + p.len());
        assert(frame_of(e2).len() == 8 + p.len());
        assert(frame_of(e2) =~= frame_of(e).update(8 + j, v));
        assert(pos == 8 + w + 8 + j);
        assert(b2 =~= header() + stream_of(lr2));
        lemma_header(stream_of(lr2));
        assert(entries_from(b2, 8) == entries_from(stream_of(lr2), 0));
        assert(forall|x: int|
            0 <= x < lr2.len() && x != i ==> #[trigger] lr2[x] == lr[x]);
        assert(forall|x: int|
            0 <= x < lr2.len() ==> (#[trigger] lr2[x]).payload.len() <= u32::MAX);
        lemma_stream_entries(lr2);
        assert(entries_from(b2, 8) == lr2);
        assert(all_decode::<T>(lr2));
        assert(lr2[i].saved != crc32_of(lr2[i].payload));
        assert(forall|x: int|
            i < x < lr2.len() ==> (#[trigger] lr2[x]).saved == crc32_of(lr2[x].payload));
        lemma_last_mismatch_at(lr2, i);
        assert(has_mismatch(lr2));
        assert(decoded_items::<T>(lr2) =~= c@.update(i, dec_value::<T>(p2)));
    }
}

} // verus!
