//! The in-memory collection engine: a mutable view over an encoded record
//! stream with deferred deletion.
//!
//! The state is the raw framed record stream, one tombstone flag per record,
//! and the live count. Mutations touch only this in-memory state; [`Collection::flush`]
//! produces the container image to persist and compacts the stream, dropping
//! tombstoned records while preserving the order of the rest.
//!
//! Reads skip tombstoned records: a record marked deleted is invisible to
//! `get` even before the next flush.

use vstd::prelude::*;
use crate::checksum::crc32_of;
use crate::container::{header, header_bytes};
use crate::error::DatabaseError;
use crate::record::{RecordView, rec_of, frame_of, stream_of, entries_from, tight,
    lemma_head, lemma_entries_append, lemma_stream_entries,
    lemma_stream_snoc, lemma_entries_len_bound, lemma_entries_payload_bound,
    lemma_record_bytes, push_range, DecodeOutcome, decode_record_at, encode_record};
use crate::storable::{Storable, dec_value};

verus! {

/// The elements of `s` whose flag in `keep` is set, in order.
pub open spec fn mask<A>(s: Seq<A>, keep: Seq<bool>) -> Seq<A>
    decreases s.len(),
{
    if s.len() == 0 || keep.len() == 0 {
        Seq::empty()
    } else {
        (if keep[0] {
            seq![s[0]]
        } else {
            Seq::empty()
        }) + mask(s.drop_first(), keep.drop_first())
    }
}

/// The flags of `ks`, each negated.
pub open spec fn negs(ks: Seq<bool>) -> Seq<bool> {
    ks.map_values(|b: bool| !b)
}

/// Extending both sequences by one element extends the selection by that
/// element exactly when its flag is set.
pub proof fn lemma_mask_snoc<A>(s: Seq<A>, keep: Seq<bool>, x: A, b: bool)
    requires
        s.len() == keep.len(),
    ensures
        mask(s.push(x), keep.push(b)) == if b {
            mask(s, keep).push(x)
        } else {
            mask(s, keep)
        },
    decreases s.len(),
{
    let s2 = s.push(x);
    let k2 = keep.push(b);
    if s.len() == 0 {
        assert(s2[0] == x && k2[0] == b);
        assert(s2.drop_first() =~= Seq::<A>::empty());
        assert(k2.drop_first() =~= Seq::<bool>::empty());
        assert(mask(s2.drop_first(), k2.drop_first()) == Seq::<A>::empty());
        if b {
            assert(mask(s2, k2) =~= mask(s, keep).push(x));
        } else {
            assert(mask(s2, k2) =~= mask(s, keep));
        }
    } else {
        assert(s2[0] == s[0] && k2[0] == keep[0]);
        assert(s2.drop_first() =~= s.drop_first().push(x));
        assert(k2.drop_first() =~= keep.drop_first().push(b));
        lemma_mask_snoc(s.drop_first(), keep.drop_first(), x, b);
        let hd = if keep[0] {
            seq![s[0]]
        } else {
            Seq::<A>::empty()
        };
        assert(mask(s2, k2) == hd + mask(s.drop_first().push(x), keep.drop_first().push(b)));
        assert(mask(s, keep) == hd + mask(s.drop_first(), keep.drop_first()));
        if b {
            assert(mask(s2, k2) =~= mask(s, keep).push(x));
        } else {
            assert(mask(s2, k2) =~= mask(s, keep));
        }
    }
}

/// A selection is never longer than the sequence it selects from.
pub proof fn lemma_mask_len<A>(s: Seq<A>, keep: Seq<bool>)
    ensures
        mask(s, keep).len() <= s.len(),
    decreases s.len(),
{
    if s.len() == 0 || keep.len() == 0 {
    } else {
        lemma_mask_len(s.drop_first(), keep.drop_first());
    }
}

/// Whatever holds of every element holds of every selected element.
pub proof fn lemma_mask_subset<A>(s: Seq<A>, keep: Seq<bool>, p: spec_fn(A) -> bool)
    requires
        forall|i: int| 0 <= i < s.len() ==> p(#[trigger] s[i]),
    ensures
        forall|j: int| 0 <= j < mask(s, keep).len() ==> p(#[trigger] mask(s, keep)[j]),
    decreases s.len(),
{
    if s.len() == 0 || keep.len() == 0 {
    } else {
        assert(forall|i: int| 0 <= i < s.drop_first().len() ==> p(#[trigger] s.drop_first()[i]))
            by {
            assert(forall|i: int|
                0 <= i < s.drop_first().len() ==> s.drop_first()[i] == s[i + 1] && p(
                    #[trigger] s[i + 1],
                ));
        }
        lemma_mask_subset(s.drop_first(), keep.drop_first(), p);
        let hd = if keep[0] {
            seq![s[0]]
        } else {
            Seq::<A>::empty()
        };
        let tl = mask(s.drop_first(), keep.drop_first());
        assert(mask(s, keep) == hd + tl);
        assert forall|j: int| 0 <= j < mask(s, keep).len() implies p(mask(s, keep)[j]) by {
            if j < hd.len() {
                assert(mask(s, keep)[j] == s[0]);
            } else {
                assert(mask(s, keep)[j] == tl[j - hd.len()]);
            }
        }
    }
}

/// Selecting with every flag set selects everything.
pub proof fn lemma_mask_all<A>(s: Seq<A>, keep: Seq<bool>)
    requires
        s.len() == keep.len(),
        forall|i: int| 0 <= i < keep.len() ==> #[trigger] keep[i],
    ensures
        mask(s, keep) == s,
    decreases s.len(),
{
    if s.len() == 0 {
        assert(mask(s, keep) =~= s);
    } else {
        assert(forall|i: int|
            0 <= i < keep.drop_first().len() ==> keep.drop_first()[i] == keep[i + 1]
                && #[trigger] keep[i + 1]);
        lemma_mask_all(s.drop_first(), keep.drop_first());
        assert(mask(s, keep) =~= s);
    }
}

/// A typed collection of stored values.
///
/// The collection owns the framed record stream it was loaded from or has
/// written, so a flush can copy retained record bytes verbatim. Its abstract
/// value is the sequence of live (not tombstoned) items in record order.
pub struct Collection<T: Storable> {
    buffer: Vec<u8>,
    tombstones: Vec<bool>,
    count: usize,
    _marker: core::marker::PhantomData<T>,
}

impl<T: Storable> View for Collection<T> {
    type V = Seq<T::V>;

    open spec fn view(&self) -> Seq<T::V> {
        self.live_records().map_values(|e: RecordView| dec_value::<T>(e.payload))
    }
}

impl<T: Storable> Collection<T> {
    /// All records framed in the buffer, tombstoned or not, in order.
    pub closed spec fn records(self) -> Seq<RecordView> {
        entries_from(self.buffer@, 0)
    }

    /// One flag per record: set exactly when the record is not tombstoned.
    pub closed spec fn keeps(self) -> Seq<bool> {
        negs(self.tombstones@)
    }

    /// The records a flush would retain, in order.
    pub open spec fn live_records(self) -> Seq<RecordView> {
        mask(self.records(), self.keeps())
    }

    /// The live records among the first `i` records.
    closed spec fn live_prefix(self, i: int) -> Seq<RecordView> {
        mask(self.records().take(i), self.keeps().take(i))
    }

    /// The decoded live items among the first `i` records.
    closed spec fn items_prefix(self, i: int) -> Seq<T::V> {
        self.live_prefix(i).map_values(|e: RecordView| dec_value::<T>(e.payload))
    }

    /// Internal consistency: the buffer is a tight record stream, every
    /// record's stored checksum is the digest of its payload, every payload
    /// decodes, there is one tombstone flag per record, and the count is the
    /// number of live items.
    pub closed spec fn wf(self) -> bool {
        &&& tight(self.buffer@, 0)
        &&& self.tombstones@.len() == self.records().len()
        &&& (forall|i: int|
            0 <= i < self.records().len() ==> (#[trigger] self.records()[i]).saved == crc32_of(
                self.records()[i].payload,
            ))
        &&& (forall|i: int|
            0 <= i < self.records().len() ==> T::dec(
                (#[trigger] self.records()[i]).payload,
            ) is Some)
        &&& self.count == self@.len()
    }

    /// The container image a flush of this collection produces.
    pub open spec fn image(self) -> Seq<u8> {
        header() + stream_of(self.live_records())
    }

    /// Where live record `k` starts in the image.
    pub open spec fn image_cut(self, k: int) -> int {
        8 + stream_of(self.live_records().take(k)).len() as int
    }

    /// What internal consistency gives of every live record: its stored
    /// checksum is its payload's digest, its payload decodes, and its
    /// payload fits the length field; and the items are the decoded live
    /// payloads.
    pub proof fn lemma_wf_records(self)
        requires
            self.wf(),
        ensures
            forall|i: int|
                0 <= i < self.live_records().len() ==> (#[trigger] self.live_records()[i]).saved
                    == crc32_of(self.live_records()[i].payload),
            forall|i: int|
                0 <= i < self.live_records().len() ==> T::dec(
                    (#[trigger] self.live_records()[i]).payload,
                ) is Some,
            forall|i: int|
                0 <= i < self.live_records().len() ==> (
                #[trigger] self.live_records()[i]).payload.len() <= u32::MAX,
            self@ == self.live_records().map_values(|e: RecordView| dec_value::<T>(e.payload)),
            self@.len() == self.live_records().len(),
    {
        lemma_entries_payload_bound(self.buffer@, 0);
        lemma_mask_subset(
            self.records(),
            self.keeps(),
            |e: RecordView| e.saved == crc32_of(e.payload),
        );
        lemma_mask_subset(self.records(), self.keeps(), |e: RecordView| T::dec(e.payload) is Some);
        lemma_mask_subset(
            self.records(),
            self.keeps(),
            |e: RecordView| e.payload.len() <= u32::MAX,
        );
    }

    /// A fresh, empty collection.
    pub fn new() -> (r: Self)
        ensures
            r.wf(),
            r@ == Seq::<T::V>::empty(),
    {
        let r = Collection {
            buffer: Vec::new(),
            tombstones: Vec::new(),
            count: 0,
            _marker: core::marker::PhantomData,
        };
        proof {
            assert(r.records() =~= Seq::<RecordView>::empty());
            assert(r@ =~= Seq::<T::V>::empty());
        }
        r
    }

    /// The number of live items.
    pub fn len(&self) -> (r: usize)
        requires
            self.wf(),
        ensures
            r == self@.len(),
    {
        self.count
    }

    /// Appends one already-encoded, decodable payload as a live record.
    pub(crate) fn push_payload(&mut self, payload: Vec<u8>)
        requires
            old(self).wf(),
            payload@.len() <= u32::MAX,
            T::dec(payload@) is Some,
        ensures
            final(self).wf(),
            final(self)@ == old(self)@.push(dec_value::<T>(payload@)),
            final(self).live_records() == old(self).live_records().push(rec_of(payload@)),
    {
        let rec = match encode_record(&payload) {
            Ok(v) => v,
            Err(_) => {
                proof {
                    assert(false);
                }
                vstd::pervasive::unreached()
            },
        };
        let n = rec.len();
        // the length call bounds the buffer by usize, so the count stays in range
        let _len: usize = self.buffer.len();
        let ghost oldbuf = self.buffer@;
        let ghost e = rec_of(payload@);
        push_range(&mut self.buffer, &rec, 0, n);
        self.tombstones.push(false);
        proof {
            assert(rec@.subrange(0, n as int) =~= rec@);
            assert(self.buffer@ == oldbuf + rec@);
            lemma_entries_append(oldbuf, rec@, 0);
            lemma_head(e, Seq::<u8>::empty());
            assert(frame_of(e) + Seq::<u8>::empty() =~= rec@);
            assert(entries_from(Seq::<u8>::empty(), 0) =~= Seq::<RecordView>::empty());
            assert(tight(Seq::<u8>::empty(), 0));
            assert(entries_from(rec@, 0) =~= seq![e]);
            assert(entries_from(self.buffer@, 0) =~= old(self).records().push(e));
            assert(self.tombstones@ =~= old(self).tombstones@.push(false));
            assert(self.keeps() =~= old(self).keeps().push(true));
            lemma_mask_snoc(old(self).records(), old(self).keeps(), e, true);
            assert(self.live_records() == old(self).live_records().push(e));
            assert(self@ =~= old(self)@.push(dec_value::<T>(payload@)));
            // the count stays in range: each record takes at least eight bytes
            lemma_mask_len(old(self).records(), old(self).keeps());
            lemma_entries_len_bound(old(self).buffer@, 0);
            assert(old(self).count < usize::MAX);
        }
        self.count = self.count + 1;
        proof {
            assert(forall|i: int|
                0 <= i < old(self).records().len() ==> self.records()[i] == (
                #[trigger] old(self).records()[i]));
        }
    }

    /// Appends one value as a new live record at the tail.
    ///
    /// Fails exactly when the value's encoding does not fit the record
    /// length field, in which case the collection is unchanged.
    pub fn insert(&mut self, item: T) -> (r: Result<(), DatabaseError>)
        requires
            old(self).wf(),
        ensures
            final(self).wf(),
            (match r {
                Ok(()) => {
                    &&& T::enc(item@).len() <= u32::MAX
                    &&& final(self)@ == old(self)@.push(item@)
                    &&& final(self).live_records() == old(self).live_records().push(
                        rec_of(T::enc(item@)),
                    )
                },
                Err(e) => {
                    &&& e == DatabaseError::DataTooLarge
                    &&& T::enc(item@).len() > u32::MAX
                    &&& *final(self) == *old(self)
                },
            }),
            T::enc(item@).len() <= u32::MAX <==> r is Ok,
    {
        let payload = item.encode();
        let n = payload.len();
        if n as u64 > u32::MAX as u64 {
            return Err(DatabaseError::DataTooLarge);
        }
        proof {
            T::lemma_enc_dec(item@);
        }
        self.push_payload(payload);
        Ok(())
    }

    /// Appends several values in order, as if inserting each in turn.
    ///
    /// All encodings are checked first, so a failure leaves the collection
    /// unchanged: it fails exactly when some value's encoding does not fit
    /// the record length field.
    #[verifier::loop_isolation(false)]
    pub fn insert_many(&mut self, items: Vec<T>) -> (r: Result<(), DatabaseError>)
        requires
            old(self).wf(),
        ensures
            final(self).wf(),
            (match r {
                Ok(()) => final(self)@ == old(self)@ + items@.map_values(|t: T| t@),
                Err(e) => {
                    &&& e == DatabaseError::DataTooLarge
                    &&& *final(self) == *old(self)
                    &&& exists|i: int|
                        0 <= i < items@.len() && T::enc((#[trigger] items@[i])@).len()
                            > u32::MAX
                },
            }),
            (forall|i: int|
                0 <= i < items@.len() ==> T::enc((#[trigger] items@[i])@).len() <= u32::MAX)
                <==> r is Ok,
    {
        let n = items.len();
        let mut payloads: Vec<Vec<u8>> = Vec::new();
        let mut i: usize = 0;
        while i < n
            invariant
                i <= n,
                payloads@.len() == i as int,
                forall|k: int|
                    0 <= k < i as int ==> (#[trigger] payloads@[k])@ == T::enc(items@[k]@),
                forall|k: int|
                    0 <= k < i as int ==> T::enc((#[trigger] items@[k])@).len() <= u32::MAX,
            decreases n - i,
        {
            let p = items[i].encode();
            if p.len() as u64 > u32::MAX as u64 {
                return Err(DatabaseError::DataTooLarge);
            }
            payloads.push(p);
            i = i + 1;
        }
        let ghost base = self@;
        let ghost full = payloads@;
        let mut j: usize = 0;
        while j < n
            invariant
                j <= n,
                payloads@ == full.skip(j as int),
                self.wf(),
                self@ == base + items@.take(j as int).map_values(|t: T| t@),
            decreases n - j,
        {
            let p = payloads.remove(0);
            proof {
                assert(p == full[j as int]);
                assert(payloads@ =~= full.skip(j as int + 1));
                T::lemma_enc_dec(items@[j as int]@);
            }
            self.push_payload(p);
            proof {
                assert(items@.take(j as int + 1) =~= items@.take(j as int).push(
                    items@[j as int],
                ));
                assert(self@ =~= base + items@.take(j as int + 1).map_values(|t: T| t@));
            }
            j = j + 1;
        }
        proof {
            assert(items@.take(n as int) =~= items@);
        }
        Ok(())
    }

    /// Reads every record's payload, in record order.
    #[verifier::loop_isolation(false)]
    fn all_payloads(&self) -> (r: Vec<Vec<u8>>)
        requires
            self.wf(),
        ensures
            r@.len() == self.records().len(),
            forall|i: int| 0 <= i < r@.len() ==> (#[trigger] r@[i])@ == self.records()[i].payload,
    {
        let mut out: Vec<Vec<u8>> = Vec::new();
        let mut off: usize = 0;
        let mut done: bool = false;
        while !done
            invariant
                off <= self.buffer@.len(),
                out@.len() <= self.records().len(),
                entries_from(self.buffer@, off as int) == self.records().skip(out@.len() as int),
                forall|i: int|
                    0 <= i < out@.len() ==> (#[trigger] out@[i])@ == self.records()[i].payload,
                done ==> out@.len() == self.records().len(),
            decreases self.buffer@.len() - off + (if done {
                0int
            } else {
                1int
            }),
        {
            let ghost k = out@.len() as int;
            match decode_record_at(&self.buffer, off) {
                DecodeOutcome::Truncated => {
                    proof {
                        assert(self.records().skip(k).len() == 0);
                    }
                    done = true;
                },
                DecodeOutcome::Valid { payload, next } => {
                    proof {
                        assert(self.records().skip(k)[0] == self.records()[k]);
                        assert(self.records().skip(k).drop_first() =~= self.records().skip(
                            k + 1,
                        ));
                    }
                    out.push(payload);
                    off = next;
                },
                DecodeOutcome::Mismatch { .. } => {
                    proof {
                        assert(self.records().skip(k)[0] == self.records()[k]);
                        assert(false);
                    }
                    vstd::pervasive::unreached()
                },
            }
        }
        out
    }

    /// Returns, in order, the live items the predicate selects.
    ///
    /// The result is exactly the live items on which the predicate's one
    /// call answered `true`: some answer sequence `keep` consistent with the
    /// predicate's contract selects the result out of the collection.
    #[verifier::loop_isolation(false)]
    pub fn get<F: Fn(&T) -> bool>(&self, pred: F) -> (r: Vec<T>)
        requires
            self.wf(),
            forall|t: T| #[trigger] call_requires(pred, (&t,)),
        ensures
            (exists|keep: Seq<bool>, ws: Seq<T>|
                {
                    &&& #[trigger] keep.len() == self@.len()
                    &&& #[trigger] ws.len() == self@.len()
                    &&& (forall|i: int| 0 <= i < ws.len() ==> (#[trigger] ws[i])@ == self@[i])
                    &&& (forall|i: int|
                        0 <= i < ws.len() ==> call_ensures(pred, (&ws[i],), #[trigger] keep[i]))
                    &&& r@.map_values(|t: T| t@) == mask(self@, keep)
                }),
            forall|j: int| 0 <= j < r@.len() ==> call_ensures(pred, (&(#[trigger] r@[j]),), true),
    {
        let ps = self.all_payloads();
        let n = ps.len();
        let mut out: Vec<T> = Vec::new();
        let ghost mut keep: Seq<bool> = Seq::empty();
        let ghost mut ws: Seq<T> = Seq::empty();
        let mut i: usize = 0;
        while i < n
            invariant
                i <= n,
                ws.len() == self.items_prefix(i as int).len(),
                keep.len() == ws.len(),
                forall|k: int|
                    0 <= k < ws.len() ==> (#[trigger] ws[k])@ == self.items_prefix(i as int)[k],
                forall|k: int|
                    0 <= k < ws.len() ==> call_ensures(pred, (&ws[k],), #[trigger] keep[k]),
                out@.map_values(|t: T| t@) == mask(self.items_prefix(i as int), keep),
                forall|j: int|
                    0 <= j < out@.len() ==> call_ensures(pred, (&(#[trigger] out@[j]),), true),
            decreases n - i,
        {
            proof {
                assert(self.records().take(i as int + 1) =~= self.records().take(i as int).push(
                    self.records()[i as int],
                ));
                assert(self.keeps().take(i as int + 1) =~= self.keeps().take(i as int).push(
                    self.keeps()[i as int],
                ));
                lemma_mask_snoc(
                    self.records().take(i as int),
                    self.keeps().take(i as int),
                    self.records()[i as int],
                    self.keeps()[i as int],
                );
            }
            if self.tombstones[i] {
                proof {
                    assert(self.live_prefix(i as int + 1) == self.live_prefix(i as int));
                    assert(self.items_prefix(i as int + 1) == self.items_prefix(i as int));
                }
            } else {
                proof {
                    assert(self.live_prefix(i as int + 1) == self.live_prefix(i as int).push(
                        self.records()[i as int],
                    ));
                    assert(self.items_prefix(i as int + 1) =~= self.items_prefix(i as int).push(
                        dec_value::<T>(self.records()[i as int].payload),
                    ));
                }
                let item = match T::decode(&ps[i]) {
                    Some(v) => v,
                    None => {
                        proof {
                            assert(false);
                        }
                        vstd::pervasive::unreached()
                    },
                };
                proof {
                    assert(item@ == dec_value::<T>(self.records()[i as int].payload));
                }
                let b = pred(&item);
                proof {
                    lemma_mask_snoc(self.items_prefix(i as int), keep, item@, b);
                    ws = ws.push(item);
                    keep = keep.push(b);
                }
                if b {
                    out.push(item);
                    proof {
                        assert(out@.map_values(|t: T| t@) =~= mask(
                            self.items_prefix(i as int + 1),
                            keep,
                        ));
                    }
                } else {
                    proof {
                        assert(out@.map_values(|t: T| t@) =~= mask(
                            self.items_prefix(i as int + 1),
                            keep,
                        ));
                    }
                }
            }
            i = i + 1;
        }
        proof {
            assert(self.records().take(n as int) =~= self.records());
            assert(self.keeps().take(n as int) =~= self.keeps());
            assert(self.items_prefix(n as int) =~= self@);
        }
        out
    }

    /// Tombstones, in place, every live item the predicate selects; the
    /// records stay in the buffer until the next flush, but are no longer
    /// visible to reads.
    ///
    /// Afterwards the collection holds exactly the live items on which the
    /// predicate's one call answered `false`.
    #[verifier::loop_isolation(false)]
    pub fn delete<F: Fn(&T) -> bool>(&mut self, pred: F)
        requires
            old(self).wf(),
            forall|t: T| #[trigger] call_requires(pred, (&t,)),
        ensures
            final(self).wf(),
            (exists|m: Seq<bool>, ws: Seq<T>|
                {
                    &&& #[trigger] m.len() == old(self)@.len()
                    &&& #[trigger] ws.len() == old(self)@.len()
                    &&& (forall|i: int|
                        0 <= i < ws.len() ==> (#[trigger] ws[i])@ == old(self)@[i])
                    &&& (forall|i: int|
                        0 <= i < ws.len() ==> call_ensures(pred, (&ws[i],), #[trigger] m[i]))
                    &&& final(self)@ == mask(old(self)@, negs(m))
                }),
    {
        let ps = self.all_payloads();
        let n = ps.len();
        let mut new_t: Vec<bool> = Vec::new();
        let mut removed: usize = 0;
        let ghost mut m: Seq<bool> = Seq::empty();
        let ghost mut ws: Seq<T> = Seq::empty();
        let mut i: usize = 0;
        while i < n
            invariant
                i <= n,
                new_t@.len() == i as int,
                m.len() == ws.len(),
                ws.len() == self.items_prefix(i as int).len(),
                forall|k: int|
                    0 <= k < ws.len() ==> (#[trigger] ws[k])@ == self.items_prefix(i as int)[k],
                forall|k: int|
                    0 <= k < ws.len() ==> call_ensures(pred, (&ws[k],), #[trigger] m[k]),
                mask(self.records().take(i as int), negs(new_t@)).map_values(
                    |e: RecordView| dec_value::<T>(e.payload),
                ) == mask(self.items_prefix(i as int), negs(m)),
                removed as int == self.items_prefix(i as int).len() - mask(
                    self.items_prefix(i as int),
                    negs(m),
                ).len(),
                removed as int <= self.items_prefix(i as int).len(),
            decreases n - i,
        {
            proof {
                assert(self.records().take(i as int + 1) =~= self.records().take(i as int).push(
                    self.records()[i as int],
                ));
                assert(self.keeps().take(i as int + 1) =~= self.keeps().take(i as int).push(
                    self.keeps()[i as int],
                ));
                lemma_mask_snoc(
                    self.records().take(i as int),
                    self.keeps().take(i as int),
                    self.records()[i as int],
                    self.keeps()[i as int],
                );
                lemma_mask_len(self.records().take(i as int), self.keeps().take(i as int));
            }
            if self.tombstones[i] {
                let ghost old_new_t = new_t@;
                new_t.push(true);
                proof {
                    assert(self.items_prefix(i as int + 1) == self.items_prefix(i as int));
                    assert(negs(new_t@) =~= negs(old_new_t).push(false));
                    lemma_mask_snoc(
                        self.records().take(i as int),
                        negs(old_new_t),
                        self.records()[i as int],
                        false,
                    );
                }
            } else {
                proof {
                    assert(self.live_prefix(i as int + 1) == self.live_prefix(i as int).push(
                        self.records()[i as int],
                    ));
                    assert(self.items_prefix(i as int + 1) =~= self.items_prefix(i as int).push(
                        dec_value::<T>(self.records()[i as int].payload),
                    ));
                }
                let item = match T::decode(&ps[i]) {
                    Some(v) => v,
                    None => {
                        proof {
                            assert(false);
                        }
                        vstd::pervasive::unreached()
                    },
                };
                proof {
                    assert(item@ == dec_value::<T>(self.records()[i as int].payload));
                }
                let b = pred(&item);
                let ghost old_new_t = new_t@;
                let ghost old_m = m;
                if b {
                    new_t.push(true);
                    removed = removed + 1;
                } else {
                    new_t.push(false);
                }
                proof {
                    m = m.push(b);
                    ws = ws.push(item);
                    assert(negs(new_t@) =~= negs(old_new_t).push(!b));
                    assert(negs(m) =~= negs(old_m).push(!b));
                    lemma_mask_snoc(
                        self.records().take(i as int),
                        negs(old_new_t),
                        self.records()[i as int],
                        !b,
                    );
                    lemma_mask_snoc(self.items_prefix(i as int), negs(old_m), item@, !b);
                    if b {
                        assert(mask(self.records().take(i as int + 1), negs(new_t@)).map_values(
                            |e: RecordView| dec_value::<T>(e.payload),
                        ) =~= mask(self.items_prefix(i as int + 1), negs(m)));
                    } else {
                        assert(mask(self.records().take(i as int + 1), negs(new_t@)).map_values(
                            |e: RecordView| dec_value::<T>(e.payload),
                        ) =~= mask(self.items_prefix(i as int + 1), negs(m)));
                    }
                }
            }
            i = i + 1;
        }
        proof {
            assert(self.records().take(n as int) =~= self.records());
            assert(self.keeps().take(n as int) =~= self.keeps());
            assert(self.items_prefix(n as int) =~= self@);
            lemma_mask_len(self@, negs(m));
        }
        self.tombstones = new_t;
        self.count = self.count - removed;
        proof {
            assert(final(self)@ =~= mask(old(self)@, negs(m)));
        }
    }

    /// Replaces, in place, every live item the predicate selects by the
    /// transform of that item: the old records are tombstoned and one new
    /// record per transformed item is appended at the tail, in match order.
    /// Items the predicate does not select keep their relative order.
    ///
    /// Fails, leaving the collection unchanged, only when some transformed
    /// item's encoding does not fit the record length field; success is owed
    /// whenever every value the transform can return encodes within it.
    #[verifier::loop_isolation(false)]
    pub fn update<F: Fn(&T) -> bool, G: Fn(T) -> T>(&mut self, pred: F, f: G) -> (r: Result<
        (),
        DatabaseError,
    >)
        requires
            old(self).wf(),
            forall|t: T| #[trigger] call_requires(pred, (&t,)),
            forall|t: T| #[trigger] call_requires(f, (t,)),
        ensures
            final(self).wf(),
            (match r {
                Ok(()) => (exists|m: Seq<bool>, ws: Seq<T>, out: Seq<T>|
                    {
                        &&& #[trigger] m.len() == old(self)@.len()
                        &&& #[trigger] ws.len() == old(self)@.len()
                        &&& (forall|i: int|
                            0 <= i < ws.len() ==> (#[trigger] ws[i])@ == old(self)@[i])
                        &&& (forall|i: int|
                            0 <= i < ws.len() ==> call_ensures(pred, (&ws[i],), #[trigger] m[i]))
                        &&& #[trigger] out.len() == mask(ws, m).len()
                        &&& (forall|j: int|
                            0 <= j < out.len() ==> call_ensures(
                                f,
                                (mask(ws, m)[j],),
                                #[trigger] out[j],
                            ))
                        &&& final(self)@ == mask(old(self)@, negs(m)) + out.map_values(
                            |t: T| t@,
                        )
                    }),
                Err(e) => {
                    &&& e == DatabaseError::DataTooLarge
                    &&& *final(self) == *old(self)
                },
            }),
            (forall|t: T, u: T| #[trigger] call_ensures(f, (t,), u) ==> T::enc(u@).len()
                <= u32::MAX) ==> r is Ok,
    {
        let ps = self.all_payloads();
        let n = ps.len();
        let mut new_t: Vec<bool> = Vec::new();
        let mut pending: Vec<T> = Vec::new();
        let mut removed: usize = 0;
        let ghost mut m: Seq<bool> = Seq::empty();
        let ghost mut ws: Seq<T> = Seq::empty();
        let mut i: usize = 0;
        while i < n
            invariant
                i <= n,
                new_t@.len() == i as int,
                m.len() == ws.len(),
                ws.len() == self.items_prefix(i as int).len(),
                forall|k: int|
                    0 <= k < ws.len() ==> (#[trigger] ws[k])@ == self.items_prefix(i as int)[k],
                forall|k: int|
                    0 <= k < ws.len() ==> call_ensures(pred, (&ws[k],), #[trigger] m[k]),
                mask(self.records().take(i as int), negs(new_t@)).map_values(
                    |e: RecordView| dec_value::<T>(e.payload),
                ) == mask(self.items_prefix(i as int), negs(m)),
                removed as int == self.items_prefix(i as int).len() - mask(
                    self.items_prefix(i as int),
                    negs(m),
                ).len(),
                removed as int <= self.items_prefix(i as int).len(),
                pending@.len() == mask(ws, m).len(),
                forall|j: int|
                    0 <= j < pending@.len() ==> call_ensures(
                        f,
                        (mask(ws, m)[j],),
                        #[trigger] pending@[j],
                    ),
                forall|j: int|
                    0 <= j < pending@.len() ==> T::enc((#[trigger] pending@[j])@).len()
                        <= u32::MAX,
            decreases n - i,
        {
            proof {
                assert(self.records().take(i as int + 1) =~= self.records().take(i as int).push(
                    self.records()[i as int],
                ));
                assert(self.keeps().take(i as int + 1) =~= self.keeps().take(i as int).push(
                    self.keeps()[i as int],
                ));
                lemma_mask_snoc(
                    self.records().take(i as int),
                    self.keeps().take(i as int),
                    self.records()[i as int],
                    self.keeps()[i as int],
                );
                lemma_mask_len(self.records().take(i as int), self.keeps().take(i as int));
            }
            if self.tombstones[i] {
                let ghost old_new_t = new_t@;
                new_t.push(true);
                proof {
                    assert(self.items_prefix(i as int + 1) == self.items_prefix(i as int));
                    assert(negs(new_t@) =~= negs(old_new_t).push(false));
                    lemma_mask_snoc(
                        self.records().take(i as int),
                        negs(old_new_t),
                        self.records()[i as int],
                        false,
                    );
                }
            } else {
                proof {
                    assert(self.live_prefix(i as int + 1) == self.live_prefix(i as int).push(
                        self.records()[i as int],
                    ));
                    assert(self.items_prefix(i as int + 1) =~= self.items_prefix(i as int).push(
                        dec_value::<T>(self.records()[i as int].payload),
                    ));
                }
                let item = match T::decode(&ps[i]) {
                    Some(v) => v,
                    None => {
                        proof {
                            assert(false);
                        }
                        vstd::pervasive::unreached()
                    },
                };
                proof {
                    assert(item@ == dec_value::<T>(self.records()[i as int].payload));
                }
                let b = pred(&item);
                let ghost old_new_t = new_t@;
                let ghost old_m = m;
                let ghost old_ws = ws;
                proof {
                    lemma_mask_snoc(old_ws, old_m, item, b);
                    lemma_mask_snoc(
                        self.records().take(i as int),
                        negs(old_new_t),
                        self.records()[i as int],
                        !b,
                    );
                    lemma_mask_snoc(self.items_prefix(i as int), negs(old_m), item@, !b);
                    m = m.push(b);
                    ws = ws.push(item);
                    assert(negs(m) =~= negs(old_m).push(!b));
                }
                if b {
                    let nu = f(item);
                    let e = nu.encode();
                    if e.len() as u64 > u32::MAX as u64 {
                        return Err(DatabaseError::DataTooLarge);
                    }
                    pending.push(nu);
                    new_t.push(true);
                    removed = removed + 1;
                    proof {
                        assert(negs(new_t@) =~= negs(old_new_t).push(false));
                        assert(mask(self.records().take(i as int + 1), negs(new_t@)).map_values(
                            |e: RecordView| dec_value::<T>(e.payload),
                        ) =~= mask(self.items_prefix(i as int + 1), negs(m)));
                    }
                } else {
                    new_t.push(false);
                    proof {
                        assert(negs(new_t@) =~= negs(old_new_t).push(true));
                        assert(mask(self.records().take(i as int + 1), negs(new_t@)).map_values(
                            |e: RecordView| dec_value::<T>(e.payload),
                        ) =~= mask(self.items_prefix(i as int + 1), negs(m)));
                    }
                }
            }
            i = i + 1;
        }
        proof {
            assert(self.records().take(n as int) =~= self.records());
            assert(self.keeps().take(n as int) =~= self.keeps());
            assert(self.items_prefix(n as int) =~= self@);
            lemma_mask_len(self@, negs(m));
        }
        self.tombstones = new_t;
        self.count = self.count - removed;
        proof {
            assert(self@ =~= mask(old(self)@, negs(m)));
            assert(self.wf());
        }
        let ghost pend0 = pending@;
        let ghost base = self@;
        let pn = pending.len();
        let mut j: usize = 0;
        while j < pn
            invariant
                j <= pn,
                pn == pend0.len(),
                pending@ == pend0.skip(j as int),
                self.wf(),
                self@ == base + pend0.take(j as int).map_values(|t: T| t@),
            decreases pn - j,
        {
            let nu = pending.remove(0);
            proof {
                assert(nu == pend0[j as int]);
                assert(pending@ =~= pend0.skip(j as int + 1));
                assert(T::enc(nu@).len() <= u32::MAX);
            }
            let res = self.insert(nu);
            match res {
                Ok(()) => {},
                Err(_) => {
                    proof {
                        assert(false);
                    }
                    vstd::pervasive::unreached()
                },
            }
            proof {
                assert(pend0.take(j as int + 1) =~= pend0.take(j as int).push(pend0[j as int]));
                assert(self@ =~= base + pend0.take(j as int + 1).map_values(|t: T| t@));
            }
            j = j + 1;
        }
        proof {
            assert(pend0.take(pn as int) =~= pend0);
        }
        Ok(())
    }

    /// Produces the container image of the live records and compacts the
    /// collection in place: retained record bytes are copied verbatim, in
    /// order, and tombstoned records are dropped for good.
    ///
    /// The live items are unchanged, and so is the image a further flush
    /// would produce: flushing twice with no mutation in between gives
    /// byte-identical results.
    #[verifier::loop_isolation(false)]
    pub fn flush(&mut self) -> (r: Vec<u8>)
        requires
            old(self).wf(),
        ensures
            final(self).wf(),
            r@ == old(self).image(),
            final(self)@ == old(self)@,
            final(self).live_records() == old(self).live_records(),
            final(self).image() == old(self).image(),
            final(self).records() == old(self).live_records(),
    {
        let mut new_buf: Vec<u8> = Vec::new();
        let mut new_t: Vec<bool> = Vec::new();
        let nrec = self.tombstones.len();
        let mut off: usize = 0;
        let mut i: usize = 0;
        let mut done: bool = false;
        while !done
            invariant
                i as int <= self.records().len(),
                off <= self.buffer@.len(),
                entries_from(self.buffer@, off as int) == self.records().skip(i as int),
                new_buf@ == stream_of(self.live_prefix(i as int)),
                new_t@.len() == self.live_prefix(i as int).len(),
                forall|k: int| 0 <= k < new_t@.len() ==> !(#[trigger] new_t@[k]),
                done ==> i as int == self.records().len(),
            decreases self.buffer@.len() - off + (if done {
                0int
            } else {
                1int
            }),
        {
            match decode_record_at(&self.buffer, off) {
                DecodeOutcome::Truncated => {
                    proof {
                        assert(self.records().skip(i as int).len() == 0);
                    }
                    done = true;
                },
                DecodeOutcome::Valid { payload, next } => {
                    proof {
                        assert(self.records().skip(i as int)[0] == self.records()[i as int]);
                        assert(self.records().skip(i as int).drop_first()
                            =~= self.records().skip(i as int + 1));
                        assert(self.records().take(i as int + 1) =~= self.records().take(
                            i as int,
                        ).push(self.records()[i as int]));
                        assert(self.keeps().take(i as int + 1) =~= self.keeps().take(
                            i as int,
                        ).push(self.keeps()[i as int]));
                        lemma_mask_snoc(
                            self.records().take(i as int),
                            self.keeps().take(i as int),
                            self.records()[i as int],
                            self.keeps()[i as int],
                        );
                    }
                    if self.tombstones[i] {
                        proof {
                            assert(self.live_prefix(i as int + 1) == self.live_prefix(i as int));
                        }
                    } else {
                        push_range(&mut new_buf, &self.buffer, off, next);
                        new_t.push(false);
                        proof {
                            lemma_record_bytes(self.buffer@, off as int);
                            lemma_stream_snoc(
                                self.live_prefix(i as int),
                                self.records()[i as int],
                            );
                            assert(self.live_prefix(i as int + 1) == self.live_prefix(
                                i as int,
                            ).push(self.records()[i as int]));
                            assert(new_buf@ =~= stream_of(self.live_prefix(i as int + 1)));
                        }
                    }
                    proof {
                        assert(i < nrec);
                    }
                    i = i + 1;
                    off = next;
                },
                DecodeOutcome::Mismatch { .. } => {
                    proof {
                        assert(self.records().skip(i as int)[0] == self.records()[i as int]);
                        assert(false);
                    }
                    vstd::pervasive::unreached()
                },
            }
        }
        proof {
            assert(self.records().take(self.records().len() as int) =~= self.records());
            assert(self.keeps().take(self.records().len() as int) =~= self.keeps());
            assert(new_buf@ == stream_of(old(self).live_records()));
        }
        let mut out = header_bytes();
        let nb = new_buf.len();
        push_range(&mut out, &new_buf, 0, nb);
        proof {
            assert(new_buf@.subrange(0, nb as int) =~= new_buf@);
            assert(out@ =~= old(self).image());
        }
        self.buffer = new_buf;
        self.tombstones = new_t;
        proof {
            let lr = old(self).live_records();
            lemma_entries_payload_bound(old(self).buffer@, 0);
            lemma_mask_subset(
                old(self).records(),
                old(self).keeps(),
                |e: RecordView| e.payload.len() <= u32::MAX,
            );
            lemma_stream_entries(lr);
            assert(self.records() == lr);
            assert(forall|k: int| 0 <= k < self.keeps().len() ==> #[trigger] self.keeps()[k]);
            lemma_mask_all(lr, self.keeps());
            assert(self.live_records() == lr);
            lemma_mask_subset(
                old(self).records(),
                old(self).keeps(),
                |e: RecordView| e.saved == crc32_of(e.payload),
            );
            lemma_mask_subset(
                old(self).records(),
                old(self).keeps(),
                |e: RecordView| T::dec(e.payload) is Some,
            );
            assert(self@ == old(self)@);
            assert(self.wf());
        }
        out
    }
}

} // verus!
