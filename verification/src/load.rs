//! The load pipeline: decoding a whole container image into a collection,
//! tolerating a truncated tail and recovering from payload corruption.

use vstd::prelude::*;
use crate::checksum::crc32_of;
use crate::collection::Collection;
use crate::container::{MAGIC, FORMAT_VERSION, check_header};
use crate::error::DatabaseError;
use crate::record::{RecordView, entries_from, lemma_entries_payload_bound, DecodeOutcome,
    decode_record_at};
use crate::storable::{Storable, dec_value};
use crate::wire::u32_of_le;

verus! {

/// Whether some record's stored checksum disagrees with its payload's digest.
pub open spec fn has_mismatch(es: Seq<RecordView>) -> bool {
    exists|i: int| 0 <= i < es.len() && (#[trigger] es[i]).saved != crc32_of(es[i].payload)
}

/// The index of the last record whose stored checksum disagrees with its
/// payload's digest, or a negative value when there is none.
pub open spec fn last_mismatch(es: Seq<RecordView>) -> int
    decreases es.len(),
{
    if es.len() == 0 {
        -1
    } else if es.last().saved != crc32_of(es.last().payload) {
        es.len() - 1
    } else {
        last_mismatch(es.drop_last())
    }
}

/// When record `i` mismatches and every later record agrees, `i` is the
/// last mismatch.
pub proof fn lemma_last_mismatch_at(es: Seq<RecordView>, i: int)
    requires
        0 <= i < es.len(),
        es[i].saved != crc32_of(es[i].payload),
        forall|x: int| i < x < es.len() ==> (#[trigger] es[x]).saved == crc32_of(es[x].payload),
    ensures
        last_mismatch(es) == i,
    decreases es.len(),
{
    if i == es.len() - 1 {
        assert(es.last() == es[i]);
    } else {
        assert(es.last() == es[es.len() - 1]);
        assert(es.last().saved == crc32_of(es.last().payload));
        let d = es.drop_last();
        assert(d[i] == es[i]);
        assert(forall|x: int|
            i < x < d.len() ==> d[x] == es[x] && (#[trigger] es[x]).saved == crc32_of(
                es[x].payload,
            ));
        lemma_last_mismatch_at(d, i);
    }
}

/// Whether every record's payload decodes into a value.
pub open spec fn all_decode<T: Storable>(es: Seq<RecordView>) -> bool {
    forall|i: int| 0 <= i < es.len() ==> T::dec((#[trigger] es[i]).payload) is Some
}

/// The decoded values of a record sequence, in order.
pub open spec fn decoded_items<T: Storable>(es: Seq<RecordView>) -> Seq<T::V> {
    es.map_values(|e: RecordView| dec_value::<T>(e.payload))
}

/// What loading a byte image yields, as a mathematical function of the
/// bytes: either a distinguished rejection, or the decoded items, poisoned
/// when some checksum disagreed. Of several mismatches, the diagnostic pair
/// kept is the last one seen.
pub enum LoadModel<V> {
    /// The image is empty: there is no container at all.
    NoData,
    /// The image does not begin with the magic number.
    BadMagic,
    /// The magic number matches but the version does not.
    UnsupportedVersion { found: u32 },
    /// Some payload does not decode into a value of the requested type.
    DecodeFailure,
    /// Every record was whole and every checksum agreed.
    Clean { items: Seq<V> },
    /// At least one checksum disagreed; the items are still all decoded,
    /// best-effort, and the last disagreeing record's stored and recomputed
    /// digests are reported.
    Poisoned { items: Seq<V>, saved: u32, expected: u32 },
}

/// The meaning of a container image for value type `T`.
pub open spec fn load_model<T: Storable>(b: Seq<u8>) -> LoadModel<T::V> {
    if b.len() == 0 {
        LoadModel::NoData
    } else if b.len() < 8 || u32_of_le(b.subrange(0, 4)) != MAGIC {
        LoadModel::BadMagic
    } else if u32_of_le(b.subrange(4, 8)) != FORMAT_VERSION {
        LoadModel::UnsupportedVersion { found: u32_of_le(b.subrange(4, 8)) }
    } else {
        let es = entries_from(b, 8);
        if !all_decode::<T>(es) {
            LoadModel::DecodeFailure
        } else if !has_mismatch(es) {
            LoadModel::Clean { items: decoded_items::<T>(es) }
        } else {
            LoadModel::Poisoned {
                items: decoded_items::<T>(es),
                saved: es[last_mismatch(es)].saved,
                expected: crc32_of(es[last_mismatch(es)].payload),
            }
        }
    }
}

/// A recovered-but-corrupted load result: the whole best-effort collection,
/// together with the stored and recomputed checksums of the last record
/// whose digest disagreed.
///
/// The recovered data is never discarded silently: it can be taken out,
/// borrowed, or dropped, but only explicitly.
pub struct DataPoisonError<T: Storable> {
    collection: Collection<T>,
    saved: u32,
    expected: u32,
}

impl<T: Storable> View for DataPoisonError<T> {
    type V = Seq<T::V>;

    closed spec fn view(&self) -> Seq<T::V> {
        self.collection@
    }
}

impl<T: Storable> DataPoisonError<T> {
    /// The wrapped collection is internally consistent.
    pub closed spec fn wf(self) -> bool {
        self.collection.wf()
    }

    /// The checksum stored in the last disagreeing record.
    pub closed spec fn saved_checksum(self) -> u32 {
        self.saved
    }

    /// The digest recomputed over that record's payload.
    pub closed spec fn expected_checksum(self) -> u32 {
        self.expected
    }

    /// Consumes the wrapper and hands out the recovered collection.
    pub fn into_inner(self) -> (r: Collection<T>)
        ensures
            r@ == self@,
            self.wf() ==> r.wf(),
    {
        self.collection
    }

    /// Borrows the recovered collection.
    pub fn inner(&self) -> (r: &Collection<T>)
        ensures
            r@ == self@,
            self.wf() ==> r.wf(),
    {
        &self.collection
    }

    /// The diagnostic pair: the stored checksum, then the recomputed digest.
    pub fn checksums(&self) -> (r: (u32, u32))
        ensures
            r.0 == self.saved_checksum(),
            r.1 == self.expected_checksum(),
    {
        (self.saved, self.expected)
    }
}

/// What a successful load hands back.
pub enum Loaded<T: Storable> {
    /// The image was empty: no container has been written yet.
    Empty,
    /// Every record was whole and every checksum agreed.
    Clean(Collection<T>),
    /// Some checksum disagreed: the best-effort collection and the
    /// diagnostics travel together.
    Poisoned(DataPoisonError<T>),
}

/// Decodes a whole container image.
///
/// An empty image is no data; a bad header is rejected before any record is
/// read; a truncated trailing record ends the stream cleanly; a checksum
/// mismatch poisons the result but never discards it; a payload that does
/// not decode aborts the load. The result is exactly [`load_model`] of the
/// bytes.
#[verifier::loop_isolation(false)]
pub fn load<T: Storable>(bytes: &Vec<u8>) -> (r: Result<Loaded<T>, DatabaseError>)
    ensures
        (match r {
            Ok(Loaded::Empty) => load_model::<T>(bytes@) == LoadModel::<T::V>::NoData,
            Ok(Loaded::Clean(c)) => c.wf() && load_model::<T>(bytes@) == (LoadModel::Clean {
                items: c@,
            }),
            Ok(Loaded::Poisoned(p)) => p.wf() && load_model::<T>(bytes@) == (
            LoadModel::Poisoned {
                items: p@,
                saved: p.saved_checksum(),
                expected: p.expected_checksum(),
            }),
            Err(DatabaseError::BadMagic) => load_model::<T>(bytes@)
                == LoadModel::<T::V>::BadMagic,
            Err(DatabaseError::UnsupportedVersion { found }) => load_model::<T>(bytes@) == (
            LoadModel::<T::V>::UnsupportedVersion { found }),
            Err(DatabaseError::DecodeError) => load_model::<T>(bytes@)
                == LoadModel::<T::V>::DecodeFailure,
            Err(DatabaseError::DataTooLarge) => false,
        }),
{
    if bytes.len() == 0 {
        return Ok(Loaded::Empty);
    }
    match check_header(bytes) {
        Ok(()) => {},
        Err(e) => {
            return Err(e);
        },
    }
    let ghost es = entries_from(bytes@, 8);
    proof {
        lemma_entries_payload_bound(bytes@, 8);
    }
    let mut c: Collection<T> = Collection::new();
    let mut off: usize = 8;
    let mut poisoned: bool = false;
    let mut saved_cs: u32 = 0;
    let mut expected_cs: u32 = 0;
    let mut done: bool = false;
    while !done
        invariant
            8 <= off <= bytes@.len(),
            c.wf(),
            c@.len() <= es.len(),
            entries_from(bytes@, off as int) == es.skip(c@.len() as int),
            c@ == decoded_items::<T>(es.take(c@.len() as int)),
            forall|j: int| 0 <= j < c@.len() ==> T::dec((#[trigger] es[j]).payload) is Some,
            poisoned == has_mismatch(es.take(c@.len() as int)),
            poisoned ==> {
                let lm = last_mismatch(es.take(c@.len() as int));
                &&& 0 <= lm < c@.len()
                &&& es[lm] == es.take(c@.len() as int)[lm]
                &&& saved_cs == es[lm].saved
                &&& expected_cs == crc32_of(es[lm].payload)
            },
            done ==> c@.len() == es.len(),
        decreases bytes@.len() - off + (if done {
            0int
        } else {
            1int
        }),
    {
        let ghost k = c@.len() as int;
        match decode_record_at(bytes, off) {
            DecodeOutcome::Truncated => {
                proof {
                    assert(es.skip(k).len() == 0);
                }
                done = true;
            },
            DecodeOutcome::Valid { payload, next } => {
                proof {
                    assert(es.skip(k)[0] == es[k]);
                    assert(es.skip(k).drop_first() =~= es.skip(k + 1));
                }
                match T::decode(&payload) {
                    Some(_v) => {},
                    None => {
                        proof {
                            assert(!all_decode::<T>(es));
                        }
                        return Err(DatabaseError::DecodeError);
                    },
                }
                proof {
                    let t2 = es.take(k + 1);
                    assert(t2 =~= es.take(k).push(es[k]));
                    assert(t2.last() == es[k]);
                    assert(t2.drop_last() =~= es.take(k));
                    assert(decoded_items::<T>(t2) =~= decoded_items::<T>(es.take(k)).push(
                        dec_value::<T>(es[k].payload),
                    ));
                    assert(has_mismatch(t2) == has_mismatch(es.take(k))) by {
                        if has_mismatch(es.take(k)) {
                            let i = choose|i: int|
                                0 <= i < es.take(k).len() && (#[trigger] es.take(k)[i]).saved
                                    != crc32_of(es.take(k)[i].payload);
                            assert(t2[i] == es.take(k)[i]);
                            assert(t2[i].saved != crc32_of(t2[i].payload));
                        }
                        if has_mismatch(t2) {
                            let i = choose|i: int|
                                0 <= i < t2.len() && (#[trigger] t2[i]).saved != crc32_of(
                                    t2[i].payload,
                                );
                            if i < k {
                                assert(es.take(k)[i] == t2[i]);
                                assert(es.take(k)[i].saved != crc32_of(es.take(k)[i].payload));
                            }
                        }
                    }
                    if poisoned {
                        assert(last_mismatch(t2) == last_mismatch(es.take(k)));
                    }
                }
                c.push_payload(payload);
                off = next;
            },
            DecodeOutcome::Mismatch { saved, expected, payload, next } => {
                proof {
                    assert(es.skip(k)[0] == es[k]);
                    assert(es.skip(k).drop_first() =~= es.skip(k + 1));
                }
                match T::decode(&payload) {
                    Some(_v) => {},
                    None => {
                        proof {
                            assert(!all_decode::<T>(es));
                        }
                        return Err(DatabaseError::DecodeError);
                    },
                }
                proof {
                    let t2 = es.take(k + 1);
                    assert(t2 =~= es.take(k).push(es[k]));
                    assert(t2.last() == es[k]);
                    assert(t2.drop_last() =~= es.take(k));
                    assert(decoded_items::<T>(t2) =~= decoded_items::<T>(es.take(k)).push(
                        dec_value::<T>(es[k].payload),
                    ));
                    assert(t2[k] == es[k]);
                    assert(has_mismatch(t2));
                    assert(last_mismatch(t2) == k);
                }
                c.push_payload(payload);
                poisoned = true;
                saved_cs = saved;
                expected_cs = expected;
                off = next;
            },
        }
    }
    proof {
        assert(es.take(c@.len() as int) =~= es);
        assert(all_decode::<T>(es));
    }
    if poisoned {
        Ok(
            Loaded::Poisoned(
                DataPoisonError { collection: c, saved: saved_cs, expected: expected_cs },
            ),
        )
    } else {
        Ok(Loaded::Clean(c))
    }
}

} // verus!
