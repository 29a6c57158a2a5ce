//! The serializable capability a stored value type must provide: an encoder
//! to payload bytes and a matching decoder, related by a round-trip law.

use vstd::prelude::*;
use vstd::pervasive::arbitrary;

verus! {

/// A value type that can be stored as a record payload.
///
/// `enc` and `dec` are the mathematical model of the codec: `enc` gives the
/// canonical payload of a value's abstract view, `dec` says which view, if
/// any, a payload stands for, and decoding a canonical encoding must give
/// back the encoded view. The executable `encode` and `decode` must agree
/// with that model exactly.
pub trait Storable: View + Sized {
    /// The canonical payload bytes of a view.
    spec fn enc(v: Self::V) -> Seq<u8>;

    /// The view, if any, that payload bytes stand for.
    spec fn dec(bytes: Seq<u8>) -> Option<Self::V>;

    /// Decoding a canonical encoding gives back the encoded view.
    proof fn lemma_enc_dec(v: Self::V)
        ensures
            Self::dec(Self::enc(v)) == Some(v),
    ;

    /// Encodes this value as payload bytes.
    fn encode(&self) -> (r: Vec<u8>)
        ensures
            r@ == Self::enc(self@),
    ;

    /// Decodes payload bytes, failing exactly when the model does.
    fn decode(bytes: &Vec<u8>) -> (r: Option<Self>)
        ensures
            (match r {
                Some(v) => Self::dec(bytes@) == Some(v@),
                None => Self::dec(bytes@) is None,
            }),
    ;
}

/// The view a decodable payload stands for.
pub open spec fn dec_value<T: Storable>(p: Seq<u8>) -> T::V {
    match T::dec(p) {
        Some(v) => v,
        None => arbitrary(),
    }
}

} // verus!
