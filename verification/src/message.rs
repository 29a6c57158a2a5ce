//! A ready-made storable value: a numeric identifier with a byte text.
//!
//! Its payload layout is the identifier as eight little-endian bytes followed
//! by the text verbatim; any payload of at least eight bytes decodes.

use vstd::prelude::*;
use crate::wire::{le32, u32_of_le, lemma_le32_roundtrip, write_u32_le, read_u32_le};
use crate::record::push_range;
use crate::storable::Storable;

verus! {

/// A stored value: an identifier and its text bytes.
#[derive(Debug, Clone, PartialEq, Eq)]
pub struct Message {
    pub id: u64,
    pub text: Vec<u8>,
}

/// The abstract view of a [`Message`].
#[verifier::ext_equal]
pub struct MessageView {
    pub id: u64,
    pub text: Seq<u8>,
}

impl View for Message {
    type V = MessageView;

    open spec fn view(&self) -> MessageView {
        MessageView { id: self.id, text: self.text@ }
    }
}

impl Storable for Message {
    open spec fn enc(v: MessageView) -> Seq<u8> {
        le32((v.id & 0xffff_ffff) as u32) + le32((v.id >> 32) as u32) + v.text
    }

    open spec fn dec(bytes: Seq<u8>) -> Option<MessageView> {
        if bytes.len() < 8 {
            None
        } else {
            Some(
                MessageView {
                    id: (u32_of_le(bytes.subrange(0, 4)) as u64) | ((u32_of_le(
                        bytes.subrange(4, 8),
                    ) as u64) << 32),
                    text: bytes.skip(8),
                },
            )
        }
    }

    proof fn lemma_enc_dec(v: MessageView) {
        let e = Self::enc(v);
        let lo = (v.id & 0xffff_ffff) as u32;
        let hi = (v.id >> 32) as u32;
        lemma_le32_roundtrip(lo);
        lemma_le32_roundtrip(hi);
        assert(e.subrange(0, 4) =~= le32(lo));
        assert(e.subrange(4, 8) =~= le32(hi));
        assert(e.skip(8) =~= v.text);
        let x = v.id;
        assert((((x & 0xffff_ffff) as u32 as u64) | (((x >> 32) as u32 as u64) << 32)) == x)
            by (bit_vector);
        assert(Self::dec(e) == Some(v));
    }

    fn encode(&self) -> (r: Vec<u8>)
    {
        proof {
            let x = self.id;
            assert(x & 0xffff_ffff <= u32::MAX && x >> 32 <= u32::MAX) by (bit_vector);
        }
        let lo = (self.id & 0xffff_ffff) as u32;
        let hi = (self.id >> 32) as u32;
        let mut out: Vec<u8> = Vec::new();
        write_u32_le(&mut out, lo);
        write_u32_le(&mut out, hi);
        let n = self.text.len();
        push_range(&mut out, &self.text, 0, n);
        proof {
            assert(self.text@.subrange(0, n as int) =~= self.text@);
            assert(out@ =~= Self::enc(self@));
        }
        out
    }

    fn decode(bytes: &Vec<u8>) -> (r: Option<Self>)
    {
        if bytes.len() < 8 {
            return None;
        }
        let lo = read_u32_le(bytes, 0);
        let hi = read_u32_le(bytes, 4);
        let id = (lo as u64) | ((hi as u64) << 32);
        let mut text: Vec<u8> = Vec::new();
        let n = bytes.len();
        push_range(&mut text, bytes, 8, n);
        let m = Message { id, text };
        proof {
            assert(m.text@ =~= bytes@.skip(8));
            assert(Self::dec(bytes@) == Some(m@));
        }
        Some(m)
    }
}

} // verus!
