//! Keys of record fields and variant members.

use vstd::prelude::*;
use vstd::string::StringSliceAdditionalSpecFns;
use vstd::utf8::encode_utf8;

verus! {

/// The 32-bit key of a name: over its bytes from left to right, starting at 0,
/// `key = (key * 223 + byte) mod 2^32`.
pub open spec fn hash_bytes(bytes: Seq<u8>) -> nat
    decreases bytes.len(),
{
    if bytes.len() == 0 {
        0
    } else {
        (hash_bytes(bytes.drop_last()) * 223 + bytes.last() as nat) % 0x1_0000_0000
    }
}

/// The key of the name `label`, over its UTF-8 bytes.
pub fn idl_hash(label: &str) -> (key: u32)
    ensures
        key as nat == hash_bytes(label.spec_bytes()),
{
    let bytes = label.as_bytes();
    let mut h: u64 = 0;
    let mut i: usize = 0;
    while i < bytes.len()
        invariant
            i <= bytes@.len(),
            h < 0x1_0000_0000,
            h as nat == hash_bytes(bytes@.subrange(0, i as int)),
        decreases bytes.len() - i,
    {
        proof {
            let next = bytes@.subrange(0, i + 1);
            assert(next.drop_last() =~= bytes@.subrange(0, i as int));
            assert(next.last() == bytes@[i as int]);
        }
        h = (h * 223 + bytes[i] as u64) % 0x1_0000_0000;
        i = i + 1;
    }
    proof {
        assert(bytes@.subrange(0, i as int) =~= bytes@);
    }
    h as u32
}

/// How a record field or a variant member is named: by a text, or by a number
/// that is its key as it stands.
#[derive(Debug, Clone, PartialEq, Eq)]
pub enum Label {
    Named(String),
    Id(u32),
}

/// The key that a label stands for.
pub open spec fn label_key(label: Label) -> nat {
    match label {
        Label::Named(name) => hash_bytes(encode_utf8(name@)),
        Label::Id(id) => id as nat,
    }
}

impl Label {
    /// The key that the label stands for.
    pub fn key(&self) -> (key: u32)
        ensures
            key as nat == label_key(*self),
    {
        match self {
            Label::Named(name) => idl_hash(name.as_str()),
            Label::Id(id) => *id,
        }
    }
}

} // verus!
