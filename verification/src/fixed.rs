//! Integers of fixed width: as many bytes, least significant first.

use vstd::prelude::*;
use crate::error::DecodeError;
use crate::leb128::holds_at;

verus! {

/// The `width` low bytes of `v`, least significant first.
pub open spec fn le_bytes(v: nat, width: nat) -> Seq<u8>
    decreases width,
{
    if width == 0 {
        Seq::empty()
    } else {
        seq![(v % 256) as u8] + le_bytes(v / 256, (width - 1) as nat)
    }
}

/// The number that the `width` bytes at `pos` spell, least significant first.
pub open spec fn le_value(bytes: Seq<u8>, pos: int, width: nat) -> nat
    decreases width,
{
    if width == 0 {
        0
    } else {
        bytes[pos] as nat + 256 * le_value(bytes, pos + 1, (width - 1) as nat)
    }
}

/// 256 to the power `width`.
pub open spec fn pow256(width: nat) -> nat
    decreases width,
{
    if width == 0 {
        1
    } else {
        256 * pow256((width - 1) as nat)
    }
}

/// The non-negative number with the same `width` bytes as `v` in two's
/// complement.
pub open spec fn unsigned_of(v: int, width: nat) -> nat {
    if v >= 0 {
        v as nat
    } else {
        (v + pow256(width)) as nat
    }
}

/// The signed number that the `width` bytes of `u` spell in two's complement.
pub open spec fn signed_of(u: nat, width: nat) -> int {
    if 2 * u >= pow256(width) {
        u - pow256(width)
    } else {
        u as int
    }
}

/// What reading `width` bytes at `pos` gives.
pub open spec fn read_le_spec(bytes: Seq<u8>, pos: int, width: nat) -> Result<(nat, int), DecodeError> {
    if pos < 0 || pos + width > bytes.len() {
        Err(DecodeError::UnexpectedEof)
    } else {
        Ok((le_value(bytes, pos, width), pos + width))
    }
}

pub proof fn lemma_pow256_values()
    ensures
        pow256(0) == 1,
        pow256(1) == 0x100,
        pow256(2) == 0x1_0000,
        pow256(3) == 0x100_0000,
        pow256(4) == 0x1_0000_0000,
        pow256(5) == 0x100_0000_0000,
        pow256(6) == 0x1_0000_0000_0000,
        pow256(7) == 0x100_0000_0000_0000,
        pow256(8) == 0x1_0000_0000_0000_0000,
{
    reveal_with_fuel(pow256, 10);
}

pub proof fn lemma_le_bytes_len(v: nat, width: nat)
    ensures
        le_bytes(v, width).len() == width,
    decreases width,
{
    if width > 0 {
        lemma_le_bytes_len(v / 256, (width - 1) as nat);
    }
}

pub proof fn lemma_le_value_bound(bytes: Seq<u8>, pos: int, width: nat)
    ensures
        le_value(bytes, pos, width) < pow256(width),
    decreases width,
{
    if width > 0 {
        lemma_le_value_bound(bytes, pos + 1, (width - 1) as nat);
    }
}

/// Reading back the bytes of a number that fits gives the number.
pub proof fn lemma_le_round_trip(bytes: Seq<u8>, pos: int, v: nat, width: nat)
    requires
        holds_at(bytes, pos, le_bytes(v, width)),
        v < pow256(width),
    ensures
        read_le_spec(bytes, pos, width) == Ok::<(nat, int), DecodeError>((v, pos + width)),
    decreases width,
{
    lemma_le_bytes_len(v, width);
    if width > 0 {
        let head = seq![(v % 256) as u8];
        let rest = le_bytes(v / 256, (width - 1) as nat);
        crate::leb128::lemma_holds_at_split(bytes, pos, head, rest);
        crate::leb128::lemma_holds_at_index(bytes, pos, le_bytes(v, width), 0);
        lemma_le_bytes_len(v / 256, (width - 1) as nat);
        lemma_le_round_trip(bytes, pos + 1, v / 256, (width - 1) as nat);
    }
}

pub proof fn lemma_signed_round_trip(v: int, width: nat)
    requires
        1 <= width <= 8,
        -(pow256(width) as int) <= 2 * v < pow256(width),
    ensures
        unsigned_of(v, width) < pow256(width),
        signed_of(unsigned_of(v, width), width) == v,
{
}

/// Appends the `width` low bytes of `v`.
pub fn write_le(out: &mut Vec<u8>, v: u64, width: usize)
    requires
        width <= 8,
    ensures
        final(out)@ == old(out)@ + le_bytes(v as nat, width as nat),
{
    let mut rest: u64 = v;
    let mut i: usize = 0;
    proof {
        assert(old(out)@ + le_bytes(v as nat, width as nat) =~= out@ + le_bytes(
            rest as nat,
            (width - i) as nat,
        ));
    }
    while i < width
        invariant
            i <= width,
            old(out)@ + le_bytes(v as nat, width as nat) == out@ + le_bytes(
                rest as nat,
                (width - i) as nat,
            ),
        decreases width - i,
    {
        let ghost before = out@;
        let b: u8 = (rest % 256) as u8;
        out.push(b);
        proof {
            let tail = le_bytes((rest / 256) as nat, (width - i - 1) as nat);
            assert(before + (seq![b] + tail) =~= before.push(b) + tail);
        }
        rest = rest / 256;
        i = i + 1;
    }
    proof {
        assert(out@ + Seq::<u8>::empty() =~= out@);
    }
}

/// Reads `width` bytes at `pos` as a number.
pub fn read_le(bytes: &[u8], pos: usize, width: usize) -> (r: Result<(u64, usize), DecodeError>)
    requires
        width <= 8,
    ensures
        match read_le_spec(bytes@, pos as int, width as nat) {
            Ok((v, end)) => r matches Ok((rv, rend)) && rv == v && rend == end,
            Err(e) => r == Err::<(u64, usize), DecodeError>(e),
        },
{
    let total: usize = bytes.len();
    if pos > total || width > total - pos {
        return Err(DecodeError::UnexpectedEof);
    }
    let mut acc: u64 = 0;
    let mut i: usize = width;
    proof {
        lemma_pow256_values();
    }
    while i > 0
        invariant
            i <= width <= 8,
            pos + width <= total,
            total == bytes@.len(),
            acc == le_value(bytes@, pos + i, (width - i) as nat),
        decreases i,
    {
        proof {
            lemma_le_value_bound(bytes@, pos + i, (width - i) as nat);
            lemma_pow256_values();
            reveal_with_fuel(pow256, 10);
            assert(pow256((width - i) as nat) <= 0x100_0000_0000_0000);
        }
        i = i - 1;
        acc = acc * 256 + bytes[pos + i] as u64;
    }
    Ok((acc, pos + width))
}

} // verus!
