//! Variable-length integers: seven data bits per byte, least significant group
//! first, the high bit set on every byte but the last.

use vstd::prelude::*;
use crate::error::DecodeError;

verus! {

/// 128 to the power `k`.
pub open spec fn pow128(k: nat) -> nat
    decreases k,
{
    if k == 0 {
        1
    } else {
        128 * pow128((k - 1) as nat)
    }
}

/// The unsigned encoding of `n`.
pub open spec fn uleb128(n: nat) -> Seq<u8>
    decreases n,
{
    if n < 128 {
        seq![n as u8]
    } else {
        seq![(n % 128 + 128) as u8] + uleb128(n / 128)
    }
}

/// The index just past the number that starts at `pos`: one past the first
/// byte at or after `pos` whose high bit is clear. `None` if there is none.
pub open spec fn leb_end(bytes: Seq<u8>, pos: int) -> Option<int>
    decreases bytes.len() - pos,
{
    if pos < 0 || pos >= bytes.len() {
        None
    } else if bytes[pos] < 128 {
        Some(pos + 1)
    } else {
        leb_end(bytes, pos + 1)
    }
}

/// The unsigned number whose groups start at `pos`.
pub open spec fn uleb_value(bytes: Seq<u8>, pos: int) -> nat
    decreases bytes.len() - pos,
{
    if pos < 0 || pos >= bytes.len() {
        0
    } else if bytes[pos] < 128 {
        bytes[pos] as nat
    } else {
        (bytes[pos] - 128) as nat + 128 * uleb_value(bytes, pos + 1)
    }
}

/// What reading an unsigned number of at most `max` at `pos` gives: the number
/// and the index just past it.
pub open spec fn read_uleb_spec(bytes: Seq<u8>, pos: int, max: nat) -> Result<(nat, int), DecodeError> {
    match leb_end(bytes, pos) {
        None => Err(DecodeError::UnexpectedEof),
        Some(end) => if uleb_value(bytes, pos) > max {
            Err(DecodeError::Overflow)
        } else {
            Ok((uleb_value(bytes, pos), end))
        },
    }
}

/// `bytes` holds `part` at `pos`.
pub open spec fn holds_at(bytes: Seq<u8>, pos: int, part: Seq<u8>) -> bool {
    &&& 0 <= pos
    &&& pos + part.len() <= bytes.len()
    &&& bytes.subrange(pos, pos + part.len()) == part
}

pub proof fn lemma_holds_at_split(bytes: Seq<u8>, pos: int, a: Seq<u8>, b: Seq<u8>)
    requires
        holds_at(bytes, pos, a + b),
    ensures
        holds_at(bytes, pos, a),
        holds_at(bytes, pos + a.len(), b),
{
    let whole = bytes.subrange(pos, pos + (a + b).len());
    assert(bytes.subrange(pos, pos + a.len()) =~= whole.subrange(0, a.len() as int));
    assert(whole.subrange(0, a.len() as int) =~= a);
    assert(bytes.subrange(pos + a.len(), pos + a.len() + b.len()) =~= whole.subrange(
        a.len() as int,
        (a + b).len() as int,
    ));
    assert(whole.subrange(a.len() as int, (a + b).len() as int) =~= b);
}

/// A number that ends does so inside the input, past its start.
pub proof fn lemma_leb_end_bounds(bytes: Seq<u8>, pos: int)
    ensures
        leb_end(bytes, pos) matches Some(end) ==> 0 <= pos < end <= bytes.len(),
    decreases bytes.len() - pos,
{
    if 0 <= pos < bytes.len() && bytes[pos] >= 128 {
        lemma_leb_end_bounds(bytes, pos + 1);
    }
}

pub proof fn lemma_holds_at_index(bytes: Seq<u8>, pos: int, part: Seq<u8>, i: int)
    requires
        holds_at(bytes, pos, part),
        0 <= i < part.len(),
    ensures
        bytes[pos + i] == part[i],
{
    assert(bytes.subrange(pos, pos + part.len())[i] == bytes[pos + i]);
}

pub proof fn lemma_pow128_values()
    ensures
        pow128(0) == 1,
        pow128(1) == 128,
        pow128(2) == 0x4000,
        pow128(3) == 0x20_0000,
        pow128(4) == 0x1000_0000,
        pow128(5) == 0x8_0000_0000,
        pow128(6) == 0x400_0000_0000,
        pow128(7) == 0x2_0000_0000_0000,
        pow128(8) == 0x100_0000_0000_0000,
        pow128(9) == 0x8000_0000_0000_0000,
        pow128(10) == 0x40_0000_0000_0000_0000,
{
    reveal_with_fuel(pow128, 12);
}

pub proof fn lemma_pow128_positive(k: nat)
    ensures
        pow128(k) >= 1,
        k >= 10 ==> pow128(k) >= 0x40_0000_0000_0000_0000,
    decreases k,
{
    if k > 0 {
        lemma_pow128_positive((k - 1) as nat);
    }
    if k == 10 {
        lemma_pow128_values();
    }
}

/// Reading back what `uleb128` wrote gives the number and stops just past it.
pub proof fn lemma_uleb_round_trip(bytes: Seq<u8>, pos: int, n: nat)
    requires
        holds_at(bytes, pos, uleb128(n)),
    ensures
        leb_end(bytes, pos) == Some(pos + uleb128(n).len()),
        uleb_value(bytes, pos) == n,
    decreases n,
{
    lemma_holds_at_index(bytes, pos, uleb128(n), 0);
    if n >= 128 {
        let head = seq![(n % 128 + 128) as u8];
        lemma_holds_at_split(bytes, pos, head, uleb128(n / 128));
        lemma_uleb_round_trip(bytes, pos + 1, n / 128);
    }
}

/// The boundary of the fixed widths: a number that was written is read back
/// into a width that holds it, and is an overflow for a width that does not.
pub proof fn law_uleb_fits_or_overflows(bytes: Seq<u8>, pos: int, n: nat, max: nat)
    requires
        holds_at(bytes, pos, uleb128(n)),
    ensures
        n <= max ==> read_uleb_spec(bytes, pos, max) == Ok::<(nat, int), DecodeError>(
            (n, pos + uleb128(n).len()),
        ),
        n > max ==> read_uleb_spec(bytes, pos, max) == Err::<(nat, int), DecodeError>(
            DecodeError::Overflow,
        ),
{
    lemma_uleb_round_trip(bytes, pos, n);
}

/// Appends the unsigned encoding of `value` to `out`.
pub fn write_uleb128(out: &mut Vec<u8>, value: u64)
    ensures
        final(out)@ == old(out)@ + uleb128(value as nat),
{
    let mut v: u64 = value;
    while v >= 128
        invariant
            old(out)@ + uleb128(value as nat) == out@ + uleb128(v as nat),
        decreases v,
    {
        let ghost before = out@;
        let b: u8 = (v % 128 + 128) as u8;
        out.push(b);
        proof {
            assert(before + (seq![b] + uleb128((v / 128) as nat)) =~= before.push(b) + uleb128(
                (v / 128) as nat,
            ));
        }
        v = v / 128;
    }
    let ghost before = out@;
    out.push(v as u8);
    proof {
        assert(before + seq![v as u8] =~= before.push(v as u8));
    }
}

/// Reads an unsigned number at `pos` into 64 bits.
pub fn read_uleb128(bytes: &[u8], pos: usize) -> (r: Result<(u64, usize), DecodeError>)
    ensures
        match read_uleb_spec(bytes@, pos as int, u64::MAX as nat) {
            Ok((v, end)) => r matches Ok((rv, rend)) && rv == v && rend == end,
            Err(e) => r == Err::<(u64, usize), DecodeError>(e),
        },
{
    let mut i: usize = pos;
    let mut acc: u64 = 0;
    let mut scale: u64 = 1;
    let mut groups: usize = 0;
    let mut overflow: bool = false;
    let ghost mut low: nat = 0;
    proof {
        lemma_pow128_values();
        assert(pow128(0) * uleb_value(bytes@, pos as int) == uleb_value(bytes@, pos as int));
    }
    while i < bytes.len() && bytes[i] >= 128
        invariant
            pos <= i,
            leb_end(bytes@, pos as int) == leb_end(bytes@, i as int),
            uleb_value(bytes@, pos as int) == low + pow128((i - pos) as nat) * uleb_value(
                bytes@,
                i as int,
            ),
            !overflow ==> low == acc,
            overflow ==> low > u64::MAX,
            low < pow128((i - pos) as nat),
            groups <= 10,
            groups < 10 ==> groups == i - pos && scale == pow128(groups as nat),
            groups == 10 ==> i - pos >= 10,
        decreases bytes.len() - i,
    {
        let payload: u8 = bytes[i] - 128;
        let ghost k = (i - pos) as nat;
        proof {
            lemma_pow128_positive(k);
            lemma_pow128_values();
            assert(uleb_value(bytes@, i as int) == (payload as nat) + 128 * uleb_value(
                bytes@,
                i + 1,
            ));
            assert(pow128(k + 1) == 128 * pow128(k));
            assert(pow128(k) * ((payload as nat) + 128 * uleb_value(bytes@, i + 1)) == pow128(k)
                * (payload as nat) + pow128(k + 1) * uleb_value(bytes@, i + 1))
                by (nonlinear_arith)
                requires
                    pow128(k + 1) == 128 * pow128(k),
            ;
            assert(low + pow128(k) * (payload as nat) < pow128(k + 1)) by (nonlinear_arith)
                requires
                    low < pow128(k),
                    payload <= 127,
                    pow128(k + 1) == 128 * pow128(k),
            ;
        }
        if groups < 9 {
            proof {
                assert(scale <= 0x100_0000_0000_0000) by {
                    reveal_with_fuel(pow128, 12);
                }
                assert((payload as nat) * (scale as nat) <= 127 * 0x100_0000_0000_0000)
                    by (nonlinear_arith)
                    requires
                        payload <= 127,
                        scale <= 0x100_0000_0000_0000,
                ;
                assert(pow128(k + 1) <= 0x8000_0000_0000_0000) by {
                    reveal_with_fuel(pow128, 12);
                }
                assert(pow128(k) * (payload as nat) == (payload as nat) * (scale as nat))
                    by (nonlinear_arith)
                    requires
                        pow128(k) == (scale as nat),
                ;
            }
            if !overflow {
                acc = acc + (payload as u64) * scale;
            }
            scale = scale * 128;
            groups = groups + 1;
        } else if groups == 9 {
            proof {
                assert(pow128(k) * (payload as nat) == (payload as nat) * 0x8000_0000_0000_0000nat)
                    by (nonlinear_arith)
                    requires
                        pow128(k) == 0x8000_0000_0000_0000nat,
                ;
            }
            proof {
                assert(k == 9);
                assert(low < 0x8000_0000_0000_0000nat);
                assert(payload > 1 ==> (payload as nat) * 0x8000_0000_0000_0000nat
                    >= 0x1_0000_0000_0000_0000nat) by (nonlinear_arith);
                assert(payload == 1 ==> (payload as nat) * 0x8000_0000_0000_0000nat
                    == 0x8000_0000_0000_0000nat) by (nonlinear_arith);
                assert(payload == 0 ==> (payload as nat) * 0x8000_0000_0000_0000nat == 0)
                    by (nonlinear_arith);
            }
            if payload > 1 {
                overflow = true;
            } else if payload == 1 && !overflow {
                acc = acc + 0x8000_0000_0000_0000u64;
            }
            groups = 10;
        } else {
            proof {
                assert(payload != 0 ==> pow128(k) * (payload as nat) >= 0x40_0000_0000_0000_0000nat)
                    by (nonlinear_arith)
                    requires
                        pow128(k) >= 0x40_0000_0000_0000_0000nat,
                ;
                assert(payload == 0 ==> pow128(k) * (payload as nat) == 0) by (nonlinear_arith);
            }
            if payload != 0 {
                overflow = true;
            }
        }
        proof {
            low = low + pow128(k) * (payload as nat);
        }
        i = i + 1;
    }
    if i >= bytes.len() {
        return Err(DecodeError::UnexpectedEof);
    }
    let last: u8 = bytes[i];
    let ghost k = (i - pos) as nat;
    proof {
        lemma_pow128_positive(k);
        lemma_pow128_values();
        assert(uleb_value(bytes@, i as int) == (last as nat));
        assert(leb_end(bytes@, i as int) == Some(i + 1));
    }
    if overflow {
        return Err(DecodeError::Overflow);
    }
    if groups < 9 {
        proof {
            assert(scale <= 0x100_0000_0000_0000) by {
                reveal_with_fuel(pow128, 12);
            }
            assert((last as nat) * (scale as nat) <= 127 * 0x100_0000_0000_0000) by (nonlinear_arith)
                requires
                    last <= 127,
                    scale <= 0x100_0000_0000_0000,
            ;
            assert(pow128(k) * (last as nat) == (last as nat) * (scale as nat)) by (nonlinear_arith)
                requires
                    pow128(k) == (scale as nat),
            ;
        }
        Ok((acc + (last as u64) * scale, i + 1))
    } else if groups == 9 {
        proof {
            assert(pow128(k) * (last as nat) == (last as nat) * 0x8000_0000_0000_0000nat)
                by (nonlinear_arith)
                requires
                    pow128(k) == 0x8000_0000_0000_0000nat,
            ;
        }
        if last > 1 {
            Err(DecodeError::Overflow)
        } else if last == 1 {
            Ok((acc + 0x8000_0000_0000_0000u64, i + 1))
        } else {
            Ok((acc, i + 1))
        }
    } else {
        proof {
            assert(last != 0 ==> pow128(k) * (last as nat) >= 0x40_0000_0000_0000_0000nat)
                by (nonlinear_arith)
                requires
                    pow128(k) >= 0x40_0000_0000_0000_0000nat,
            ;
            assert(last == 0 ==> pow128(k) * (last as nat) == 0) by (nonlinear_arith);
        }
        if last != 0 {
            Err(DecodeError::Overflow)
        } else {
            Ok((acc, i + 1))
        }
    }
}

} // verus!

verus! {

/// The signed encoding of `v`: two's complement groups, the last one carrying
/// the sign in its second-highest bit.
pub open spec fn sleb128(v: int) -> Seq<u8>
    decreases (if v >= 0 { v } else { -v }),
{
    if -64 <= v < 64 {
        seq![(v % 128) as u8]
    } else {
        seq![(v % 128 + 128) as u8] + sleb128(v / 128)
    }
}

/// The signed number whose groups start at `pos`.
pub open spec fn sleb_value(bytes: Seq<u8>, pos: int) -> int
    decreases bytes.len() - pos,
{
    if pos < 0 || pos >= bytes.len() {
        0
    } else if bytes[pos] < 64 {
        bytes[pos] as int
    } else if bytes[pos] < 128 {
        bytes[pos] - 128
    } else {
        (bytes[pos] - 128) + 128 * sleb_value(bytes, pos + 1)
    }
}

/// What reading a signed number between `min` and `max` at `pos` gives.
pub open spec fn read_sleb_spec(bytes: Seq<u8>, pos: int, min: int, max: int) -> Result<(int, int), DecodeError> {
    match leb_end(bytes, pos) {
        None => Err(DecodeError::UnexpectedEof),
        Some(end) => if sleb_value(bytes, pos) < min || sleb_value(bytes, pos) > max {
            Err(DecodeError::Overflow)
        } else {
            Ok((sleb_value(bytes, pos), end))
        },
    }
}

/// Reading back what `sleb128` wrote gives the number and stops just past it.
pub proof fn lemma_sleb_round_trip(bytes: Seq<u8>, pos: int, v: int)
    requires
        holds_at(bytes, pos, sleb128(v)),
    ensures
        leb_end(bytes, pos) == Some(pos + sleb128(v).len()),
        sleb_value(bytes, pos) == v,
    decreases (if v >= 0 { v } else { -v }),
{
    lemma_holds_at_index(bytes, pos, sleb128(v), 0);
    if !(-64 <= v < 64) {
        let head = seq![(v % 128 + 128) as u8];
        lemma_holds_at_split(bytes, pos, head, sleb128(v / 128));
        lemma_sleb_round_trip(bytes, pos + 1, v / 128);
    }
}

/// Appends the signed encoding of `-m - 1` where `negative`, of `m` otherwise.
fn write_signed(out: &mut Vec<u8>, negative: bool, magnitude: u64)
    ensures
        final(out)@ == old(out)@ + sleb128(
            if negative {
                -(magnitude as int) - 1
            } else {
                magnitude as int
            },
        ),
{
    let mut m: u64 = magnitude;
    let ghost value: int = if negative { -(magnitude as int) - 1 } else { magnitude as int };
    let ghost mut cur: int = value;
    while m >= 64
        invariant
            cur == (if negative { -(m as int) - 1 } else { m as int }),
            old(out)@ + sleb128(value) == out@ + sleb128(cur),
        decreases m,
    {
        let ghost before = out@;
        let g: u8 = (m % 128) as u8;
        let payload: u8 = if negative { 127 - g } else { g };
        out.push(payload + 128);
        proof {
            assert(cur % 128 == payload as int);
            assert(cur / 128 == (if negative { -((m / 128) as int) - 1 } else { (m / 128) as int }));
            assert(before + (seq![(payload + 128) as u8] + sleb128(cur / 128)) =~= before.push(
                (payload + 128) as u8,
            ) + sleb128(cur / 128));
            cur = cur / 128;
        }
        m = m / 128;
    }
    let ghost before = out@;
    let last: u8 = if negative { 127 - (m as u8) } else { m as u8 };
    out.push(last);
    proof {
        assert(cur % 128 == last as int);
        assert(before + seq![last] =~= before.push(last));
    }
}

/// Appends the signed encoding of `value` to `out`.
pub fn write_sleb128(out: &mut Vec<u8>, value: i64)
    ensures
        final(out)@ == old(out)@ + sleb128(value as int),
{
    if value < 0 {
        write_signed(out, true, (-(value + 1)) as u64);
    } else {
        write_signed(out, false, value as u64);
    }
}

/// Appends the signed encoding of the non-negative `value` to `out`.
pub fn write_sleb128_unsigned(out: &mut Vec<u8>, value: u64)
    ensures
        final(out)@ == old(out)@ + sleb128(value as int),
{
    write_signed(out, false, value);
}

} // verus!
