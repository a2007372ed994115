//! Integers of any size, held as the seven-bit groups in which they travel.

use vstd::prelude::*;
use crate::error::DecodeError;
use crate::leb128::{
    leb_end, lemma_sleb_round_trip, lemma_uleb_round_trip, pow128, read_uleb128, sleb128,
    sleb_value, uleb128, uleb_value, write_sleb128, write_uleb128,
};

verus! {

/// Every group is below 128.
pub open spec fn groups_in_range(g: Seq<u8>) -> bool {
    forall|k: int| 0 <= k < g.len() ==> #[trigger] g[k] < 128
}

/// The number that the groups spell, least significant first.
pub open spec fn groups_value(g: Seq<u8>) -> nat
    decreases g.len(),
{
    if g.len() == 0 {
        0
    } else {
        g[0] as nat + 128 * groups_value(g.drop_first())
    }
}

/// The number that the groups spell in two's complement: the last group's
/// second-highest bit is the sign.
pub open spec fn signed_groups_value(g: Seq<u8>) -> int
    decreases g.len(),
{
    if g.len() == 0 {
        0
    } else if g.len() == 1 {
        if g[0] < 64 {
            g[0] as int
        } else {
            g[0] - 128
        }
    } else {
        g[0] + 128 * signed_groups_value(g.drop_first())
    }
}

/// The shortest groups of a non-negative number: no zero group on top.
pub open spec fn unsigned_canonical(g: Seq<u8>) -> bool {
    &&& g.len() >= 1
    &&& groups_in_range(g)
    &&& g.len() > 1 ==> g.last() != 0
}

/// The top group only repeats the sign of the one below it.
pub open spec fn top_is_padding(g: Seq<u8>) -> bool {
    &&& g.len() >= 2
    &&& {
        ||| g.last() == 0 && g[g.len() - 2] < 64
        ||| g.last() == 127 && g[g.len() - 2] >= 64
    }
}

/// The shortest groups of a signed number.
pub open spec fn signed_canonical(g: Seq<u8>) -> bool {
    &&& g.len() >= 1
    &&& groups_in_range(g)
    &&& !top_is_padding(g)
}

/// The low seven bits of each byte from `pos` up to `end`.
pub open spec fn payloads(bytes: Seq<u8>, pos: int, end: int) -> Seq<u8> {
    Seq::new((end - pos) as nat, |k: int| (bytes[pos + k] % 128) as u8)
}

/// The groups as they are written: the high bit set on all but the last.
pub open spec fn chained(g: Seq<u8>) -> Seq<u8> {
    Seq::new(g.len(), |k: int| if k < g.len() - 1 { (g[k] + 128) as u8 } else { g[k] })
}

proof fn lemma_payloads_unsigned(bytes: Seq<u8>, pos: int, end: int)
    requires
        leb_end(bytes, pos) == Some(end),
    ensures
        0 <= pos < end <= bytes.len(),
        groups_value(payloads(bytes, pos, end)) == uleb_value(bytes, pos),
        signed_groups_value(payloads(bytes, pos, end)) == sleb_value(bytes, pos),
    decreases bytes.len() - pos,
{
    let p = payloads(bytes, pos, end);
    if bytes[pos] < 128 {
        assert(p.drop_first() =~= Seq::<u8>::empty());
        assert(groups_value(p.drop_first()) == 0);
    } else {
        lemma_payloads_unsigned(bytes, pos + 1, end);
        assert(p.drop_first() =~= payloads(bytes, pos + 1, end));
    }
}

proof fn lemma_drop_top_zero(g: Seq<u8>)
    requires
        g.len() >= 1,
        g.last() == 0,
    ensures
        groups_value(g.drop_last()) == groups_value(g),
    decreases g.len(),
{
    if g.len() == 1 {
        assert(g.drop_first() =~= Seq::<u8>::empty());
        assert(g.drop_last() =~= Seq::<u8>::empty());
        assert(groups_value(g.drop_first()) == 0);
    } else {
        lemma_drop_top_zero(g.drop_first());
        assert(g.drop_last().drop_first() =~= g.drop_first().drop_last());
    }
}

proof fn lemma_drop_top_padding(g: Seq<u8>)
    requires
        top_is_padding(g),
    ensures
        signed_groups_value(g.drop_last()) == signed_groups_value(g),
    decreases g.len(),
{
    if g.len() == 2 {
        let top = g.drop_first();
        let low = g.drop_last();
        assert(top.len() == 1 && top[0] == g[1]);
        assert(low.len() == 1 && low[0] == g[0]);
        assert(signed_groups_value(top) == (if g[1] < 64 { g[1] as int } else { g[1] - 128 }));
        assert(signed_groups_value(low) == (if g[0] < 64 { g[0] as int } else { g[0] - 128 }));
        assert(signed_groups_value(g) == g[0] + 128 * signed_groups_value(top));
    } else {
        assert(g.drop_last().len() >= 2);
        assert(g.drop_last()[0] == g[0]);
        assert(top_is_padding(g.drop_first())) by {
            assert(g.drop_first().last() == g.last());
            assert(g.drop_first()[g.drop_first().len() - 2] == g[g.len() - 2]);
        }
        lemma_drop_top_padding(g.drop_first());
        assert(g.drop_last().drop_first() =~= g.drop_first().drop_last());
    }
}

proof fn lemma_unsigned_bounds(g: Seq<u8>)
    requires
        g.len() >= 1,
        groups_in_range(g),
    ensures
        groups_value(g) < pow128(g.len()),
        g.last() != 0 ==> groups_value(g) >= pow128((g.len() - 1) as nat),
    decreases g.len(),
{
    let rest = g.drop_first();
    if g.len() == 1 {
        assert(groups_value(rest) == 0);
        reveal_with_fuel(pow128, 2);
    } else {
        assert(groups_in_range(rest)) by {
            assert forall|k: int| 0 <= k < rest.len() implies #[trigger] rest[k] < 128 by {
                assert(rest[k] == g[k + 1]);
            }
        }
        assert(rest.last() == g.last());
        lemma_unsigned_bounds(rest);
        assert(g[0] < 128);
    }
}

proof fn lemma_chained_unsigned(g: Seq<u8>)
    requires
        unsigned_canonical(g),
    ensures
        chained(g) == uleb128(groups_value(g)),
    decreases g.len(),
{
    let rest = g.drop_first();
    assert(g[0] < 128);
    if g.len() == 1 {
        assert(groups_value(rest) == 0);
        assert(chained(g) =~= seq![g[0]]);
    } else {
        assert(unsigned_canonical(rest)) by {
            assert forall|k: int| 0 <= k < rest.len() implies #[trigger] rest[k] < 128 by {
                assert(rest[k] == g[k + 1]);
            }
            assert(rest.last() == g.last());
        }
        lemma_chained_unsigned(rest);
        lemma_unsigned_bounds(rest);
        crate::leb128::lemma_pow128_positive((rest.len() - 1) as nat);
        let v = groups_value(g);
        assert(v >= 128);
        assert(v % 128 == g[0] as nat);
        assert(v / 128 == groups_value(rest));
        assert(chained(g) =~= seq![(g[0] + 128) as u8] + chained(rest));
    }
}

proof fn lemma_signed_bounds(g: Seq<u8>)
    requires
        g.len() >= 1,
        groups_in_range(g),
    ensures
        -64 * pow128((g.len() - 1) as nat) <= signed_groups_value(g) < 64 * pow128(
            (g.len() - 1) as nat,
        ),
        g.len() >= 2 && !top_is_padding(g) ==> !(-64 * pow128((g.len() - 2) as nat)
            <= signed_groups_value(g) < 64 * pow128((g.len() - 2) as nat)),
    decreases g.len(),
{
    let rest = g.drop_first();
    reveal_with_fuel(pow128, 2);
    assert(g[0] < 128);
    if g.len() >= 2 {
        assert(groups_in_range(rest)) by {
            assert forall|k: int| 0 <= k < rest.len() implies #[trigger] rest[k] < 128 by {
                assert(rest[k] == g[k + 1]);
            }
        }
        assert(rest.last() == g.last());
        lemma_signed_bounds(rest);
        if g.len() == 2 {
            assert(rest[0] == g[1]);
            assert(g[g.len() - 2] == g[0]);
        } else {
            assert(rest[rest.len() - 2] == g[g.len() - 2]);
            assert(top_is_padding(rest) == top_is_padding(g));
            assert(pow128((g.len() - 2) as nat) == 128 * pow128((g.len() - 3) as nat));
        }
    }
}

proof fn lemma_chained_signed(g: Seq<u8>)
    requires
        signed_canonical(g),
    ensures
        chained(g) == sleb128(signed_groups_value(g)),
    decreases g.len(),
{
    let rest = g.drop_first();
    assert(g[0] < 128);
    if g.len() == 1 {
        assert(chained(g) =~= seq![g[0]]);
    } else {
        assert(signed_canonical(rest)) by {
            assert forall|k: int| 0 <= k < rest.len() implies #[trigger] rest[k] < 128 by {
                assert(rest[k] == g[k + 1]);
            }
            assert(rest.last() == g.last());
            if rest.len() >= 2 {
                assert(rest[rest.len() - 2] == g[g.len() - 2]);
            }
        }
        lemma_chained_signed(rest);
        lemma_signed_bounds(g);
        crate::leb128::lemma_pow128_positive((g.len() - 2) as nat);
        let v = signed_groups_value(g);
        assert(!(-64 <= v < 64));
        assert(v % 128 == g[0] as int);
        assert(v / 128 == signed_groups_value(rest));
        assert(chained(g) =~= seq![(g[0] + 128) as u8] + chained(rest));
    }
}

/// Reads the groups of the number at `pos`, or `None` where the input ends
/// inside it.
fn read_groups(bytes: &[u8], pos: usize) -> (r: Option<(Vec<u8>, usize)>)
    ensures
        match leb_end(bytes@, pos as int) {
            None => r is None,
            Some(end) => r matches Some((g, e)) && e == end && g@ == payloads(
                bytes@,
                pos as int,
                end,
            ),
        },
{
    let mut groups: Vec<u8> = Vec::new();
    let mut i: usize = pos;
    while i < bytes.len() && bytes[i] >= 128
        invariant
            pos <= i,
            leb_end(bytes@, pos as int) == leb_end(bytes@, i as int),
            groups@ == payloads(bytes@, pos as int, i as int),
        decreases bytes.len() - i,
    {
        groups.push(bytes[i] % 128);
        i = i + 1;
        proof {
            assert(groups@ =~= payloads(bytes@, pos as int, i as int));
        }
    }
    if i >= bytes.len() {
        return None;
    }
    groups.push(bytes[i] % 128);
    proof {
        assert(groups@ =~= payloads(bytes@, pos as int, i + 1));
    }
    Some((groups, i + 1))
}

/// Appends the groups to `out` as they are written.
fn write_groups(out: &mut Vec<u8>, groups: &Vec<u8>)
    requires
        groups@.len() >= 1,
        groups_in_range(groups@),
    ensures
        final(out)@ == old(out)@ + chained(groups@),
{
    let mut i: usize = 0;
    let last: usize = groups.len() - 1;
    while i < last
        invariant
            last == groups@.len() - 1,
            i <= last,
            groups_in_range(groups@),
            out@ == old(out)@ + chained(groups@).subrange(0, i as int),
        decreases last - i,
    {
        let ghost before = out@;
        assert(groups@[i as int] < 128);
        out.push(groups[i] + 128);
        proof {
            assert(out@ =~= old(out)@ + chained(groups@).subrange(0, i + 1));
        }
        i = i + 1;
    }
    out.push(groups[last]);
    proof {
        assert(out@ =~= old(out)@ + chained(groups@));
    }
}

/// A non-negative integer of any size.
#[derive(Debug, PartialEq, Eq)]
pub struct Nat {
    groups: Vec<u8>,
}

impl View for Nat {
    type V = nat;

    closed spec fn view(&self) -> nat {
        groups_value(self.groups@)
    }
}

impl Clone for Nat {
    fn clone(&self) -> (r: Self)
        ensures
            r@ == self@,
    {
        proof {
            use_type_invariant(self);
        }
        Nat { groups: self.groups.clone() }
    }
}

impl Nat {
    #[verifier::type_invariant]
    spec fn canonical(&self) -> bool {
        unsigned_canonical(self.groups@)
    }

    /// Reads a number of any size at `pos`.
    pub fn read(bytes: &[u8], pos: usize) -> (r: Result<(Nat, usize), DecodeError>)
        ensures
            match leb_end(bytes@, pos as int) {
                None => r == Err::<(Nat, usize), DecodeError>(DecodeError::UnexpectedEof),
                Some(end) => r matches Ok((n, e)) && e == end && n@ == uleb_value(
                    bytes@,
                    pos as int,
                ),
            },
    {
        match read_groups(bytes, pos) {
            None => Err(DecodeError::UnexpectedEof),
            Some((groups, end)) => {
                let mut groups = groups;
                proof {
                    lemma_payloads_unsigned(bytes@, pos as int, end as int);
                }
                while groups.len() > 1 && groups[groups.len() - 1] == 0
                    invariant
                        groups@.len() >= 1,
                        groups_in_range(groups@),
                        groups_value(groups@) == uleb_value(bytes@, pos as int),
                    decreases groups@.len(),
                {
                    proof {
                        lemma_drop_top_zero(groups@);
                    }
                    groups.pop();
                }
                Ok((Nat { groups }, end))
            },
        }
    }

    /// Appends the unsigned encoding of the number to `out`.
    pub fn write(&self, out: &mut Vec<u8>)
        ensures
            final(out)@ == old(out)@ + uleb128(self@),
    {
        proof {
            use_type_invariant(self);
            lemma_chained_unsigned(self.groups@);
        }
        write_groups(out, &self.groups);
    }

    /// The number `value`.
    pub fn from_u64(value: u64) -> (n: Nat)
        ensures
            n@ == value as nat,
    {
        let mut bytes: Vec<u8> = Vec::new();
        write_uleb128(&mut bytes, value);
        proof {
            assert(bytes@ =~= uleb128(value as nat));
            assert(bytes@.subrange(0, bytes@.len() as int) =~= bytes@);
            lemma_uleb_round_trip(bytes@, 0, value as nat);
        }
        match Nat::read(bytes.as_slice(), 0) {
            Ok((n, _)) => n,
            Err(_) => Nat { groups: vec![0u8] },
        }
    }

    /// The number as 64 bits, if it fits.
    pub fn to_u64(&self) -> (r: Option<u64>)
        ensures
            r == (if self@ <= u64::MAX { Some(self@ as u64) } else { None }),
    {
        let mut bytes: Vec<u8> = Vec::new();
        self.write(&mut bytes);
        proof {
            assert(bytes@ =~= uleb128(self@));
            assert(bytes@.subrange(0, bytes@.len() as int) =~= bytes@);
            lemma_uleb_round_trip(bytes@, 0, self@);
        }
        match read_uleb128(bytes.as_slice(), 0) {
            Ok((v, _)) => Some(v),
            Err(_) => None,
        }
    }
}

} // verus!

verus! {

/// A signed integer of any size.
#[derive(Debug, PartialEq, Eq)]
pub struct Int {
    groups: Vec<u8>,
}

impl View for Int {
    type V = int;

    closed spec fn view(&self) -> int {
        signed_groups_value(self.groups@)
    }
}

impl Clone for Int {
    fn clone(&self) -> (r: Self)
        ensures
            r@ == self@,
    {
        proof {
            use_type_invariant(self);
        }
        Int { groups: self.groups.clone() }
    }
}

proof fn lemma_pow128_monotonic(a: nat, b: nat)
    requires
        a <= b,
    ensures
        pow128(a) <= pow128(b),
    decreases b,
{
    if a < b {
        lemma_pow128_monotonic(a, (b - 1) as nat);
    }
}

proof fn lemma_in_range_subrange(g: Seq<u8>, from: int)
    requires
        groups_in_range(g),
        0 <= from <= g.len(),
    ensures
        groups_in_range(g.subrange(from, g.len() as int)),
{
    let s = g.subrange(from, g.len() as int);
    assert forall|k: int| 0 <= k < s.len() implies #[trigger] s[k] < 128 by {
        assert(s[k] == g[from + k]);
    }
}

impl Int {
    #[verifier::type_invariant]
    spec fn canonical(&self) -> bool {
        signed_canonical(self.groups@)
    }

    /// Reads a signed number of any size at `pos`.
    pub fn read(bytes: &[u8], pos: usize) -> (r: Result<(Int, usize), DecodeError>)
        ensures
            match leb_end(bytes@, pos as int) {
                None => r == Err::<(Int, usize), DecodeError>(DecodeError::UnexpectedEof),
                Some(end) => r matches Ok((n, e)) && e == end && n@ == sleb_value(
                    bytes@,
                    pos as int,
                ),
            },
    {
        match read_groups(bytes, pos) {
            None => Err(DecodeError::UnexpectedEof),
            Some((groups, end)) => {
                let mut groups = groups;
                proof {
                    lemma_payloads_unsigned(bytes@, pos as int, end as int);
                }
                loop
                    invariant
                        groups@.len() >= 1,
                        groups_in_range(groups@),
                        signed_groups_value(groups@) == sleb_value(bytes@, pos as int),
                    ensures
                        !top_is_padding(groups@),
                    decreases groups@.len(),
                {
                    let n: usize = groups.len();
                    if n < 2 {
                        break ;
                    }
                    let top: u8 = groups[n - 1];
                    let below: u8 = groups[n - 2];
                    if !((top == 0 && below < 64) || (top == 127 && below >= 64)) {
                        break ;
                    }
                    proof {
                        lemma_drop_top_padding(groups@);
                    }
                    groups.pop();
                }
                Ok((Int { groups }, end))
            },
        }
    }

    /// Appends the signed encoding of the number to `out`.
    pub fn write(&self, out: &mut Vec<u8>)
        ensures
            final(out)@ == old(out)@ + sleb128(self@),
    {
        proof {
            use_type_invariant(self);
            lemma_chained_signed(self.groups@);
        }
        write_groups(out, &self.groups);
    }

    /// The number `value`.
    pub fn from_i64(value: i64) -> (n: Int)
        ensures
            n@ == value as int,
    {
        let mut bytes: Vec<u8> = Vec::new();
        write_sleb128(&mut bytes, value);
        proof {
            assert(bytes@ =~= sleb128(value as int));
            assert(bytes@.subrange(0, bytes@.len() as int) =~= bytes@);
            lemma_sleb_round_trip(bytes@, 0, value as int);
        }
        match Int::read(bytes.as_slice(), 0) {
            Ok((n, _)) => n,
            Err(_) => Int { groups: vec![0u8] },
        }
    }

    /// The number as 64 bits, if it fits.
    pub fn to_i64(&self) -> (r: Option<i64>)
        ensures
            r == (if i64::MIN <= self@ <= i64::MAX { Some(self@ as i64) } else { None }),
    {
        proof {
            use_type_invariant(self);
            lemma_signed_bounds(self.groups@);
            crate::leb128::lemma_pow128_values();
        }
        let n: usize = self.groups.len();
        if n > 10 {
            proof {
                lemma_pow128_monotonic(9, (n - 2) as nat);
            }
            return None;
        }
        let top: u8 = self.groups[n - 1];
        let mut val: i128 = if top < 64 { top as i128 } else { top as i128 - 128 };
        let mut k: usize = n - 1;
        proof {
            let s = self.groups@.subrange(k as int, n as int);
            assert(s.len() == 1 && s[0] == top);
        }
        while k > 0
            invariant
                k < n <= 10,
                n == self.groups@.len(),
                groups_in_range(self.groups@),
                val == signed_groups_value(self.groups@.subrange(k as int, n as int)),
            decreases k,
        {
            proof {
                let s = self.groups@.subrange(k as int, n as int);
                let t = self.groups@.subrange(k - 1, n as int);
                lemma_in_range_subrange(self.groups@, k as int);
                lemma_signed_bounds(s);
                lemma_pow128_monotonic((s.len() - 1) as nat, 9);
                crate::leb128::lemma_pow128_values();
                assert(t.drop_first() =~= s);
                assert(t[0] == self.groups@[k - 1]);
                assert(self.groups@[k - 1] < 128);
            }
            val = val * 128 + self.groups[k - 1] as i128;
            k = k - 1;
        }
        proof {
            assert(self.groups@.subrange(0, n as int) =~= self.groups@);
        }
        if val < i64::MIN as i128 || val > i64::MAX as i128 {
            None
        } else {
            Some(val as i64)
        }
    }
}

/// Reads a signed number at `pos` into 64 bits.
pub fn read_sleb128(bytes: &[u8], pos: usize) -> (r: Result<(i64, usize), DecodeError>)
    ensures
        match crate::leb128::read_sleb_spec(bytes@, pos as int, i64::MIN as int, i64::MAX as int) {
            Ok((v, end)) => r matches Ok((rv, rend)) && rv == v && rend == end,
            Err(e) => r == Err::<(i64, usize), DecodeError>(e),
        },
{
    match Int::read(bytes, pos) {
        Err(e) => Err(e),
        Ok((n, end)) => match n.to_i64() {
            None => Err(DecodeError::Overflow),
            Some(v) => Ok((v, end)),
        },
    }
}

} // verus!
