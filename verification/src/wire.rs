//! Sequences on the wire: what writing each item in turn gives, and what
//! reading a counted run of items gives.

use vstd::prelude::*;
use crate::error::DecodeError;
use crate::leb128::holds_at;

verus! {

/// The encodings of the items of `s`, one after the other.
pub open spec fn concat_map<T>(s: Seq<T>, f: spec_fn(T) -> Seq<u8>) -> Seq<u8>
    decreases s.len(),
{
    if s.len() == 0 {
        Seq::empty()
    } else {
        f(s[0]) + concat_map(s.drop_first(), f)
    }
}

/// What reading `n` items in a row from `pos` gives: the items and the index
/// just past the last, or the first error met.
pub open spec fn parse_many<T>(
    bytes: Seq<u8>,
    pos: int,
    n: nat,
    one: spec_fn(Seq<u8>, int) -> Result<(T, int), DecodeError>,
) -> Result<(Seq<T>, int), DecodeError>
    decreases n,
{
    if n == 0 {
        Ok((Seq::empty(), pos))
    } else {
        match one(bytes, pos) {
            Err(e) => Err(e),
            Ok((x, next)) => match parse_many(bytes, next, (n - 1) as nat, one) {
                Err(e) => Err(e),
                Ok((xs, end)) => Ok((seq![x] + xs, end)),
            },
        }
    }
}

/// `done` put before what a read gives.
pub open spec fn prepend<T>(done: Seq<T>, rest: Result<(Seq<T>, int), DecodeError>) -> Result<
    (Seq<T>, int),
    DecodeError,
> {
    match rest {
        Err(e) => Err(e),
        Ok((xs, end)) => Ok((done + xs, end)),
    }
}

pub proof fn lemma_concat_map_step<T>(s: Seq<T>, f: spec_fn(T) -> Seq<u8>, i: int)
    requires
        0 <= i < s.len(),
    ensures
        concat_map(s.subrange(i, s.len() as int), f) == f(s[i]) + concat_map(
            s.subrange(i + 1, s.len() as int),
            f,
        ),
{
    let tail = s.subrange(i, s.len() as int);
    assert(tail.drop_first() =~= s.subrange(i + 1, s.len() as int));
}

pub proof fn lemma_concat_map_ends<T>(s: Seq<T>, f: spec_fn(T) -> Seq<u8>)
    ensures
        concat_map(s.subrange(0, s.len() as int), f) == concat_map(s, f),
        concat_map(s.subrange(s.len() as int, s.len() as int), f) == Seq::<u8>::empty(),
{
    assert(s.subrange(0, s.len() as int) =~= s);
}

/// One item put before what a read gives.
pub open spec fn with_first<T>(x: T, rest: Result<(Seq<T>, int), DecodeError>) -> Result<
    (Seq<T>, int),
    DecodeError,
> {
    match rest {
        Err(e) => Err(e),
        Ok((xs, end)) => Ok((seq![x] + xs, end)),
    }
}

pub proof fn lemma_prepend_first<T>(done: Seq<T>, x: T, rest: Result<(Seq<T>, int), DecodeError>)
    ensures
        prepend(done, with_first(x, rest)) == prepend(done.push(x), rest),
{
    match rest {
        Err(e) => {},
        Ok((xs, end)) => {
            assert(done + (seq![x] + xs) =~= done.push(x) + xs);
        },
    }
}

pub proof fn lemma_prepend_nothing<T>(rest: Result<(Seq<T>, int), DecodeError>, done: Seq<T>, pos: int)
    ensures
        prepend(Seq::<T>::empty(), rest) == rest,
        prepend(done, Ok::<(Seq<T>, int), DecodeError>((Seq::<T>::empty(), pos))) == Ok::<
            (Seq<T>, int),
            DecodeError,
        >((done, pos)),
{
    assert(done + Seq::<T>::empty() =~= done);
    match rest {
        Err(e) => {},
        Ok((xs, end)) => {
            assert(Seq::<T>::empty() + xs =~= xs);
        },
    }
}

/// Reading one item more: what was read so far, put before the rest, is
/// what the whole read gives.
pub proof fn lemma_parse_many_step<T>(
    bytes: Seq<u8>,
    pos: int,
    n: nat,
    one: spec_fn(Seq<u8>, int) -> Result<(T, int), DecodeError>,
    done: Seq<T>,
)
    requires
        n > 0,
    ensures
        prepend(done, parse_many(bytes, pos, n, one)) == (match one(bytes, pos) {
            Err(e) => Err(e),
            Ok((x, next)) => prepend(done.push(x), parse_many(bytes, next, (n - 1) as nat, one)),
        }),
{
    match one(bytes, pos) {
        Err(e) => {},
        Ok((x, next)) => {
            match parse_many(bytes, next, (n - 1) as nat, one) {
                Err(e) => {},
                Ok((xs, end)) => {
                    assert(done + (seq![x] + xs) =~= done.push(x) + xs);
                },
            }
        },
    }
}

pub proof fn lemma_prepend_ends<T>(
    bytes: Seq<u8>,
    pos: int,
    n: nat,
    one: spec_fn(Seq<u8>, int) -> Result<(T, int), DecodeError>,
    done: Seq<T>,
)
    ensures
        prepend(done, parse_many(bytes, pos, 0, one)) == Ok::<(Seq<T>, int), DecodeError>(
            (done, pos),
        ),
        prepend(Seq::<T>::empty(), parse_many(bytes, pos, n, one)) == parse_many(
            bytes,
            pos,
            n,
            one,
        ),
{
    assert(done + Seq::<T>::empty() =~= done);
    match parse_many(bytes, pos, n, one) {
        Err(e) => {},
        Ok((xs, end)) => {
            assert(Seq::<T>::empty() + xs =~= xs);
        },
    }
}

/// An exec result says what a spec result says.
pub open spec fn same_list<T>(
    r: Result<(Vec<T>, usize), DecodeError>,
    s: Result<(Seq<T>, int), DecodeError>,
) -> bool {
    match s {
        Ok((xs, end)) => r matches Ok((rv, rend)) && rv@ == xs && rend == end,
        Err(e) => r == Err::<(Vec<T>, usize), DecodeError>(e),
    }
}

/// Where reading one item gives back each written item and stops just past
/// it, reading as many as were written gives back them all.
pub proof fn lemma_parse_many_round_trip<T>(
    bytes: Seq<u8>,
    pos: int,
    s: Seq<T>,
    f: spec_fn(T) -> Seq<u8>,
    one: spec_fn(Seq<u8>, int) -> Result<(T, int), DecodeError>,
)
    requires
        holds_at(bytes, pos, concat_map(s, f)),
        forall|k: int, p: int|
            0 <= k < s.len() && holds_at(bytes, p, f(s[k])) ==> #[trigger] one(bytes, p) == Ok::<
                (T, int),
                DecodeError,
            >((#[trigger] s[k], p + f(s[k]).len())),
    ensures
        parse_many(bytes, pos, s.len(), one) == Ok::<(Seq<T>, int), DecodeError>(
            (s, pos + concat_map(s, f).len()),
        ),
    decreases s.len(),
{
    if s.len() > 0 {
        let rest = s.drop_first();
        crate::leb128::lemma_holds_at_split(bytes, pos, f(s[0]), concat_map(rest, f));
        assert(one(bytes, pos) == Ok::<(T, int), DecodeError>((s[0], pos + f(s[0]).len())));
        assert forall|k: int, p: int|
            0 <= k < rest.len() && holds_at(bytes, p, f(rest[k])) implies #[trigger] one(bytes, p)
            == Ok::<(T, int), DecodeError>((#[trigger] rest[k], p + f(rest[k]).len())) by {
            assert(rest[k] == s[k + 1]);
        }
        lemma_parse_many_round_trip(bytes, pos + f(s[0]).len(), rest, f, one);
        assert(seq![s[0]] + rest =~= s);
        assert(rest.len() == (s.len() - 1) as nat);
        assert(concat_map(s, f).len() == f(s[0]).len() + concat_map(rest, f).len());
    } else {
        assert(s =~= Seq::<T>::empty());
    }
}

/// Appends `bytes` to `out`.
pub fn append_bytes(out: &mut Vec<u8>, bytes: &[u8])
    ensures
        final(out)@ == old(out)@ + bytes@,
{
    let mut i: usize = 0;
    while i < bytes.len()
        invariant
            i <= bytes@.len(),
            out@ == old(out)@ + bytes@.subrange(0, i as int),
        decreases bytes.len() - i,
    {
        out.push(bytes[i]);
        i = i + 1;
        proof {
            assert(out@ =~= old(out)@ + bytes@.subrange(0, i as int));
        }
    }
    proof {
        assert(bytes@.subrange(0, i as int) =~= bytes@);
    }
}

} // verus!

verus! {

/// Reads a count or a length at `pos`: an unsigned number that fits `usize`.
pub fn read_count(bytes: &[u8], pos: usize) -> (r: Result<(usize, usize), DecodeError>)
    ensures
        match crate::leb128::read_uleb_spec(bytes@, pos as int, usize::MAX as nat) {
            Ok((v, end)) => r matches Ok((rv, rend)) && rv == v && rend == end,
            Err(e) => r == Err::<(usize, usize), DecodeError>(e),
        },
{
    match crate::leb128::read_uleb128(bytes, pos) {
        Err(e) => Err(e),
        Ok((v, end)) => if v > usize::MAX as u64 {
            Err(DecodeError::Overflow)
        } else {
            Ok((v as usize, end))
        },
    }
}

/// Reads a 32-bit key at `pos`.
pub fn read_key(bytes: &[u8], pos: usize) -> (r: Result<(u32, usize), DecodeError>)
    ensures
        match crate::leb128::read_uleb_spec(bytes@, pos as int, u32::MAX as nat) {
            Ok((v, end)) => r matches Ok((rv, rend)) && rv == v && rend == end,
            Err(e) => r == Err::<(u32, usize), DecodeError>(e),
        },
{
    match crate::leb128::read_uleb128(bytes, pos) {
        Err(e) => Err(e),
        Ok((v, end)) => if v > u32::MAX as u64 {
            Err(DecodeError::Overflow)
        } else {
            Ok((v as u32, end))
        },
    }
}

} // verus!
