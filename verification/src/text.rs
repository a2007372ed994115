//! Texts on the wire, and the standard library's UTF-8 check.

use vstd::prelude::*;
use vstd::utf8::{decode_utf8, valid_utf8};
use crate::error::DecodeError;
use crate::leb128::read_uleb_spec;
use crate::wire::read_count;

verus! {

/// The standard library's error for bytes that are not UTF-8. It is only
/// told from success.
#[verifier::external_type_specification]
#[verifier::external_body]
pub struct ExFromUtf8Error(std::string::FromUtf8Error);

/// `String::from_utf8` succeeds exactly on well-formed UTF-8, and the string
/// it gives is made of the characters that the bytes spell.
pub assume_specification[ String::from_utf8 ](vec: Vec<u8>) -> (r: Result<
    String,
    std::string::FromUtf8Error,
>)
    ensures
        r is Ok == valid_utf8(vec@),
        r matches Ok(s) ==> s@ == decode_utf8(vec@),
;

/// What reading a length and as many bytes at `pos` gives.
pub open spec fn parse_blob(bytes: Seq<u8>, pos: int) -> Result<(Seq<u8>, int), DecodeError> {
    match read_uleb_spec(bytes, pos, usize::MAX as nat) {
        Err(e) => Err(e),
        Ok((n, start)) => if start + n > bytes.len() {
            Err(DecodeError::UnexpectedEof)
        } else {
            Ok((bytes.subrange(start, start + n), start + n))
        },
    }
}

/// What reading a text at `pos` gives: a length, then as many bytes of UTF-8.
pub open spec fn parse_text(bytes: Seq<u8>, pos: int) -> Result<(Seq<char>, int), DecodeError> {
    match parse_blob(bytes, pos) {
        Err(e) => Err(e),
        Ok((blob, end)) => if valid_utf8(blob) {
            Ok((decode_utf8(blob), end))
        } else {
            Err(DecodeError::InvalidUtf8)
        },
    }
}

/// Reads a length and as many bytes at `pos`.
pub fn read_blob(bytes: &[u8], pos: usize) -> (r: Result<(Vec<u8>, usize), DecodeError>)
    ensures
        match parse_blob(bytes@, pos as int) {
            Ok((blob, end)) => r matches Ok((rb, rend)) && rb@ == blob && rend == end,
            Err(e) => r == Err::<(Vec<u8>, usize), DecodeError>(e),
        },
{
    let (n, start) = match read_count(bytes, pos) {
        Ok(x) => x,
        Err(e) => { return Err(e); },
    };
    proof {
        crate::leb128::lemma_leb_end_bounds(bytes@, pos as int);
    }
    let total: usize = bytes.len();
    if n > total - start {
        return Err(DecodeError::UnexpectedEof);
    }
    let mut blob: Vec<u8> = Vec::new();
    let mut i: usize = 0;
    while i < n
        invariant
            i <= n,
            start + n <= total,
            total == bytes@.len(),
            blob@ == bytes@.subrange(start as int, start + i),
        decreases n - i,
    {
        blob.push(bytes[start + i]);
        i = i + 1;
        proof {
            assert(blob@ =~= bytes@.subrange(start as int, start + i));
        }
    }
    Ok((blob, start + n))
}

/// Reads a text at `pos`.
pub fn read_text(bytes: &[u8], pos: usize) -> (r: Result<(String, usize), DecodeError>)
    ensures
        match parse_text(bytes@, pos as int) {
            Ok((text, end)) => r matches Ok((rt, rend)) && rt@ == text && rend == end,
            Err(e) => r == Err::<(String, usize), DecodeError>(e),
        },
{
    let (blob, end) = match read_blob(bytes, pos) {
        Ok(x) => x,
        Err(e) => { return Err(e); },
    };
    match String::from_utf8(blob) {
        Ok(text) => Ok((text, end)),
        Err(_) => Err(DecodeError::InvalidUtf8),
    }
}

} // verus!
