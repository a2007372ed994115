//! Identities of the `ic_types` crate, which the codec carries as bytes.

use vstd::prelude::*;
use ic_types::Principal;
use crate::encode::{blob_bytes, value_bytes, write_blob};
use crate::error::EncodeError;
use crate::graph::Type;
use crate::types::{Prim, TableView, TypeRef};
use crate::value::{value_view, Value, ValueView};
use crate::wire::append_bytes;

verus! {

/// The identity type of `ic_types`. Nothing is known of what is in it but
/// through the items below.
#[verifier::external_type_specification]
#[verifier::external_body]
pub struct ExPrincipal(ic_types::Principal);

/// The error of `ic_types`. It is only told from success.
#[verifier::external_type_specification]
#[verifier::external_body]
pub struct ExPrincipalError(ic_types::PrincipalError);

/// The standard library's identity of a type. Nothing is known of it.
#[verifier::external_type_specification]
#[verifier::external_body]
pub struct ExTypeId(std::any::TypeId);

/// `TypeId::of` for the principal type. What it gives is the compiler's
/// choice, so nothing is claimed of it.
#[verifier::external_body]
fn principal_type_id() -> std::any::TypeId {
    std::any::TypeId::of::<ic_types::Principal>()
}

/// The bytes that a principal holds.
pub uninterp spec fn principal_bytes(p: ic_types::Principal) -> Seq<u8>;

/// `Principal::as_slice` hands out the bytes that the principal holds.
pub assume_specification[ ic_types::Principal::as_slice ](p: &ic_types::Principal) -> (r: &[u8])
    ensures
        r@ == principal_bytes(*p),
;

/// The byte strings that `ic_types` takes for a principal: at most 29 bytes,
/// and not ending in the byte 4 unless that is the only byte.
pub open spec fn accepted_as_principal(bytes: Seq<u8>) -> bool {
    bytes.len() <= 29 && !(bytes.len() >= 2 && bytes.last() == 4)
}

/// `Principal::try_from_slice` takes exactly the byte strings above, and the
/// principal that it makes holds the bytes it was given.
pub assume_specification[ ic_types::Principal::try_from_slice ](bytes: &[u8]) -> (r: Result<
    ic_types::Principal,
    ic_types::PrincipalError,
>)
    ensures
        r is Ok <==> accepted_as_principal(bytes@),
        r matches Ok(p) ==> principal_bytes(p) == bytes@,
;

/// The bytes are not those of a principal.
#[derive(Debug, Clone, Copy, PartialEq, Eq, Structural)]
pub struct InvalidPrincipal;

/// The principal with the given bytes, where `ic_types` takes them for one.
pub fn principal_from_bytes(bytes: &[u8]) -> (r: Result<Principal, InvalidPrincipal>)
    ensures
        r is Ok <==> accepted_as_principal(bytes@),
        r matches Ok(p) ==> principal_bytes(p) == bytes@,
{
    match Principal::try_from_slice(bytes) {
        Ok(p) => Ok(p),
        Err(_) => Err(InvalidPrincipal),
    }
}

/// The principal as a value.
pub fn principal_value(p: &Principal) -> (v: Value)
    ensures
        v@ == ValueView::Principal(principal_bytes(*p)),
{
    let mut id: Vec<u8> = Vec::new();
    append_bytes(&mut id, p.as_slice());
    proof {
        reveal_with_fuel(value_view, 1);
        assert(id@ =~= principal_bytes(*p));
    }
    Value::Principal(id)
}

/// What a principal writes of itself is what its value is written as, under
/// any table. So a principal that wrote itself is read back as its value.
pub proof fn law_written_as_its_value(p: Principal, table: TableView)
    ensures
        p.written() == value_bytes(
            table,
            TypeRef::Prim(Prim::Principal),
            ValueView::Principal(principal_bytes(p)),
        ),
{
}

/// The principal that a value holds, if it holds one that `ic_types` takes.
pub fn value_principal(v: &Value) -> (r: Option<Principal>)
    ensures
        match v@ {
            ValueView::Principal(id) => r is Some <==> accepted_as_principal(id),
            _ => r is None,
        },
        r matches Some(p) ==> v@ == ValueView::Principal(principal_bytes(p)),
{
    proof {
        reveal_with_fuel(value_view, 1);
    }
    match v {
        Value::Principal(id) => match principal_from_bytes(id.as_slice()) {
            Ok(p) => Some(p),
            Err(_) => None,
        },
        _ => None,
    }
}

/// Where the bytes of values are gathered.
pub struct ValueSerializer {
    pub out: Vec<u8>,
}

impl View for ValueSerializer {
    type V = Seq<u8>;

    open spec fn view(&self) -> Seq<u8> {
        self.out@
    }
}

impl ValueSerializer {
    /// A serializer that holds nothing yet.
    pub fn new() -> (s: ValueSerializer)
        ensures
            s@ == Seq::<u8>::empty(),
    {
        ValueSerializer { out: Vec::new() }
    }
}

/// What values write themselves to.
pub trait Serializer {
    /// What may go wrong while writing.
    type Error;

    /// The bytes that were written so far.
    spec fn bytes(&self) -> Seq<u8>;

    /// Appends a principal: the number of its bytes, then the bytes.
    fn serialize_principal(&mut self, id: &[u8]) -> (r: Result<(), Self::Error>)
        ensures
            r is Ok ==> final(self).bytes() == old(self).bytes() + blob_bytes(id@),
    ;
}

impl Serializer for ValueSerializer {
    type Error = EncodeError;

    open spec fn bytes(&self) -> Seq<u8> {
        self.out@
    }

    /// Appends a principal: the number of its bytes, then the bytes. This
    /// serializer never fails.
    fn serialize_principal(&mut self, id: &[u8]) -> (r: Result<(), EncodeError>)
        ensures
            r is Ok,
    {
        write_blob(&mut self.out, id);
        Ok(())
    }
}

/// What can say of what type it is and write itself as a value of that type.
pub trait CandidType {
    /// The bytes that this value is written as.
    spec fn written(&self) -> Seq<u8>;

    /// The identity of the implementing type among the types of one build.
    fn id() -> std::any::TypeId;

    /// The type of every value of the implementing type.
    fn _ty() -> Type;

    /// Appends the bytes of this value to what the serializer holds.
    fn idl_serialize<S: Serializer>(&self, serializer: &mut S) -> (r: Result<(), S::Error>)
        ensures
            r is Ok ==> final(serializer).bytes() == old(serializer).bytes() + self.written(),
    ;
}

impl CandidType for Principal {
    open spec fn written(&self) -> Seq<u8> {
        blob_bytes(principal_bytes(*self))
    }

    fn id() -> std::any::TypeId {
        principal_type_id()
    }

    fn _ty() -> (t: Type)
        ensures
            t == Type::Prim(Prim::Principal),
    {
        Type::Prim(Prim::Principal)
    }

    fn idl_serialize<S: Serializer>(&self, serializer: &mut S) -> (r: Result<(), S::Error>) {
        serializer.serialize_principal(self.as_slice())
    }
}

} // verus!
