//! The calls this library makes into std and outside crates, each with the
//! contract it relies on.
use vstd::prelude::*;
use vstd::string::StringSliceAdditionalSpecFns;
use vstd::utf8::valid_utf8;
use crate::codec::decimal;

verus! {

#[verifier::external_type_specification]
#[verifier::external_body]
pub struct ExSliceWriteError(embedded_io::SliceWriteError);

#[verifier::external_type_specification]
#[verifier::external_body]
#[verifier::reject_recursive_types(T)]
pub struct ExFrozenVec<T>(elsa::FrozenVec<T>);

/// Relies on numtoa's `BaseN::<10>::i64`: the base-10 text of `n` fills the
/// buffer from the returned start to its end.
#[verifier::external_body]
pub(crate) fn decimal_text(n: i64) -> (r: ([u8; 20], usize))
    ensures
        r.1 <= 20,
        r.0@.subrange(r.1 as int, 20) == decimal(n as int),
{
    numtoa::BaseN::<10>::i64(n).into_inner()
}

/// Relies on `core::str::from_utf8`: it accepts exactly the valid UTF-8
/// byte sequences and borrows them as a `str`.
#[verifier::external_body]
pub(crate) fn str_from_bytes<'e>(v: &'e [u8]) -> (r: Option<&'e str>)
    ensures
        r is Some <==> valid_utf8(v@),
        r matches Some(s) ==> s.spec_bytes() == v@,
{
    core::str::from_utf8(v).ok()
}

/// Relies on `String::from_utf8`: it accepts exactly the valid UTF-8 byte
/// sequences and takes them over as a `String`.
#[verifier::external_body]
pub(crate) fn string_from_bytes(v: Vec<u8>) -> (r: Option<String>)
    ensures
        r is Some <==> valid_utf8(v@),
        r matches Some(s) ==> vstd::utf8::encode_utf8(s@) == v@,
{
    String::from_utf8(v).ok()
}

/// Relies on embedded_io's `Write` for `&mut [u8]`: `write_all` copies as
/// much of `bytes` as fits into the front of the slice and moves the slice
/// past what it wrote; it fails with `Full` when not all of `bytes` fit.
#[verifier::external_body]
pub(crate) fn slice_write_all<'b>(out: &mut &'b mut [u8], bytes: &[u8]) -> (r: Result<
    (),
    embedded_io::SliceWriteError,
>)
    ensures
        r is Ok <==> bytes@.len() <= old(out)@.len(),
        r is Ok ==> final(*old(out))@ == bytes@ + final(*final(out))@,
        r is Ok ==> (*final(out))@ == old(out)@.subrange(bytes@.len() as int, old(out)@.len() as int),
        r is Err ==> final(*old(out))@ == bytes@.subrange(0, old(out)@.len() as int) + (*final(*final(out)))@,
        r is Err ==> (*final(out))@.len() == 0,
{
    embedded_io::Write::write_all(out, bytes)
}

/// Relies on elsa's `FrozenVec::push_get`: the string is moved into the
/// arena, which never moves or drops it while it lives, and a borrow of its
/// text comes back.
#[verifier::external_body]
pub(crate) fn arena_push<'e>(arena: &'e elsa::FrozenVec<String>, s: String) -> (r: &'e str)
    ensures
        r@ == s@,
{
    arena.push_get(s)
}

} // verus!
