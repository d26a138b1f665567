//! The primitive values of the wire format, read from the front of a byte
//! slice by the `postcard` crate, and text, checked by the standard library.
//!
//! The functions here are not verified: each one makes one call, and its
//! contract says what is claimed of that call.

use vstd::prelude::*;
use vstd::utf8::{decode_utf8, valid_utf8};

verus! {

/// Why a value could not be read.
#[derive(Debug, Clone, Copy, PartialEq, Eq, Structural)]
pub enum WireError {
    /// The bytes end before the value does.
    UnexpectedEnd,
    /// The bytes cannot be the value, however many more follow.
    Malformed,
}

/// The variable-length 32-bit unsigned integer at the front of `bytes`, and
/// the number of bytes that follow it.
pub uninterp spec fn wire_u32(bytes: Seq<u8>) -> Result<(u32, usize), WireError>;

/// The variable-length 64-bit unsigned integer at the front of `bytes`, and
/// the number of bytes that follow it.
pub uninterp spec fn wire_u64(bytes: Seq<u8>) -> Result<(u64, usize), WireError>;

/// The variable-length, zigzag-coded 64-bit signed integer at the front of
/// `bytes`, and the number of bytes that follow it.
pub uninterp spec fn wire_i64(bytes: Seq<u8>) -> Result<(i64, usize), WireError>;

/// The boolean at the front of `bytes`, and the number of bytes that follow
/// it.
pub uninterp spec fn wire_bool(bytes: Seq<u8>) -> Result<(bool, usize), WireError>;

/// The optional 64-bit unsigned integer at the front of `bytes`, and the
/// number of bytes that follow it.
pub uninterp spec fn wire_option_u64(bytes: Seq<u8>) -> Result<(Option<u64>, usize), WireError>;

/// Calls `postcard::take_from_bytes::<u32>`.
///
/// Claimed: the outcome is a function of the bytes alone; when a value is
/// read, at least one byte was used, and the count handed back is that of
/// the bytes that were not. An input that ends too early is reported as
/// such, every other failure as malformed.
#[verifier::external_body]
pub(crate) fn take_u32(bytes: &[u8]) -> (taken: Result<(u32, usize), WireError>)
    ensures
        taken == wire_u32(bytes@),
        taken matches Ok((_, rest)) ==> rest < bytes@.len(),
{
    match postcard::take_from_bytes::<u32>(bytes) {
        Ok((value, rest)) => Ok((value, rest.len())),
        Err(postcard::Error::DeserializeUnexpectedEnd) => Err(WireError::UnexpectedEnd),
        Err(_) => Err(WireError::Malformed),
    }
}

/// Calls `postcard::take_from_bytes::<u64>`.
///
/// Claimed: the outcome is a function of the bytes alone; when a value is
/// read, at least one byte was used, and the count handed back is that of
/// the bytes that were not. An input that ends too early is reported as
/// such, every other failure as malformed.
#[verifier::external_body]
pub(crate) fn take_u64(bytes: &[u8]) -> (taken: Result<(u64, usize), WireError>)
    ensures
        taken == wire_u64(bytes@),
        taken matches Ok((_, rest)) ==> rest < bytes@.len(),
{
    match postcard::take_from_bytes::<u64>(bytes) {
        Ok((value, rest)) => Ok((value, rest.len())),
        Err(postcard::Error::DeserializeUnexpectedEnd) => Err(WireError::UnexpectedEnd),
        Err(_) => Err(WireError::Malformed),
    }
}

/// Calls `postcard::take_from_bytes::<i64>`.
///
/// Claimed: the outcome is a function of the bytes alone; when a value is
/// read, at least one byte was used, and the count handed back is that of
/// the bytes that were not. An input that ends too early is reported as
/// such, every other failure as malformed.
#[verifier::external_body]
pub(crate) fn take_i64(bytes: &[u8]) -> (taken: Result<(i64, usize), WireError>)
    ensures
        taken == wire_i64(bytes@),
        taken matches Ok((_, rest)) ==> rest < bytes@.len(),
{
    match postcard::take_from_bytes::<i64>(bytes) {
        Ok((value, rest)) => Ok((value, rest.len())),
        Err(postcard::Error::DeserializeUnexpectedEnd) => Err(WireError::UnexpectedEnd),
        Err(_) => Err(WireError::Malformed),
    }
}

/// Calls `postcard::take_from_bytes::<bool>`.
///
/// Claimed: the outcome is a function of the bytes alone; when a value is
/// read, one byte was used, and the count handed back is that of the bytes
/// that were not. An input that ends too early is reported as such, every
/// other failure as malformed.
#[verifier::external_body]
pub(crate) fn take_bool(bytes: &[u8]) -> (taken: Result<(bool, usize), WireError>)
    ensures
        taken == wire_bool(bytes@),
        taken matches Ok((_, rest)) ==> rest < bytes@.len(),
{
    match postcard::take_from_bytes::<bool>(bytes) {
        Ok((value, rest)) => Ok((value, rest.len())),
        Err(postcard::Error::DeserializeUnexpectedEnd) => Err(WireError::UnexpectedEnd),
        Err(_) => Err(WireError::Malformed),
    }
}

/// Calls `postcard::take_from_bytes::<Option<u64>>`.
///
/// Claimed: the outcome is a function of the bytes alone; when a value is
/// read, at least one byte was used, and the count handed back is that of
/// the bytes that were not. An input that ends too early is reported as
/// such, every other failure as malformed.
#[verifier::external_body]
pub(crate) fn take_option_u64(bytes: &[u8]) -> (taken: Result<(Option<u64>, usize), WireError>)
    ensures
        taken == wire_option_u64(bytes@),
        taken matches Ok((_, rest)) ==> rest < bytes@.len(),
{
    match postcard::take_from_bytes::<Option<u64>>(bytes) {
        Ok((value, rest)) => Ok((value, rest.len())),
        Err(postcard::Error::DeserializeUnexpectedEnd) => Err(WireError::UnexpectedEnd),
        Err(_) => Err(WireError::Malformed),
    }
}

/// Calls `std::str::from_utf8` and copies the text that it finds.
///
/// Claimed, as the standard library documents it: the bytes are accepted
/// exactly when they are valid UTF-8, and the text is what they encode.
#[verifier::external_body]
pub(crate) fn text_of(bytes: &[u8]) -> (text: Option<String>)
    ensures
        text is Some == valid_utf8(bytes@),
        text matches Some(t) ==> t@ == decode_utf8(bytes@),
{
    match std::str::from_utf8(bytes) {
        Ok(text) => Some(text.to_owned()),
        Err(_) => None,
    }
}

} // verus!
