//! The decoder: one framed record at a time, from a position in a byte
//! buffer.
//!
//! A record is a variable-length tag followed by its fields in order. The tag
//! is 0 for a start, 1 for an end, 2 for an enter, 3 for an exit and 4 for an
//! event. An attribute value is a tag followed by its payload: 0 a string,
//! 1 a boolean, 2 an unsigned integer, 3 a signed integer, 4 the eight
//! little-endian bytes of a floating-point number.

use vstd::bytes::{spec_u64_from_le_bytes, u64_from_le_bytes};
use vstd::prelude::*;
use vstd::slice::slice_subrange;
use vstd::utf8::{decode_utf8, valid_utf8};
use crate::row::{values_view, RowModel, TraceRow, TraceValue, ValueModel};
use crate::wire::{
    take_bool, take_i64, take_option_u64, take_u32, take_u64, text_of, wire_bool, wire_i64,
    wire_option_u64, wire_u32, wire_u64, WireError,
};

verus! {

/// What is left of `bytes` when only the last `rest` bytes are.
pub open spec fn left_over(bytes: Seq<u8>, rest: usize) -> Seq<u8> {
    bytes.skip(bytes.len() - rest)
}

/// The 32-bit unsigned integer at the front of `bytes`, and the bytes after
/// it.
pub open spec fn parse_u32(bytes: Seq<u8>) -> Result<(u32, Seq<u8>), WireError> {
    match wire_u32(bytes) {
        Ok((value, rest)) => Ok((value, left_over(bytes, rest))),
        Err(e) => Err(e),
    }
}

/// The 64-bit unsigned integer at the front of `bytes`, and the bytes after
/// it.
pub open spec fn parse_u64(bytes: Seq<u8>) -> Result<(u64, Seq<u8>), WireError> {
    match wire_u64(bytes) {
        Ok((value, rest)) => Ok((value, left_over(bytes, rest))),
        Err(e) => Err(e),
    }
}

/// The 64-bit signed integer at the front of `bytes`, and the bytes after
/// it.
pub open spec fn parse_i64(bytes: Seq<u8>) -> Result<(i64, Seq<u8>), WireError> {
    match wire_i64(bytes) {
        Ok((value, rest)) => Ok((value, left_over(bytes, rest))),
        Err(e) => Err(e),
    }
}

/// The boolean at the front of `bytes`, and the bytes after it.
pub open spec fn parse_bool(bytes: Seq<u8>) -> Result<(bool, Seq<u8>), WireError> {
    match wire_bool(bytes) {
        Ok((value, rest)) => Ok((value, left_over(bytes, rest))),
        Err(e) => Err(e),
    }
}

/// The optional 64-bit unsigned integer at the front of `bytes`, and the
/// bytes after it.
pub open spec fn parse_option_u64(bytes: Seq<u8>) -> Result<(Option<u64>, Seq<u8>), WireError> {
    match wire_option_u64(bytes) {
        Ok((value, rest)) => Ok((value, left_over(bytes, rest))),
        Err(e) => Err(e),
    }
}

/// The string at the front of `bytes`, which is its length in bytes and
/// then its text in UTF-8, and the bytes after it.
pub open spec fn parse_string(bytes: Seq<u8>) -> Result<(Seq<char>, Seq<u8>), WireError> {
    match parse_u64(bytes) {
        Err(e) => Err(e),
        Ok((len, rest)) => if len > rest.len() {
            Err(WireError::UnexpectedEnd)
        } else if valid_utf8(rest.take(len as int)) {
            Ok((decode_utf8(rest.take(len as int)), rest.skip(len as int)))
        } else {
            Err(WireError::Malformed)
        },
    }
}

/// The bit pattern of the floating-point number at the front of `bytes`,
/// which is its first eight bytes, least significant first, and the bytes
/// after it.
pub open spec fn parse_float_bits(bytes: Seq<u8>) -> Result<(u64, Seq<u8>), WireError> {
    if 8 <= bytes.len() {
        Ok((spec_u64_from_le_bytes(bytes.subrange(0, 8)), bytes.skip(8)))
    } else {
        Err(WireError::UnexpectedEnd)
    }
}

/// The attribute value at the front of `bytes`, and the bytes after it.
pub open spec fn parse_value(bytes: Seq<u8>) -> Result<(ValueModel, Seq<u8>), WireError> {
    match parse_u32(bytes) {
        Err(e) => Err(e),
        Ok((tag, at)) => if tag == 0 {
            match parse_string(at) {
                Ok((text, end)) => Ok((ValueModel::String(text), end)),
                Err(e) => Err(e),
            }
        } else if tag == 1 {
            match parse_bool(at) {
                Ok((b, end)) => Ok((ValueModel::Bool(b), end)),
                Err(e) => Err(e),
            }
        } else if tag == 2 {
            match parse_u64(at) {
                Ok((n, end)) => Ok((ValueModel::UInt(n), end)),
                Err(e) => Err(e),
            }
        } else if tag == 3 {
            match parse_i64(at) {
                Ok((i, end)) => Ok((ValueModel::Int(i), end)),
                Err(e) => Err(e),
            }
        } else if tag == 4 {
            match parse_float_bits(at) {
                Ok((bits, end)) => Ok((ValueModel::Float(bits), end)),
                Err(e) => Err(e),
            }
        } else {
            Err(WireError::Malformed)
        },
    }
}

/// The attribute at the front of `bytes`, a key and a value, and the bytes
/// after it.
pub open spec fn parse_pair(bytes: Seq<u8>) -> Result<
    ((Seq<char>, ValueModel), Seq<u8>),
    WireError,
> {
    match parse_string(bytes) {
        Err(e) => Err(e),
        Ok((key, at)) => match parse_value(at) {
            Err(e) => Err(e),
            Ok((value, end)) => Ok(((key, value), end)),
        },
    }
}

/// `so_far` followed by the `count` attributes at the front of `bytes`, and
/// the bytes after them.
pub open spec fn parse_pairs(
    bytes: Seq<u8>,
    count: nat,
    so_far: Seq<(Seq<char>, ValueModel)>,
) -> Result<(Seq<(Seq<char>, ValueModel)>, Seq<u8>), WireError>
    decreases count,
{
    if count == 0 {
        Ok((so_far, bytes))
    } else {
        match parse_pair(bytes) {
            Err(e) => Err(e),
            Ok((pair, at)) => parse_pairs(at, (count - 1) as nat, so_far.push(pair)),
        }
    }
}

/// The attribute list at the front of `bytes`, a count and that many
/// attributes, and the bytes after it.
pub open spec fn parse_values(bytes: Seq<u8>) -> Result<
    (Seq<(Seq<char>, ValueModel)>, Seq<u8>),
    WireError,
> {
    match parse_u64(bytes) {
        Err(e) => Err(e),
        Ok((count, at)) => parse_pairs(at, count as nat, Seq::empty()),
    }
}

/// The two integers at the front of `bytes`, and the bytes after them.
pub open spec fn parse_two(bytes: Seq<u8>) -> Result<((u64, u64), Seq<u8>), WireError> {
    match parse_u64(bytes) {
        Err(e) => Err(e),
        Ok((first, at)) => match parse_u64(at) {
            Err(e) => Err(e),
            Ok((second, end)) => Ok(((first, second), end)),
        },
    }
}

/// The three integers at the front of `bytes`, and the bytes after them.
pub open spec fn parse_three(bytes: Seq<u8>) -> Result<((u64, u64, u64), Seq<u8>), WireError> {
    match parse_two(bytes) {
        Err(e) => Err(e),
        Ok(((first, second), at)) => match parse_u64(at) {
            Err(e) => Err(e),
            Ok((third, end)) => Ok(((first, second, third), end)),
        },
    }
}

/// The fields of a start at the front of `bytes`, and the bytes after them.
pub open spec fn parse_start(bytes: Seq<u8>) -> Result<(RowModel, Seq<u8>), WireError> {
    match parse_two(bytes) {
        Err(e) => Err(e),
        Ok(((ts, id), at_parent)) => match parse_option_u64(at_parent) {
            Err(e) => Err(e),
            Ok((parent, at_name)) => match parse_string(at_name) {
                Err(e) => Err(e),
                Ok((name, at_target)) => match parse_string(at_target) {
                    Err(e) => Err(e),
                    Ok((target, at_values)) => match parse_values(at_values) {
                        Err(e) => Err(e),
                        Ok((values, end)) => Ok(
                            (RowModel::Start { ts, id, parent, name, target, values }, end),
                        ),
                    },
                },
            },
        },
    }
}

/// The fields of an event at the front of `bytes`, and the bytes after them.
pub open spec fn parse_event(bytes: Seq<u8>) -> Result<(RowModel, Seq<u8>), WireError> {
    match parse_u64(bytes) {
        Err(e) => Err(e),
        Ok((ts, at_parent)) => match parse_option_u64(at_parent) {
            Err(e) => Err(e),
            Ok((parent, at_values)) => match parse_values(at_values) {
                Err(e) => Err(e),
                Ok((values, end)) => Ok((RowModel::Event { ts, parent, values }, end)),
            },
        },
    }
}

/// The record at the front of `bytes`, and the bytes after it.
pub open spec fn parse_row(bytes: Seq<u8>) -> Result<(RowModel, Seq<u8>), WireError> {
    match parse_u32(bytes) {
        Err(e) => Err(e),
        Ok((tag, at)) => if tag == 0 {
            parse_start(at)
        } else if tag == 1 {
            match parse_two(at) {
                Ok(((ts, id), end)) => Ok((RowModel::End { ts, id }, end)),
                Err(e) => Err(e),
            }
        } else if tag == 2 {
            match parse_three(at) {
                Ok(((ts, id, thread_id), end)) => Ok((RowModel::Enter { ts, id, thread_id }, end)),
                Err(e) => Err(e),
            }
        } else if tag == 3 {
            match parse_three(at) {
                Ok(((ts, id, thread_id), end)) => Ok((RowModel::Exit { ts, id, thread_id }, end)),
                Err(e) => Err(e),
            }
        } else if tag == 4 {
            parse_event(at)
        } else {
            Err(WireError::Malformed)
        },
    }
}

fn get_u32(buffer: &[u8], pos: usize) -> (got: Result<(u32, usize), WireError>)
    requires
        pos <= buffer@.len(),
    ensures
        parse_u32(buffer@.skip(pos as int)) == match got {
            Ok((value, next)) => Ok::<(u32, Seq<u8>), WireError>(
                (value, buffer@.skip(next as int)),
            ),
            Err(e) => Err(e),
        },
        got matches Ok((_, next)) ==> pos < next <= buffer@.len(),
{
    let (value, rest) = take_u32(slice_subrange(buffer, pos, buffer.len()))?;
    assert(left_over(buffer@.skip(pos as int), rest) =~= buffer@.skip(buffer@.len() - rest));
    Ok((value, buffer.len() - rest))
}

fn get_u64(buffer: &[u8], pos: usize) -> (got: Result<(u64, usize), WireError>)
    requires
        pos <= buffer@.len(),
    ensures
        parse_u64(buffer@.skip(pos as int)) == match got {
            Ok((value, next)) => Ok::<(u64, Seq<u8>), WireError>(
                (value, buffer@.skip(next as int)),
            ),
            Err(e) => Err(e),
        },
        got matches Ok((_, next)) ==> pos < next <= buffer@.len(),
{
    let (value, rest) = take_u64(slice_subrange(buffer, pos, buffer.len()))?;
    assert(left_over(buffer@.skip(pos as int), rest) =~= buffer@.skip(buffer@.len() - rest));
    Ok((value, buffer.len() - rest))
}

fn get_i64(buffer: &[u8], pos: usize) -> (got: Result<(i64, usize), WireError>)
    requires
        pos <= buffer@.len(),
    ensures
        parse_i64(buffer@.skip(pos as int)) == match got {
            Ok((value, next)) => Ok::<(i64, Seq<u8>), WireError>(
                (value, buffer@.skip(next as int)),
            ),
            Err(e) => Err(e),
        },
        got matches Ok((_, next)) ==> pos < next <= buffer@.len(),
{
    let (value, rest) = take_i64(slice_subrange(buffer, pos, buffer.len()))?;
    assert(left_over(buffer@.skip(pos as int), rest) =~= buffer@.skip(buffer@.len() - rest));
    Ok((value, buffer.len() - rest))
}

fn get_bool(buffer: &[u8], pos: usize) -> (got: Result<(bool, usize), WireError>)
    requires
        pos <= buffer@.len(),
    ensures
        parse_bool(buffer@.skip(pos as int)) == match got {
            Ok((value, next)) => Ok::<(bool, Seq<u8>), WireError>(
                (value, buffer@.skip(next as int)),
            ),
            Err(e) => Err(e),
        },
        got matches Ok((_, next)) ==> pos < next <= buffer@.len(),
{
    let (value, rest) = take_bool(slice_subrange(buffer, pos, buffer.len()))?;
    assert(left_over(buffer@.skip(pos as int), rest) =~= buffer@.skip(buffer@.len() - rest));
    Ok((value, buffer.len() - rest))
}

fn get_option_u64(buffer: &[u8], pos: usize) -> (got: Result<(Option<u64>, usize), WireError>)
    requires
        pos <= buffer@.len(),
    ensures
        parse_option_u64(buffer@.skip(pos as int)) == match got {
            Ok((value, next)) => Ok::<(Option<u64>, Seq<u8>), WireError>(
                (value, buffer@.skip(next as int)),
            ),
            Err(e) => Err(e),
        },
        got matches Ok((_, next)) ==> pos < next <= buffer@.len(),
{
    let (value, rest) = take_option_u64(slice_subrange(buffer, pos, buffer.len()))?;
    assert(left_over(buffer@.skip(pos as int), rest) =~= buffer@.skip(buffer@.len() - rest));
    Ok((value, buffer.len() - rest))
}

fn get_string(buffer: &[u8], pos: usize) -> (got: Result<(String, usize), WireError>)
    requires
        pos <= buffer@.len(),
    ensures
        parse_string(buffer@.skip(pos as int)) == match got {
            Ok((value, next)) => Ok::<(Seq<char>, Seq<u8>), WireError>(
                (value@, buffer@.skip(next as int)),
            ),
            Err(e) => Err(e),
        },
        got matches Ok((_, next)) ==> pos < next <= buffer@.len(),
{
    let (len, at) = get_u64(buffer, pos)?;
    if len > (buffer.len() - at) as u64 {
        return Err(WireError::UnexpectedEnd);
    }
    let end = at + len as usize;
    proof {
        let rest = buffer@.skip(at as int);
        assert(rest.take(len as int) =~= buffer@.subrange(at as int, end as int));
        assert(rest.skip(len as int) =~= buffer@.skip(end as int));
    }
    match text_of(slice_subrange(buffer, at, end)) {
        Some(text) => Ok((text, end)),
        None => Err(WireError::Malformed),
    }
}

fn get_float_bits(buffer: &[u8], pos: usize) -> (got: Result<(u64, usize), WireError>)
    requires
        pos <= buffer@.len(),
    ensures
        parse_float_bits(buffer@.skip(pos as int)) == match got {
            Ok((value, next)) => Ok::<(u64, Seq<u8>), WireError>((value, buffer@.skip(next as int))),
            Err(e) => Err(e),
        },
        got matches Ok((_, next)) ==> pos < next <= buffer@.len(),
{
    if buffer.len() - pos < 8 {
        return Err(WireError::UnexpectedEnd);
    }
    let bits = u64_from_le_bytes(slice_subrange(buffer, pos, pos + 8));
    proof {
        assert(buffer@.skip(pos as int).subrange(0, 8) =~= buffer@.subrange(pos as int, pos + 8));
        assert(buffer@.skip(pos as int).skip(8) =~= buffer@.skip(pos + 8));
    }
    Ok((bits, pos + 8))
}

fn get_value(buffer: &[u8], pos: usize) -> (got: Result<(TraceValue, usize), WireError>)
    requires
        pos <= buffer@.len(),
    ensures
        parse_value(buffer@.skip(pos as int)) == match got {
            Ok((value, next)) => Ok::<(ValueModel, Seq<u8>), WireError>(
                (value@, buffer@.skip(next as int)),
            ),
            Err(e) => Err(e),
        },
        got matches Ok((_, next)) ==> pos < next <= buffer@.len(),
{
    let (tag, at) = get_u32(buffer, pos)?;
    if tag == 0 {
        let (text, end) = get_string(buffer, at)?;
        Ok((TraceValue::String(text), end))
    } else if tag == 1 {
        let (b, end) = get_bool(buffer, at)?;
        Ok((TraceValue::Bool(b), end))
    } else if tag == 2 {
        let (n, end) = get_u64(buffer, at)?;
        Ok((TraceValue::UInt(n), end))
    } else if tag == 3 {
        let (i, end) = get_i64(buffer, at)?;
        Ok((TraceValue::Int(i), end))
    } else if tag == 4 {
        let (bits, end) = get_float_bits(buffer, at)?;
        Ok((TraceValue::Float(bits), end))
    } else {
        Err(WireError::Malformed)
    }
}

fn get_values(buffer: &[u8], pos: usize) -> (got: Result<(Vec<(String, TraceValue)>, usize), WireError>)
    requires
        pos <= buffer@.len(),
    ensures
        parse_values(buffer@.skip(pos as int)) == match got {
            Ok((values, next)) => Ok::<(Seq<(Seq<char>, ValueModel)>, Seq<u8>), WireError>(
                (values_view(values@), buffer@.skip(next as int)),
            ),
            Err(e) => Err(e),
        },
        got matches Ok((_, next)) ==> pos < next <= buffer@.len(),
{
    let (count, first) = get_u64(buffer, pos)?;
    let mut values: Vec<(String, TraceValue)> = Vec::new();
    let mut at = first;
    let mut left = count;
    assert(values_view(values@) =~= Seq::empty());
    while left > 0
        invariant
            pos < at <= buffer@.len(),
            parse_pairs(buffer@.skip(at as int), left as nat, values_view(values@)) == parse_values(
                buffer@.skip(pos as int),
            ),
        decreases left,
    {
        let ghost before = values_view(values@);
        let (key, at_value) = match get_string(buffer, at) {
            Ok(got) => got,
            Err(e) => {
                return Err(e);
            },
        };
        let (value, next) = match get_value(buffer, at_value) {
            Ok(got) => got,
            Err(e) => {
                return Err(e);
            },
        };
        proof {
            assert(values_view(values@.push((key, value))) =~= before.push((key@, value@)));
        }
        values.push((key, value));
        at = next;
        left -= 1;
    }
    Ok((values, at))
}

/// What a call of [`decode`] found.
#[derive(Debug)]
pub enum Decoded {
    /// A record, and the position of the byte after it.
    Record(TraceRow, usize),
    /// The buffer ends inside the record: more bytes are needed.
    NeedMore,
    /// The bytes at this position cannot be a record.
    MalformedAt(usize),
}

fn get_row(buffer: &[u8], pos: usize) -> (got: Result<(TraceRow, usize), WireError>)
    requires
        pos <= buffer@.len(),
    ensures
        parse_row(buffer@.skip(pos as int)) == match got {
            Ok((row, next)) => Ok::<(RowModel, Seq<u8>), WireError>((row@, buffer@.skip(next as int))),
            Err(e) => Err(e),
        },
        got matches Ok((_, next)) ==> pos < next <= buffer@.len(),
{
    let (tag, at) = get_u32(buffer, pos)?;
    if tag == 0 {
        let (ts, at_id) = get_u64(buffer, at)?;
        let (id, at_parent) = get_u64(buffer, at_id)?;
        let (parent, at_name) = get_option_u64(buffer, at_parent)?;
        let (name, at_target) = get_string(buffer, at_name)?;
        let (target, at_values) = get_string(buffer, at_target)?;
        let (values, end) = get_values(buffer, at_values)?;
        Ok((TraceRow::Start { ts, id, parent, name, target, values }, end))
    } else if tag == 1 {
        let (ts, at_id) = get_u64(buffer, at)?;
        let (id, end) = get_u64(buffer, at_id)?;
        Ok((TraceRow::End { ts, id }, end))
    } else if tag == 2 {
        let (ts, at_id) = get_u64(buffer, at)?;
        let (id, at_thread) = get_u64(buffer, at_id)?;
        let (thread_id, end) = get_u64(buffer, at_thread)?;
        Ok((TraceRow::Enter { ts, id, thread_id }, end))
    } else if tag == 3 {
        let (ts, at_id) = get_u64(buffer, at)?;
        let (id, at_thread) = get_u64(buffer, at_id)?;
        let (thread_id, end) = get_u64(buffer, at_thread)?;
        Ok((TraceRow::Exit { ts, id, thread_id }, end))
    } else if tag == 4 {
        let (ts, at_parent) = get_u64(buffer, at)?;
        let (parent, at_values) = get_option_u64(buffer, at_parent)?;
        let (values, end) = get_values(buffer, at_values)?;
        Ok((TraceRow::Event { ts, parent, values }, end))
    } else {
        Err(WireError::Malformed)
    }
}

/// Decodes the record that starts at `offset`.
///
/// The record and the position after it are handed back when the buffer
/// holds all of it. When the buffer ends inside the record, more bytes are
/// asked for; when the bytes cannot be a record, the position is reported.
pub fn decode(buffer: &[u8], offset: usize) -> (decoded: Decoded)
    requires
        offset <= buffer@.len(),
    ensures
        match parse_row(buffer@.skip(offset as int)) {
            Ok((row, rest)) => decoded matches Decoded::Record(r, next) && r@ == row && buffer@.skip(
                next as int,
            ) == rest,
            Err(WireError::UnexpectedEnd) => decoded is NeedMore,
            Err(WireError::Malformed) => decoded matches Decoded::MalformedAt(at) && at == offset,
        },
        decoded matches Decoded::Record(_, next) ==> offset < next <= buffer@.len(),
{
    match get_row(buffer, offset) {
        Ok((row, next)) => Decoded::Record(row, next),
        Err(WireError::UnexpectedEnd) => Decoded::NeedMore,
        Err(WireError::Malformed) => Decoded::MalformedAt(offset),
    }
}

} // verus!
