//! The byte-range translator: converts a generic byte-range request into
//! the backend's native addressing form, rejecting the one unrepresentable
//! combination.
//!
//! A request is either a forward range (offset from the start, optional
//! length meaning "to the end" when omitted) or a suffix range (a fixed
//! length ending some offset before the end). The backend can address a
//! range from an offset to the end, a bounded window, or the last `n`
//! bytes; a suffix range whose end-offset is not zero has no backend
//! representation and must fail with an explicit error rather than being
//! silently approximated.

use vstd::prelude::*;

verus! {

use crate::error::StorageError;

/// A requested sub-range of an object's bytes.
#[derive(Clone, Copy, PartialEq, Eq, Debug)]
pub enum ByteRange {
    /// From `offset`, for `length` bytes; to the end of the object when the
    /// length is omitted.
    FromStart(u64, Option<u64>),
    /// The `length` bytes that end `end_offset` bytes before the end of the
    /// object: `FromEnd(end_offset, length)`. Only the pure suffix
    /// (`end_offset == 0`, the last `length` bytes) is representable.
    FromEnd(u64, u64),
}

/// The backend's native addressing form.
#[derive(Clone, Copy, PartialEq, Eq, Debug)]
pub enum BackendRange {
    /// All bytes from `offset` (included) to the end of the object.
    OffsetToEnd(u64),
    /// Exactly `length` bytes from `offset`: `OffsetLength(offset, length)`.
    OffsetLength(u64, u64),
    /// The last `length` bytes of the object.
    Suffix(u64),
}

/// The shapes the backend can address: everything but a suffix range with a
/// non-zero end-offset.
pub open spec fn representable(r: ByteRange) -> bool {
    !(r matches ByteRange::FromEnd(end_offset, _) && end_offset != 0)
}

/// The backend form of a representable request.
pub open spec fn translate_spec(r: ByteRange) -> BackendRange {
    match r {
        ByteRange::FromStart(offset, None) => BackendRange::OffsetToEnd(offset),
        ByteRange::FromStart(offset, Some(length)) => BackendRange::OffsetLength(offset, length),
        ByteRange::FromEnd(_, length) => BackendRange::Suffix(length),
    }
}

/// The request denoted by a backend range.
pub open spec fn translate_back_spec(b: BackendRange) -> ByteRange {
    match b {
        BackendRange::OffsetToEnd(offset) => ByteRange::FromStart(offset, None),
        BackendRange::OffsetLength(offset, length) => ByteRange::FromStart(offset, Some(length)),
        BackendRange::Suffix(length) => ByteRange::FromEnd(0, length),
    }
}

/// Converts a byte-range request into the backend's addressing form.
/// The one unrepresentable shape, a suffix range with a non-zero
/// end-offset, always fails with an unsupported-shape error.
pub fn translate(range: &ByteRange) -> (r: Result<BackendRange, StorageError>)
    ensures
        representable(*range) ==> (r matches Ok(b) && b == translate_spec(*range)),
        !representable(*range) ==> (r matches Err(e) && e is Unsupported),
{
    match range {
        ByteRange::FromStart(offset, None) => Ok(BackendRange::OffsetToEnd(*offset)),
        ByteRange::FromStart(offset, Some(length)) => Ok(
            BackendRange::OffsetLength(*offset, *length),
        ),
        ByteRange::FromEnd(end_offset, length) => {
            if *end_offset == 0 {
                Ok(BackendRange::Suffix(*length))
            } else {
                Err(
                    StorageError::Unsupported(
                        "the store does not support suffix ranges with an end-offset".to_owned(),
                    ),
                )
            }
        },
    }
}

/// Converts a backend range back into a request. The result is always
/// representable.
pub fn translate_back(b: &BackendRange) -> (r: ByteRange)
    ensures
        r == translate_back_spec(*b),
        representable(r),
{
    match b {
        BackendRange::OffsetToEnd(offset) => ByteRange::FromStart(*offset, None),
        BackendRange::OffsetLength(offset, length) => ByteRange::FromStart(
            *offset,
            Some(*length),
        ),
        BackendRange::Suffix(length) => ByteRange::FromEnd(0, *length),
    }
}

/// Every representable request survives translation to the backend form
/// and back unchanged.
pub proof fn lemma_translate_round_trip(r: ByteRange)
    requires
        representable(r),
    ensures
        translate_back_spec(translate_spec(r)) == r,
{
}

/// Every backend range denotes a representable request, and translating
/// that request yields the same backend range: the two forms describe the
/// same logical ranges.
pub proof fn lemma_backend_round_trip(b: BackendRange)
    ensures
        representable(translate_back_spec(b)),
        translate_spec(translate_back_spec(b)) == b,
{
}

/// The bytes a backend range selects from an object, clamped to the
/// object's extent.
pub open spec fn apply_backend_range(bytes: Seq<u8>, r: BackendRange) -> Seq<u8> {
    match r {
        BackendRange::OffsetToEnd(offset) => if offset <= bytes.len() {
            bytes.skip(offset as int)
        } else {
            Seq::empty()
        },
        BackendRange::OffsetLength(offset, length) => if offset <= bytes.len() {
            if offset + length <= bytes.len() {
                bytes.subrange(offset as int, offset + length)
            } else {
                bytes.skip(offset as int)
            }
        } else {
            Seq::empty()
        },
        BackendRange::Suffix(length) => if length <= bytes.len() {
            bytes.skip(bytes.len() - length as int)
        } else {
            bytes
        },
    }
}

/// Copies the bytes a backend range selects out of an object.
pub fn extract_range(bytes: &Vec<u8>, r: &BackendRange) -> (out: Vec<u8>)
    ensures
        out@ == apply_backend_range(bytes@, *r),
{
    let n = bytes.len();
    let start: usize;
    let end: usize;
    match r {
        BackendRange::OffsetToEnd(offset) => {
            start = if *offset <= n as u64 {
                *offset as usize
            } else {
                n
            };
            end = n;
        },
        BackendRange::OffsetLength(offset, length) => {
            start = if *offset <= n as u64 {
                *offset as usize
            } else {
                n
            };
            let remaining = n - start;
            let take = if *length <= remaining as u64 {
                *length as usize
            } else {
                remaining
            };
            end = start + take;
        },
        BackendRange::Suffix(length) => {
            start = if *length <= n as u64 {
                n - *length as usize
            } else {
                0
            };
            end = n;
        },
    }
    let mut out: Vec<u8> = Vec::new();
    let mut i: usize = start;
    while i < end
        invariant
            start <= i <= end <= bytes@.len(),
            out@ == bytes@.subrange(start as int, i as int),
        decreases end - i,
    {
        out.push(bytes[i]);
        i += 1;
    }
    assert(out@ =~= bytes@.subrange(start as int, end as int));
    assert(out@ =~= apply_backend_range(bytes@, *r));
    out
}

} // verus!
