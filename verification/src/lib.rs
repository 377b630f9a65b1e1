//! Guest side of a host/guest linear-memory message boundary.
//!
//! A host writes a UTF-8 text payload into guest memory and calls an exported
//! entry point with the (address, length) of that range.  The guest parses the
//! payload, applies a transformation, serializes the result into a freshly
//! allocated buffer, and hands the buffer's (address, length) back to the host
//! packed into a single scalar, because the embedding allows only one numeric
//! return slot.
//!
//! The crate is split along the concerns worth stating precisely:
//!
//! - [`codec`]: the boundary codec, a bijective pairing of (address, length)
//!   with a single scalar — the actual wire contract between host and guest;
//! - [`envelope`]: the message envelope, parsing and serializing the payload
//!   schema at the byte level;
//! - [`models`]: the payload model and the pluggable transformation capability.
//!
//! [`transform_message`] ties the three together: everything the entry point
//! does between reading the input bytes and encoding the result location.
//! Reading guest memory through a raw pointer and publishing the result buffer
//! are left to the thin unverified shim around this crate.
//!
//! Failure policy: rather than aborting the whole guest instance on a bad
//! payload, the library reports failure through an explicit
//! [`envelope::TransformError`] result; the shim decides whether to trap on
//! it.

use vstd::prelude::*;

pub mod codec;
pub mod envelope;
pub mod models;

use crate::envelope::{parse_spec, serialize_spec, parse_input, serialize_output, TransformError};
use crate::models::Process;

verus! {

/// What the entry point computes, as a function of the input bytes alone:
/// the canonical rendering of the processed payload, or a failure report
/// when the bytes are not a well-formed payload.
pub open spec fn transform_spec(input: Seq<u8>) -> Result<Seq<u8>, TransformError> {
    match parse_spec(input) {
        Some(m) => Ok(serialize_spec(m.process_spec())),
        None => Err(TransformError::MalformedPayload),
    }
}

/// The full request/response computation of the entry point, on plain bytes:
/// parse the input payload, process it, and serialize the result.
///
/// The result equals [`transform_spec`] of the input bytes — a function of
/// the input alone — so two calls on byte-identical input, wherever the host
/// placed it, yield byte-identical results.
pub fn transform_message(input: &[u8]) -> (r: Result<Vec<u8>, TransformError>)
    ensures
        match r {
            Ok(out) => transform_spec(input@) == Ok::<Seq<u8>, TransformError>(out@),
            Err(e) => transform_spec(input@) == Err::<Seq<u8>, TransformError>(e),
        },
{
    match parse_input(input) {
        Ok(m) => {
            let transformed = m.process();
            Ok(serialize_output(&transformed))
        }
        Err(e) => Err(e),
    }
}

} // verus!
