//! Payload model and the pluggable transformation capability.
//!
//! The message envelope is domain-agnostic; the domain part is the payload
//! shape [`InputModel`] and the single-method capability [`Process`] that
//! turns an incoming payload into an outgoing one.  Any type satisfying the
//! capability is substitutable without knowledge of the boundary or codec
//! layers.

use vstd::prelude::*;

verus! {

/// An incoming message: the payload carried inside the envelope.
/// On the wire it is rendered as an object with one integer field, `foo`.
#[derive(Clone, Copy, Debug, PartialEq, Eq, Structural)]
pub struct InputModel {
    pub foo: i32,
}

/// The successor of `v` in wrapping 32-bit arithmetic.
///
/// Documented overflow policy of the example transformation: incrementing
/// the largest representable value wraps to the smallest, never an undefined
/// result.
pub open spec fn wrapping_inc(v: i32) -> i32 {
    if v == i32::MAX {
        i32::MIN
    } else {
        (v + 1) as i32
    }
}

/// Capability for transforming an incoming message into a result message:
/// a single method, not a hierarchy.  Implementors supply the domain logic;
/// the envelope and codec layers stay unchanged.
pub trait Process {
    /// The mathematical result of processing this message.
    spec fn process_spec(&self) -> InputModel;

    /// Transform this message.  Pure and deterministic: the result is pinned
    /// to [`Process::process_spec`], a function of the message alone.
    fn process(&self) -> (r: InputModel)
        ensures
            r == self.process_spec(),
    ;
}

impl Process for InputModel {
    open spec fn process_spec(&self) -> InputModel {
        InputModel { foo: wrapping_inc(self.foo) }
    }

    /// The example transformation: increment `foo`, wrapping at the width
    /// limit.
    fn process(&self) -> (r: InputModel) {
        if self.foo == i32::MAX {
            InputModel { foo: i32::MIN }
        } else {
            InputModel { foo: self.foo + 1 }
        }
    }
}

} // verus!
