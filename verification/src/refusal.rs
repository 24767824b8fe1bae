//! Why a plan of a forward pass is refused.

use vstd::prelude::*;

verus! {

/// The message of [`Refusal::SharedKv`].
pub open spec fn shared_kv_message() -> Seq<char> {
    "Gemma4 shared-KV layer ran before its source K/V state"@
}

/// A refusal.
#[derive(Clone, Copy, PartialEq, Eq, Structural, Debug)]
pub enum Refusal {
    /// A tensor has another number of axes than the operation needs.
    Rank { expected: usize, found: usize },
    /// A tensor without axes stands where its last axis is read.
    NoAxis,
    /// The `len` positions from `start` on reach beyond an axis of extent `size`.
    Range { start: usize, len: usize, size: usize },
    /// A layer that shares keys and values ran before the layer that stores them.
    SharedKv,
}

impl Refusal {
    /// What the refusal says, where it is a refusal of the decoder itself.
    pub fn message(&self) -> (r: Option<&'static str>)
        ensures
            (r is Some) == (*self == Refusal::SharedKv),
            r matches Some(text) ==> text@
                == "Gemma4 shared-KV layer ran before its source K/V state"@,
            r matches Some(text) ==> text@ == shared_kv_message(),
    {
        match self {
            Refusal::SharedKv => Some("Gemma4 shared-KV layer ran before its source K/V state"),
            _ => None,
        }
    }
}

} // verus!
