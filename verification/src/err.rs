//! Decode failures and the serialized fields they can name.

use vstd::prelude::*;

verus! {

/// The serialized field a reader was working on when it failed.
///
/// A length-prefixed blob is one field: its compact-size length and its
/// raw bytes share the same name.
#[derive(Clone, Copy, Debug, PartialEq, Eq, Structural)]
pub enum Field {
    Version,
    MarkerFlag,
    InputCount,
    PrevTxId,
    PrevIndex,
    ScriptSig,
    Sequence,
    OutputCount,
    Value,
    ScriptPubKey,
    WitnessItemCount,
    WitnessItem,
    LockTime,
}

/// Why a decode call failed. Every failure is terminal for that call:
/// no partially built transaction is ever observable.
#[derive(Clone, Copy, Debug, PartialEq, Eq, Structural)]
pub enum DecodeError {
    /// Fewer bytes remained than the named field required. `offset` is the
    /// position at which the failed read was attempted.
    TruncatedInput { field: Field, offset: usize },
    /// Segwit framing was detected but the witness section ran out before
    /// every input received a stack.
    WitnessCountMismatch,
    /// A strict decode consumed one whole transaction and bytes remained.
    TrailingBytes,
}

} // verus!
