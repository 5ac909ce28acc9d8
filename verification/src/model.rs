//! The mathematical model of the wire format.
//!
//! `TxM` is the ghost image of a transaction. `tx_enc` says, byte for byte,
//! what a transaction serializes to; `dec_tx` says what any byte sequence
//! decodes to, including which error comes back on malformed input. The
//! executable code in `read`, `write` and `tx` is proved to agree with
//! these functions exactly.

use vstd::prelude::*;
use crate::err::{DecodeError, Field};

verus! {

// ------------------------------------------------------------------
// Ghost transaction model
// ------------------------------------------------------------------

/// One transaction input: the spent outpoint (txid held in reference
/// order, the reverse of wire order), the signature script, the sequence
/// number, and the witness stack (empty unless segwit data was present).
pub ghost struct InputM {
    pub txid: Seq<u8>,
    pub output_index: u32,
    pub script_sig: Seq<u8>,
    pub sequence: u32,
    pub witness: Seq<Seq<u8>>,
}

/// One transaction output: a value in the smallest currency unit and the
/// public-key script.
pub ghost struct OutputM {
    pub value: u64,
    pub script_pubkey: Seq<u8>,
}

/// A whole transaction. `version` keeps the raw 32 bits of the version
/// field; `segwit` records whether the serialized form carried the
/// marker/flag pair.
pub ghost struct TxM {
    pub version: u32,
    pub segwit: bool,
    pub inputs: Seq<InputM>,
    pub outputs: Seq<OutputM>,
    pub lock_time: u32,
}

/// A byte sequence read back to front.
pub open spec fn seq_rev(s: Seq<u8>) -> Seq<u8> {
    Seq::new(s.len(), |i: int| s[s.len() - 1 - i])
}

/// An input with its witness stack emptied: exactly what the legacy
/// input layout carries.
pub open spec fn blank_input(x: InputM) -> InputM {
    InputM { witness: Seq::empty(), ..x }
}

/// Every input's witness stack emptied.
pub open spec fn blank_inputs(ins: Seq<InputM>) -> Seq<InputM> {
    Seq::new(ins.len(), |k: int| blank_input(ins[k]))
}

/// Whether any input carries a non-empty witness stack. The encoder emits
/// segwit framing exactly when this holds.
pub open spec fn has_witness(t: TxM) -> bool {
    exists|i: int| 0 <= i < t.inputs.len() && (#[trigger] t.inputs[i].witness).len() > 0
}

// ------------------------------------------------------------------
// Well-formedness: what every decoded transaction satisfies and what the
// encoder's contract speaks of. Executable values meet the length bounds
// by construction; the ghost model needs them stated.
// ------------------------------------------------------------------

pub open spec fn wf_input(i: InputM) -> bool {
    &&& i.txid.len() == 32
    &&& i.script_sig.len() <= u64::MAX
    &&& i.witness.len() <= u64::MAX
    &&& forall|k: int| 0 <= k < i.witness.len() ==> (#[trigger] i.witness[k]).len() <= u64::MAX
}

pub open spec fn wf_output(o: OutputM) -> bool {
    o.script_pubkey.len() <= u64::MAX
}

pub open spec fn wf_tx(t: TxM) -> bool {
    &&& t.inputs.len() <= u64::MAX
    &&& t.outputs.len() <= u64::MAX
    &&& forall|k: int| 0 <= k < t.inputs.len() ==> wf_input(#[trigger] t.inputs[k])
    &&& forall|k: int| 0 <= k < t.outputs.len() ==> wf_output(#[trigger] t.outputs[k])
}

// ------------------------------------------------------------------
// Little-endian fixed-width integers
// ------------------------------------------------------------------

pub open spec fn le16_bytes(v: u16) -> Seq<u8> {
    seq![v as u8, (v >> 8) as u8]
}

pub open spec fn le32_bytes(v: u32) -> Seq<u8> {
    seq![v as u8, (v >> 8) as u8, (v >> 16) as u8, (v >> 24) as u8]
}

pub open spec fn le64_bytes(v: u64) -> Seq<u8> {
    seq![
        v as u8,
        (v >> 8) as u8,
        (v >> 16) as u8,
        (v >> 24) as u8,
        (v >> 32) as u8,
        (v >> 40) as u8,
        (v >> 48) as u8,
        (v >> 56) as u8,
    ]
}

pub open spec fn le16_val(s: Seq<u8>) -> u16
    recommends
        s.len() == 2,
{
    (s[0] as u16) | ((s[1] as u16) << 8)
}

pub open spec fn le32_val(s: Seq<u8>) -> u32
    recommends
        s.len() == 4,
{
    (s[0] as u32) | ((s[1] as u32) << 8) | ((s[2] as u32) << 16) | ((s[3] as u32) << 24)
}

pub open spec fn le64_val(s: Seq<u8>) -> u64
    recommends
        s.len() == 8,
{
    (s[0] as u64) | ((s[1] as u64) << 8) | ((s[2] as u64) << 16) | ((s[3] as u64) << 24)
        | ((s[4] as u64) << 32) | ((s[5] as u64) << 40) | ((s[6] as u64) << 48)
        | ((s[7] as u64) << 56)
}

// ------------------------------------------------------------------
// Specification-level encoder
// ------------------------------------------------------------------

/// The canonical compact-size encoding: always the narrowest form that
/// holds the value.
pub open spec fn varint_enc(v: u64) -> Seq<u8> {
    if v <= 252 {
        seq![v as u8]
    } else if v <= 0xFFFF {
        seq![253u8] + le16_bytes(v as u16)
    } else if v <= 0xFFFF_FFFF {
        seq![254u8] + le32_bytes(v as u32)
    } else {
        seq![255u8] + le64_bytes(v)
    }
}

/// A length-prefixed opaque blob: compact-size length, then the raw bytes.
pub open spec fn blob_enc(b: Seq<u8>) -> Seq<u8> {
    varint_enc(b.len() as u64) + b
}

/// One input on the wire: txid reversed into wire order, output index,
/// signature script, sequence. Witness data lives in its own section.
pub open spec fn input_enc(i: InputM) -> Seq<u8> {
    seq_rev(i.txid) + (le32_bytes(i.output_index) + (blob_enc(i.script_sig)
        + le32_bytes(i.sequence)))
}

pub open spec fn output_enc(o: OutputM) -> Seq<u8> {
    le64_bytes(o.value) + blob_enc(o.script_pubkey)
}

/// The encodings of a list of inputs, concatenated in order.
pub open spec fn inputs_enc(ins: Seq<InputM>) -> Seq<u8>
    decreases ins.len(),
{
    if ins.len() == 0 {
        Seq::empty()
    } else {
        input_enc(ins[0]) + inputs_enc(ins.skip(1))
    }
}

/// The encodings of a list of outputs, concatenated in order.
pub open spec fn outputs_enc(outs: Seq<OutputM>) -> Seq<u8>
    decreases outs.len(),
{
    if outs.len() == 0 {
        Seq::empty()
    } else {
        output_enc(outs[0]) + outputs_enc(outs.skip(1))
    }
}

/// The encodings of a list of blobs, concatenated in order.
pub open spec fn blobs_enc(ws: Seq<Seq<u8>>) -> Seq<u8>
    decreases ws.len(),
{
    if ws.len() == 0 {
        Seq::empty()
    } else {
        blob_enc(ws[0]) + blobs_enc(ws.skip(1))
    }
}

/// One witness stack: item count, then each item as a blob.
pub open spec fn stack_enc(w: Seq<Seq<u8>>) -> Seq<u8> {
    varint_enc(w.len() as u64) + blobs_enc(w)
}

/// The witness section: one stack per input, in input order.
pub open spec fn witness_enc(ins: Seq<InputM>) -> Seq<u8>
    decreases ins.len(),
{
    if ins.len() == 0 {
        Seq::empty()
    } else {
        stack_enc(ins[0].witness) + witness_enc(ins.skip(1))
    }
}

/// The whole transaction. Segwit framing is emitted exactly when some
/// input carries a non-empty witness stack; the `segwit` field itself is
/// not consulted, so the encoder can never emit framing that its own
/// decoder would read back differently.
pub open spec fn tx_enc(t: TxM) -> Seq<u8> {
    le32_bytes(t.version) + ((if has_witness(t) {
        seq![0u8, 1u8]
    } else {
        Seq::<u8>::empty()
    }) + (varint_enc(t.inputs.len() as u64) + (inputs_enc(t.inputs)
        + (varint_enc(t.outputs.len() as u64) + (outputs_enc(t.outputs) + ((if has_witness(t) {
        witness_enc(t.inputs)
    } else {
        Seq::<u8>::empty()
    }) + le32_bytes(t.lock_time)))))))
}

// ------------------------------------------------------------------
// Specification-level decoder
// ------------------------------------------------------------------

pub open spec fn trunc(f: Field, i: int) -> DecodeError {
    DecodeError::TruncatedInput { field: f, offset: i as usize }
}

/// `n` raw bytes starting at `i`, or truncation.
pub open spec fn dec_bytes(s: Seq<u8>, i: int, n: int, f: Field) -> Result<
    (Seq<u8>, int),
    DecodeError,
> {
    if i + n <= s.len() {
        Ok((s.subrange(i, i + n), i + n))
    } else {
        Err(trunc(f, i))
    }
}

pub open spec fn dec_u16(s: Seq<u8>, i: int, f: Field) -> Result<(u16, int), DecodeError> {
    if i + 2 <= s.len() {
        Ok((le16_val(s.subrange(i, i + 2)), i + 2))
    } else {
        Err(trunc(f, i))
    }
}

pub open spec fn dec_u32(s: Seq<u8>, i: int, f: Field) -> Result<(u32, int), DecodeError> {
    if i + 4 <= s.len() {
        Ok((le32_val(s.subrange(i, i + 4)), i + 4))
    } else {
        Err(trunc(f, i))
    }
}

pub open spec fn dec_u64(s: Seq<u8>, i: int, f: Field) -> Result<(u64, int), DecodeError> {
    if i + 8 <= s.len() {
        Ok((le64_val(s.subrange(i, i + 8)), i + 8))
    } else {
        Err(trunc(f, i))
    }
}

/// Compact-size decoding. The prefix byte picks the width; a wider form
/// than the value needs is accepted (the decoder is lenient, the encoder
/// never is). The payload of an escaped form is read at `i + 1`.
pub open spec fn dec_varint(s: Seq<u8>, i: int, f: Field) -> Result<(u64, int), DecodeError> {
    if i + 1 > s.len() {
        Err(trunc(f, i))
    } else {
        let p = s[i];
        if p <= 252 {
            Ok((p as u64, i + 1))
        } else if p == 253 {
            match dec_u16(s, i + 1, f) {
                Err(e) => Err(e),
                Ok((v, j)) => Ok((v as u64, j)),
            }
        } else if p == 254 {
            match dec_u32(s, i + 1, f) {
                Err(e) => Err(e),
                Ok((v, j)) => Ok((v as u64, j)),
            }
        } else {
            dec_u64(s, i + 1, f)
        }
    }
}

/// A length-prefixed blob: compact-size length, then that many raw bytes.
pub open spec fn dec_blob(s: Seq<u8>, i: int, f: Field) -> Result<(Seq<u8>, int), DecodeError> {
    match dec_varint(s, i, f) {
        Err(e) => Err(e),
        Ok((n, j)) => dec_bytes(s, j, n as int, f),
    }
}

/// One input from the legacy layout. The 32 txid wire bytes are reversed
/// into reference order; the witness stack starts out empty.
pub open spec fn dec_input(s: Seq<u8>, i: int) -> Result<(InputM, int), DecodeError> {
    match dec_bytes(s, i, 32, Field::PrevTxId) {
        Err(e) => Err(e),
        Ok((wire, i1)) => match dec_u32(s, i1, Field::PrevIndex) {
            Err(e) => Err(e),
            Ok((idx, i2)) => match dec_blob(s, i2, Field::ScriptSig) {
                Err(e) => Err(e),
                Ok((ss, i3)) => match dec_u32(s, i3, Field::Sequence) {
                    Err(e) => Err(e),
                    Ok((sq, i4)) => Ok(
                        (
                            InputM {
                                txid: seq_rev(wire),
                                output_index: idx,
                                script_sig: ss,
                                sequence: sq,
                                witness: Seq::empty(),
                            },
                            i4,
                        ),
                    ),
                },
            },
        },
    }
}

pub open spec fn dec_inputs(s: Seq<u8>, i: int, n: nat) -> Result<
    (Seq<InputM>, int),
    DecodeError,
>
    decreases n,
{
    if n == 0 {
        Ok((Seq::empty(), i))
    } else {
        match dec_input(s, i) {
            Err(e) => Err(e),
            Ok((x, j)) => match dec_inputs(s, j, (n - 1) as nat) {
                Err(e) => Err(e),
                Ok((xs, k)) => Ok((seq![x] + xs, k)),
            },
        }
    }
}

pub open spec fn dec_output(s: Seq<u8>, i: int) -> Result<(OutputM, int), DecodeError> {
    match dec_u64(s, i, Field::Value) {
        Err(e) => Err(e),
        Ok((v, i1)) => match dec_blob(s, i1, Field::ScriptPubKey) {
            Err(e) => Err(e),
            Ok((spk, i2)) => Ok((OutputM { value: v, script_pubkey: spk }, i2)),
        },
    }
}

pub open spec fn dec_outputs(s: Seq<u8>, i: int, n: nat) -> Result<
    (Seq<OutputM>, int),
    DecodeError,
>
    decreases n,
{
    if n == 0 {
        Ok((Seq::empty(), i))
    } else {
        match dec_output(s, i) {
            Err(e) => Err(e),
            Ok((x, j)) => match dec_outputs(s, j, (n - 1) as nat) {
                Err(e) => Err(e),
                Ok((xs, k)) => Ok((seq![x] + xs, k)),
            },
        }
    }
}

/// `n` witness items, each a blob.
pub open spec fn dec_blobs(s: Seq<u8>, i: int, n: nat) -> Result<
    (Seq<Seq<u8>>, int),
    DecodeError,
>
    decreases n,
{
    if n == 0 {
        Ok((Seq::empty(), i))
    } else {
        match dec_blob(s, i, Field::WitnessItem) {
            Err(e) => Err(e),
            Ok((x, j)) => match dec_blobs(s, j, (n - 1) as nat) {
                Err(e) => Err(e),
                Ok((xs, k)) => Ok((seq![x] + xs, k)),
            },
        }
    }
}

/// One witness stack: item count, then the items.
pub open spec fn dec_stack(s: Seq<u8>, i: int) -> Result<(Seq<Seq<u8>>, int), DecodeError> {
    match dec_varint(s, i, Field::WitnessItemCount) {
        Err(e) => Err(e),
        Ok((n, j)) => dec_blobs(s, j, n as nat),
    }
}

/// The witness section: one stack per already-decoded input, in input
/// order, each stack replacing that input's empty one. The stream running
/// out anywhere in this section is a `WitnessCountMismatch`: the framing
/// promised a stack per input and did not deliver.
pub open spec fn dec_witness(s: Seq<u8>, i: int, ins: Seq<InputM>) -> Result<
    (Seq<InputM>, int),
    DecodeError,
>
    decreases ins.len(),
{
    if ins.len() == 0 {
        Ok((Seq::empty(), i))
    } else {
        match dec_stack(s, i) {
            Err(_) => Err(DecodeError::WitnessCountMismatch),
            Ok((w, j)) => match dec_witness(s, j, ins.skip(1)) {
                Err(e) => Err(e),
                Ok((rest, k)) => Ok((seq![InputM { witness: w, ..ins[0] }] + rest, k)),
            },
        }
    }
}

/// One whole transaction starting at `i`, returning the position just
/// past it. The marker is detected by peeking one byte: a `0x00` where an
/// input count should start can only be segwit framing, since the input
/// count of a legacy transaction under this convention is never zero.
/// The flag byte is recorded as consumed but its value is not checked.
pub open spec fn dec_tx(s: Seq<u8>, i: int) -> Result<(TxM, int), DecodeError> {
    match dec_u32(s, i, Field::Version) {
        Err(e) => Err(e),
        Ok((ver, i1)) => {
            let segwit = i1 < s.len() && s[i1] == 0u8;
            if segwit && i1 + 2 > s.len() {
                Err(trunc(Field::MarkerFlag, i1))
            } else {
                let i2 = if segwit {
                    i1 + 2
                } else {
                    i1
                };
                match dec_varint(s, i2, Field::InputCount) {
                    Err(e) => Err(e),
                    Ok((nin, i3)) => match dec_inputs(s, i3, nin as nat) {
                        Err(e) => Err(e),
                        Ok((ins0, i4)) => match dec_varint(s, i4, Field::OutputCount) {
                            Err(e) => Err(e),
                            Ok((nout, i5)) => match dec_outputs(s, i5, nout as nat) {
                                Err(e) => Err(e),
                                Ok((outs, i6)) => {
                                    let wres = if segwit {
                                        dec_witness(s, i6, ins0)
                                    } else {
                                        Ok((ins0, i6))
                                    };
                                    match wres {
                                        Err(e) => Err(e),
                                        Ok((ins, i7)) => match dec_u32(s, i7, Field::LockTime) {
                                            Err(e) => Err(e),
                                            Ok((lt, i8)) => Ok(
                                                (
                                                    TxM {
                                                        version: ver,
                                                        segwit: segwit,
                                                        inputs: ins,
                                                        outputs: outs,
                                                        lock_time: lt,
                                                    },
                                                    i8,
                                                ),
                                            ),
                                        },
                                    }
                                },
                            },
                        },
                    },
                }
            }
        },
    }
}

/// Strict decoding: exactly one transaction, no bytes left over.
pub open spec fn dec_tx_strict(s: Seq<u8>) -> Result<TxM, DecodeError> {
    match dec_tx(s, 0) {
        Err(e) => Err(e),
        Ok((t, j)) => if j == s.len() {
            Ok(t)
        } else {
            Err(DecodeError::TrailingBytes)
        },
    }
}

} // verus!
