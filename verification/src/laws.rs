//! Round-trip: decoding an encoding gives back the original transaction.
//!
//! The early lemmas are bookkeeping over sequences and list encodings;
//! the later ones walk the specification decoder over the specification
//! encoder's output, piece by piece, up to the whole transaction.

use vstd::prelude::*;
use crate::err::{DecodeError, Field};
use crate::model::{
    blank_input, blank_inputs, blob_enc, blobs_enc, dec_blob, dec_blobs, dec_bytes, dec_input,
    dec_inputs, dec_output, dec_outputs, dec_stack, dec_tx, dec_tx_strict, dec_u16, dec_u32,
    dec_u64, dec_varint, dec_witness, has_witness, input_enc, inputs_enc, le16_bytes, le16_val,
    le32_bytes, le32_val, le64_bytes, le64_val, output_enc, outputs_enc, seq_rev, stack_enc,
    tx_enc, varint_enc, wf_input, wf_output, wf_tx, witness_enc, InputM, OutputM, TxM,
};

verus! {

/// Reversing a byte sequence twice gives the sequence back.
pub proof fn lemma_seq_rev_rev(s: Seq<u8>)
    ensures
        seq_rev(seq_rev(s)) == s,
{
    assert(seq_rev(seq_rev(s)) =~= s);
}

/// Extending an encoded prefix of a blob list by one more element.
pub proof fn lemma_blobs_enc_snoc(ws: Seq<Seq<u8>>, k: int)
    requires
        0 <= k < ws.len(),
    ensures
        blobs_enc(ws.take(k + 1)) == blobs_enc(ws.take(k)) + blob_enc(ws[k]),
    decreases k,
{
    if k == 0 {
        assert(ws.take(1) =~= seq![ws[0]]);
        assert(ws.take(1).skip(1) =~= Seq::<Seq<u8>>::empty());
        assert(ws.take(0) =~= Seq::<Seq<u8>>::empty());
        assert(blobs_enc(ws.take(0)) + blob_enc(ws[0]) =~= blob_enc(ws[0]) + blobs_enc(
            Seq::<Seq<u8>>::empty(),
        ));
    } else {
        let tail = ws.skip(1);
        lemma_blobs_enc_snoc(tail, k - 1);
        assert(ws.take(k + 1).skip(1) =~= tail.take(k));
        assert(ws.take(k).skip(1) =~= tail.take(k - 1));
        assert(tail[k - 1] == ws[k]);
        assert(blobs_enc(ws.take(k + 1)) == blob_enc(ws[0]) + blobs_enc(tail.take(k)));
        assert(blobs_enc(ws.take(k)) == blob_enc(ws[0]) + blobs_enc(tail.take(k - 1)));
        assert(blob_enc(ws[0]) + (blobs_enc(tail.take(k - 1)) + blob_enc(ws[k])) =~= (blob_enc(
            ws[0],
        ) + blobs_enc(tail.take(k - 1))) + blob_enc(ws[k]));
    }
}

/// Extending an encoded prefix of an input list by one more element.
pub proof fn lemma_inputs_enc_snoc(ins: Seq<InputM>, k: int)
    requires
        0 <= k < ins.len(),
    ensures
        inputs_enc(ins.take(k + 1)) == inputs_enc(ins.take(k)) + input_enc(ins[k]),
    decreases k,
{
    if k == 0 {
        assert(ins.take(1) =~= seq![ins[0]]);
        assert(ins.take(1).skip(1) =~= Seq::<InputM>::empty());
        assert(ins.take(0) =~= Seq::<InputM>::empty());
        assert(inputs_enc(ins.take(0)) + input_enc(ins[0]) =~= input_enc(ins[0]) + inputs_enc(
            Seq::<InputM>::empty(),
        ));
    } else {
        let tail = ins.skip(1);
        lemma_inputs_enc_snoc(tail, k - 1);
        assert(ins.take(k + 1).skip(1) =~= tail.take(k));
        assert(ins.take(k).skip(1) =~= tail.take(k - 1));
        assert(tail[k - 1] == ins[k]);
        assert(inputs_enc(ins.take(k + 1)) == input_enc(ins[0]) + inputs_enc(tail.take(k)));
        assert(inputs_enc(ins.take(k)) == input_enc(ins[0]) + inputs_enc(tail.take(k - 1)));
        assert(input_enc(ins[0]) + (inputs_enc(tail.take(k - 1)) + input_enc(ins[k])) =~= (
        input_enc(ins[0]) + inputs_enc(tail.take(k - 1))) + input_enc(ins[k]));
    }
}

/// Extending an encoded prefix of an output list by one more element.
pub proof fn lemma_outputs_enc_snoc(outs: Seq<OutputM>, k: int)
    requires
        0 <= k < outs.len(),
    ensures
        outputs_enc(outs.take(k + 1)) == outputs_enc(outs.take(k)) + output_enc(outs[k]),
    decreases k,
{
    if k == 0 {
        assert(outs.take(1) =~= seq![outs[0]]);
        assert(outs.take(1).skip(1) =~= Seq::<OutputM>::empty());
        assert(outs.take(0) =~= Seq::<OutputM>::empty());
        assert(outputs_enc(outs.take(0)) + output_enc(outs[0]) =~= output_enc(outs[0])
            + outputs_enc(Seq::<OutputM>::empty()));
    } else {
        let tail = outs.skip(1);
        lemma_outputs_enc_snoc(tail, k - 1);
        assert(outs.take(k + 1).skip(1) =~= tail.take(k));
        assert(outs.take(k).skip(1) =~= tail.take(k - 1));
        assert(tail[k - 1] == outs[k]);
        assert(outputs_enc(outs.take(k + 1)) == output_enc(outs[0]) + outputs_enc(tail.take(k)));
        assert(outputs_enc(outs.take(k)) == output_enc(outs[0]) + outputs_enc(tail.take(k - 1)));
        assert(output_enc(outs[0]) + (outputs_enc(tail.take(k - 1)) + output_enc(outs[k])) =~= (
        output_enc(outs[0]) + outputs_enc(tail.take(k - 1))) + output_enc(outs[k]));
    }
}

/// Extending an encoded prefix of the witness section by one more stack.
pub proof fn lemma_witness_enc_snoc(ins: Seq<InputM>, k: int)
    requires
        0 <= k < ins.len(),
    ensures
        witness_enc(ins.take(k + 1)) == witness_enc(ins.take(k)) + stack_enc(ins[k].witness),
    decreases k,
{
    if k == 0 {
        assert(ins.take(1) =~= seq![ins[0]]);
        assert(ins.take(1).skip(1) =~= Seq::<InputM>::empty());
        assert(ins.take(0) =~= Seq::<InputM>::empty());
        assert(witness_enc(ins.take(0)) + stack_enc(ins[0].witness) =~= stack_enc(ins[0].witness)
            + witness_enc(Seq::<InputM>::empty()));
    } else {
        let tail = ins.skip(1);
        lemma_witness_enc_snoc(tail, k - 1);
        assert(ins.take(k + 1).skip(1) =~= tail.take(k));
        assert(ins.take(k).skip(1) =~= tail.take(k - 1));
        assert(tail[k - 1] == ins[k]);
        assert(witness_enc(ins.take(k + 1)) == stack_enc(ins[0].witness) + witness_enc(
            tail.take(k),
        ));
        assert(witness_enc(ins.take(k)) == stack_enc(ins[0].witness) + witness_enc(
            tail.take(k - 1),
        ));
        assert(stack_enc(ins[0].witness) + (witness_enc(tail.take(k - 1)) + stack_enc(
            ins[k].witness,
        )) =~= (stack_enc(ins[0].witness) + witness_enc(tail.take(k - 1))) + stack_enc(
            ins[k].witness,
        ));
    }
}

// ------------------------------------------------------------------
// Little-endian fields read back
// ------------------------------------------------------------------

/// The two little-endian bytes of a 16-bit value read back give the
/// value.
pub proof fn lemma_le16_roundtrip(v: u16)
    ensures
        le16_val(le16_bytes(v)) == v,
{
    assert(((v as u8) as u16) | ((((v >> 8) as u8) as u16) << 8) == v) by (bit_vector);
}

/// The four little-endian bytes of a 32-bit value read back give the
/// value.
pub proof fn lemma_le32_roundtrip(v: u32)
    ensures
        le32_val(le32_bytes(v)) == v,
{
    assert(((v as u8) as u32) | ((((v >> 8) as u8) as u32) << 8) | ((((v >> 16) as u8) as u32)
        << 16) | ((((v >> 24) as u8) as u32) << 24) == v) by (bit_vector);
}

/// The eight little-endian bytes of a 64-bit value read back give the
/// value.
pub proof fn lemma_le64_roundtrip(v: u64)
    ensures
        le64_val(le64_bytes(v)) == v,
{
    assert(((v as u8) as u64) | ((((v >> 8) as u8) as u64) << 8) | ((((v >> 16) as u8) as u64)
        << 16) | ((((v >> 24) as u8) as u64) << 24) | ((((v >> 32) as u8) as u64) << 32) | ((((v
        >> 40) as u8) as u64) << 40) | ((((v >> 48) as u8) as u64) << 48) | ((((v >> 56) as u8)
        as u64) << 56) == v) by (bit_vector);
}

// ------------------------------------------------------------------
// Splitting a buffer that holds a concatenation
// ------------------------------------------------------------------

/// If the bytes at `i` are the concatenation `a + b`, then the bytes at
/// `i` are `a` and the bytes just after them are `b`.
pub proof fn lemma_split(s: Seq<u8>, i: int, a: Seq<u8>, b: Seq<u8>)
    requires
        0 <= i,
        i + a.len() + b.len() <= s.len(),
        s.subrange(i, i + a.len() + b.len()) == a + b,
    ensures
        s.subrange(i, i + a.len()) == a,
        s.subrange(i + a.len(), i + a.len() + b.len()) == b,
{
    let whole = s.subrange(i, i + a.len() + b.len());
    assert forall|k: int| 0 <= k < a.len() implies #[trigger] s.subrange(i, i + a.len() as int)[k] == a[k] by {
        assert(whole[k] == s[i + k]);
        assert(whole[k] == (a + b)[k]);
    }
    assert(s.subrange(i, i + a.len() as int) =~= a);
    assert forall|k: int| 0 <= k < b.len() implies #[trigger] s.subrange(
        i + a.len(),
        i + a.len() + b.len(),
    )[k] == b[k] by {
        assert(whole[a.len() + k] == s[i + a.len() + k]);
        assert(whole[a.len() + k] == (a + b)[a.len() + k]);
    }
    assert(s.subrange(i + a.len(), i + a.len() + b.len()) =~= b);
}

// ------------------------------------------------------------------
// The specification decoder over the specification encoder, piecewise
// ------------------------------------------------------------------

/// A 32-bit field written at `i` decodes to its value.
pub proof fn lemma_u32_field(s: Seq<u8>, i: int, v: u32, f: Field)
    requires
        0 <= i,
        i + 4 <= s.len(),
        s.subrange(i, i + 4) == le32_bytes(v),
    ensures
        dec_u32(s, i, f) == Ok::<(u32, int), DecodeError>((v, i + 4)),
{
    lemma_le32_roundtrip(v);
}

/// A 64-bit field written at `i` decodes to its value.
pub proof fn lemma_u64_field(s: Seq<u8>, i: int, v: u64, f: Field)
    requires
        0 <= i,
        i + 8 <= s.len(),
        s.subrange(i, i + 8) == le64_bytes(v),
    ensures
        dec_u64(s, i, f) == Ok::<(u64, int), DecodeError>((v, i + 8)),
{
    lemma_le64_roundtrip(v);
}

/// A canonically encoded compact size written at `i` decodes to its
/// value and consumes exactly its own bytes.
pub proof fn lemma_varint_roundtrip(s: Seq<u8>, i: int, v: u64, f: Field)
    requires
        0 <= i,
        i + varint_enc(v).len() <= s.len(),
        s.subrange(i, i + varint_enc(v).len()) == varint_enc(v),
    ensures
        dec_varint(s, i, f) == Ok::<(u64, int), DecodeError>((v, i + varint_enc(v).len())),
{
    let e = varint_enc(v);
    if v <= 252 {
        assert(s.subrange(i, i + 1)[0] == s[i]);
        assert(s[i] == v as u8);
        assert((v as u8) <= 252 && (v as u8) as u64 == v) by (bit_vector)
            requires
                v <= 252,
        ;
    } else if v <= 0xFFFF {
        assert(e.len() == 3);
        assert(s.subrange(i, i + 3)[0] == s[i]);
        assert(s[i] == 253);
        assert forall|k: int| 0 <= k < 2 implies #[trigger] s.subrange(i + 1, i + 3)[k] == le16_bytes(
            v as u16,
        )[k] by {
            assert(s.subrange(i, i + 3)[k + 1] == s[i + k + 1]);
            assert(s.subrange(i + 1, i + 3)[k] == s[i + 1 + k]);
            assert(e[k + 1] == le16_bytes(v as u16)[k]);
        }
        assert(s.subrange(i + 1, i + 3) =~= le16_bytes(v as u16));
        lemma_le16_roundtrip(v as u16);
        assert((v as u16) as u64 == v) by (bit_vector)
            requires
                v <= 0xFFFF,
        ;
        assert(dec_u16(s, i + 1, f) == Ok::<(u16, int), DecodeError>((v as u16, i + 3)));
    } else if v <= 0xFFFF_FFFF {
        assert(e.len() == 5);
        assert(s.subrange(i, i + 5)[0] == s[i]);
        assert(s[i] == 254);
        assert forall|k: int| 0 <= k < 4 implies #[trigger] s.subrange(i + 1, i + 5)[k] == le32_bytes(
            v as u32,
        )[k] by {
            assert(s.subrange(i, i + 5)[k + 1] == s[i + k + 1]);
            assert(s.subrange(i + 1, i + 5)[k] == s[i + 1 + k]);
            assert(e[k + 1] == le32_bytes(v as u32)[k]);
        }
        assert(s.subrange(i + 1, i + 5) =~= le32_bytes(v as u32));
        lemma_le32_roundtrip(v as u32);
        assert((v as u32) as u64 == v) by (bit_vector)
            requires
                v <= 0xFFFF_FFFF,
        ;
        assert(dec_u32(s, i + 1, f) == Ok::<(u32, int), DecodeError>((v as u32, i + 5)));
    } else {
        assert(e.len() == 9);
        assert(s.subrange(i, i + 9)[0] == s[i]);
        assert(s[i] == 255);
        assert forall|k: int| 0 <= k < 8 implies #[trigger] s.subrange(i + 1, i + 9)[k] == le64_bytes(v)[k] by {
            assert(s.subrange(i, i + 9)[k + 1] == s[i + k + 1]);
            assert(s.subrange(i + 1, i + 9)[k] == s[i + 1 + k]);
            assert(e[k + 1] == le64_bytes(v)[k]);
        }
        assert(s.subrange(i + 1, i + 9) =~= le64_bytes(v));
        lemma_le64_roundtrip(v);
        assert(dec_u64(s, i + 1, f) == Ok::<(u64, int), DecodeError>((v, i + 9)));
    }
}

/// A length-prefixed blob written at `i` decodes to its bytes.
pub proof fn lemma_blob_roundtrip(s: Seq<u8>, i: int, b: Seq<u8>, f: Field)
    requires
        0 <= i,
        b.len() <= u64::MAX,
        i + blob_enc(b).len() <= s.len(),
        s.subrange(i, i + blob_enc(b).len()) == blob_enc(b),
    ensures
        dec_blob(s, i, f) == Ok::<(Seq<u8>, int), DecodeError>((b, i + blob_enc(b).len())),
{
    let n = b.len() as u64;
    let e = varint_enc(n);
    lemma_split(s, i, e, b);
    lemma_varint_roundtrip(s, i, n, f);
    assert(n as int == b.len() as int);
}

/// One encoded input read back: the same input, with the empty witness
/// stack that the legacy layout implies.
pub proof fn lemma_input_roundtrip(s: Seq<u8>, i: int, x: InputM)
    requires
        0 <= i,
        wf_input(x),
        i + input_enc(x).len() <= s.len(),
        s.subrange(i, i + input_enc(x).len()) == input_enc(x),
    ensures
        dec_input(s, i) == Ok::<(InputM, int), DecodeError>(
            (blank_input(x), i + input_enc(x).len()),
        ),
{
    let a = seq_rev(x.txid);
    let b2 = le32_bytes(x.output_index);
    let b3 = blob_enc(x.script_sig);
    let b4 = le32_bytes(x.sequence);
    lemma_split(s, i, a, b2 + (b3 + b4));
    let i1 = i + 32;
    lemma_split(s, i1, b2, b3 + b4);
    let i2 = i1 + 4;
    lemma_split(s, i2, b3, b4);
    let i3 = i2 + b3.len();
    assert(dec_bytes(s, i, 32, Field::PrevTxId) == Ok::<(Seq<u8>, int), DecodeError>((a, i1)));
    lemma_seq_rev_rev(x.txid);
    lemma_u32_field(s, i1, x.output_index, Field::PrevIndex);
    lemma_blob_roundtrip(s, i2, x.script_sig, Field::ScriptSig);
    lemma_u32_field(s, i3, x.sequence, Field::Sequence);
}

/// An encoded input list read back, in order, every witness empty.
pub proof fn lemma_inputs_roundtrip(s: Seq<u8>, i: int, ins: Seq<InputM>)
    requires
        0 <= i,
        forall|k: int| 0 <= k < ins.len() ==> wf_input(#[trigger] ins[k]),
        i + inputs_enc(ins).len() <= s.len(),
        s.subrange(i, i + inputs_enc(ins).len()) == inputs_enc(ins),
    ensures
        dec_inputs(s, i, ins.len()) == Ok::<(Seq<InputM>, int), DecodeError>(
            (blank_inputs(ins), i + inputs_enc(ins).len()),
        ),
    decreases ins.len(),
{
    if ins.len() == 0 {
        assert(blank_inputs(ins) =~= Seq::<InputM>::empty());
    } else {
        lemma_split(s, i, input_enc(ins[0]), inputs_enc(ins.skip(1)));
        lemma_input_roundtrip(s, i, ins[0]);
        let j = i + input_enc(ins[0]).len();
        assert forall|k: int| 0 <= k < ins.skip(1).len() implies wf_input(
            #[trigger] ins.skip(1)[k],
        ) by {
            assert(ins.skip(1)[k] == ins[k + 1]);
        }
        lemma_inputs_roundtrip(s, j, ins.skip(1));
        assert(seq![blank_input(ins[0])] + blank_inputs(ins.skip(1)) =~= blank_inputs(ins));
    }
}

/// One encoded output read back.
pub proof fn lemma_output_roundtrip(s: Seq<u8>, i: int, o: OutputM)
    requires
        0 <= i,
        wf_output(o),
        i + output_enc(o).len() <= s.len(),
        s.subrange(i, i + output_enc(o).len()) == output_enc(o),
    ensures
        dec_output(s, i) == Ok::<(OutputM, int), DecodeError>((o, i + output_enc(o).len())),
{
    lemma_split(s, i, le64_bytes(o.value), blob_enc(o.script_pubkey));
    lemma_u64_field(s, i, o.value, Field::Value);
    lemma_blob_roundtrip(s, i + 8, o.script_pubkey, Field::ScriptPubKey);
}

/// An encoded output list read back, in order.
pub proof fn lemma_outputs_roundtrip(s: Seq<u8>, i: int, outs: Seq<OutputM>)
    requires
        0 <= i,
        forall|k: int| 0 <= k < outs.len() ==> wf_output(#[trigger] outs[k]),
        i + outputs_enc(outs).len() <= s.len(),
        s.subrange(i, i + outputs_enc(outs).len()) == outputs_enc(outs),
    ensures
        dec_outputs(s, i, outs.len()) == Ok::<(Seq<OutputM>, int), DecodeError>(
            (outs, i + outputs_enc(outs).len()),
        ),
    decreases outs.len(),
{
    if outs.len() == 0 {
        assert(outs =~= Seq::<OutputM>::empty());
    } else {
        lemma_split(s, i, output_enc(outs[0]), outputs_enc(outs.skip(1)));
        lemma_output_roundtrip(s, i, outs[0]);
        let j = i + output_enc(outs[0]).len();
        assert forall|k: int| 0 <= k < outs.skip(1).len() implies wf_output(
            #[trigger] outs.skip(1)[k],
        ) by {
            assert(outs.skip(1)[k] == outs[k + 1]);
        }
        lemma_outputs_roundtrip(s, j, outs.skip(1));
        assert(seq![outs[0]] + outs.skip(1) =~= outs);
    }
}

/// An encoded blob list read back, in order.
pub proof fn lemma_blobs_roundtrip(s: Seq<u8>, i: int, ws: Seq<Seq<u8>>)
    requires
        0 <= i,
        forall|k: int| 0 <= k < ws.len() ==> (#[trigger] ws[k]).len() <= u64::MAX,
        i + blobs_enc(ws).len() <= s.len(),
        s.subrange(i, i + blobs_enc(ws).len()) == blobs_enc(ws),
    ensures
        dec_blobs(s, i, ws.len()) == Ok::<(Seq<Seq<u8>>, int), DecodeError>(
            (ws, i + blobs_enc(ws).len()),
        ),
    decreases ws.len(),
{
    if ws.len() == 0 {
        assert(ws =~= Seq::<Seq<u8>>::empty());
    } else {
        lemma_split(s, i, blob_enc(ws[0]), blobs_enc(ws.skip(1)));
        lemma_blob_roundtrip(s, i, ws[0], Field::WitnessItem);
        let j = i + blob_enc(ws[0]).len();
        assert forall|k: int| 0 <= k < ws.skip(1).len() implies (#[trigger] ws.skip(1)[k]).len()
            <= u64::MAX by {
            assert(ws.skip(1)[k] == ws[k + 1]);
        }
        lemma_blobs_roundtrip(s, j, ws.skip(1));
        assert(seq![ws[0]] + ws.skip(1) =~= ws);
    }
}

/// An encoded witness stack read back.
pub proof fn lemma_stack_roundtrip(s: Seq<u8>, i: int, w: Seq<Seq<u8>>)
    requires
        0 <= i,
        w.len() <= u64::MAX,
        forall|k: int| 0 <= k < w.len() ==> (#[trigger] w[k]).len() <= u64::MAX,
        i + stack_enc(w).len() <= s.len(),
        s.subrange(i, i + stack_enc(w).len()) == stack_enc(w),
    ensures
        dec_stack(s, i) == Ok::<(Seq<Seq<u8>>, int), DecodeError>((w, i + stack_enc(w).len())),
{
    let n = w.len() as u64;
    lemma_split(s, i, varint_enc(n), blobs_enc(w));
    lemma_varint_roundtrip(s, i, n, Field::WitnessItemCount);
    lemma_blobs_roundtrip(s, i + varint_enc(n).len(), w);
    assert(n as nat == w.len());
}

/// The encoded witness section read back: each stack lands on its input,
/// in input order.
pub proof fn lemma_witness_roundtrip(s: Seq<u8>, i: int, ins: Seq<InputM>)
    requires
        0 <= i,
        forall|k: int| 0 <= k < ins.len() ==> wf_input(#[trigger] ins[k]),
        i + witness_enc(ins).len() <= s.len(),
        s.subrange(i, i + witness_enc(ins).len()) == witness_enc(ins),
    ensures
        dec_witness(s, i, blank_inputs(ins)) == Ok::<(Seq<InputM>, int), DecodeError>(
            (ins, i + witness_enc(ins).len()),
        ),
    decreases ins.len(),
{
    if ins.len() == 0 {
        assert(blank_inputs(ins) =~= Seq::<InputM>::empty());
        assert(ins =~= Seq::<InputM>::empty());
    } else {
        lemma_split(s, i, stack_enc(ins[0].witness), witness_enc(ins.skip(1)));
        lemma_stack_roundtrip(s, i, ins[0].witness);
        let j = i + stack_enc(ins[0].witness).len();
        assert forall|k: int| 0 <= k < ins.skip(1).len() implies wf_input(
            #[trigger] ins.skip(1)[k],
        ) by {
            assert(ins.skip(1)[k] == ins[k + 1]);
        }
        lemma_witness_roundtrip(s, j, ins.skip(1));
        assert(blank_inputs(ins).skip(1) =~= blank_inputs(ins.skip(1)));
        assert(blank_inputs(ins)[0] == blank_input(ins[0]));
        assert(InputM { witness: ins[0].witness, ..blank_inputs(ins)[0] } == ins[0]);
        assert(seq![ins[0]] + ins.skip(1) =~= ins);
    }
}

// ------------------------------------------------------------------
// Where each piece of a whole encoded transaction lies
// ------------------------------------------------------------------

/// Length of the marker/flag pair, when present.
pub open spec fn seg_len(t: TxM) -> int {
    if has_witness(t) {
        2int
    } else {
        0int
    }
}

/// Length of the witness section, when present.
pub open spec fn wit_len(t: TxM) -> int {
    if has_witness(t) {
        witness_enc(t.inputs).len() as int
    } else {
        0int
    }
}

/// Offset of the input count in `tx_enc(t)`.
pub open spec fn off_count(t: TxM) -> int {
    4 + seg_len(t)
}

/// Offset of the first input.
pub open spec fn off_inputs(t: TxM) -> int {
    off_count(t) + varint_enc(t.inputs.len() as u64).len()
}

/// Offset of the output count.
pub open spec fn off_ocount(t: TxM) -> int {
    off_inputs(t) + inputs_enc(t.inputs).len()
}

/// Offset of the first output.
pub open spec fn off_outputs(t: TxM) -> int {
    off_ocount(t) + varint_enc(t.outputs.len() as u64).len()
}

/// Offset of the witness section (or of the lock time, when there is
/// none).
pub open spec fn off_wit(t: TxM) -> int {
    off_outputs(t) + outputs_enc(t.outputs).len()
}

/// Offset of the lock time.
pub open spec fn off_lock(t: TxM) -> int {
    off_wit(t) + wit_len(t)
}

/// Each piece of a whole encoded transaction lies at its offset.
#[verifier::rlimit(100)]
pub proof fn lemma_tx_layout(t: TxM)
    ensures
        tx_enc(t).len() == off_lock(t) + 4,
        tx_enc(t).subrange(0, 4) == le32_bytes(t.version),
        has_witness(t) ==> tx_enc(t).subrange(4, 6) == seq![0u8, 1u8],
        tx_enc(t).subrange(off_count(t), off_inputs(t)) == varint_enc(t.inputs.len() as u64),
        tx_enc(t).subrange(off_inputs(t), off_ocount(t)) == inputs_enc(t.inputs),
        tx_enc(t).subrange(off_ocount(t), off_outputs(t)) == varint_enc(t.outputs.len() as u64),
        tx_enc(t).subrange(off_outputs(t), off_wit(t)) == outputs_enc(t.outputs),
        has_witness(t) ==> tx_enc(t).subrange(off_wit(t), off_lock(t)) == witness_enc(t.inputs),
        tx_enc(t).subrange(off_lock(t), off_lock(t) + 4) == le32_bytes(t.lock_time),
{
    let s = tx_enc(t);
    let sw = has_witness(t);
    let p1 = le32_bytes(t.version);
    let p2: Seq<u8> = if sw {
        seq![0u8, 1u8]
    } else {
        Seq::empty()
    };
    let p3 = varint_enc(t.inputs.len() as u64);
    let p4 = inputs_enc(t.inputs);
    let p5 = varint_enc(t.outputs.len() as u64);
    let p6 = outputs_enc(t.outputs);
    let p7: Seq<u8> = if sw {
        witness_enc(t.inputs)
    } else {
        Seq::empty()
    };
    let p8 = le32_bytes(t.lock_time);
    assert(s == p1 + (p2 + (p3 + (p4 + (p5 + (p6 + (p7 + p8)))))));
    assert(s.subrange(0, s.len() as int) =~= s);
    lemma_split(s, 0, p1, p2 + (p3 + (p4 + (p5 + (p6 + (p7 + p8))))));
    lemma_split(s, 4, p2, p3 + (p4 + (p5 + (p6 + (p7 + p8)))));
    lemma_split(s, off_count(t), p3, p4 + (p5 + (p6 + (p7 + p8))));
    lemma_split(s, off_inputs(t), p4, p5 + (p6 + (p7 + p8)));
    lemma_split(s, off_ocount(t), p5, p6 + (p7 + p8));
    lemma_split(s, off_outputs(t), p6, p7 + p8);
    lemma_split(s, off_wit(t), p7, p8);
}

/// Assembling the whole decode from its pinned pieces. The hypotheses
/// are exactly what the piece lemmas establish; the body only walks the
/// decoder's match structure.
proof fn lemma_tx_assemble(
    s: Seq<u8>,
    t: TxM,
    sw: bool,
    ins0: Seq<InputM>,
    i2: int,
    i3: int,
    i4: int,
    i5: int,
    i6: int,
    i7: int,
)
    requires
        t.inputs.len() <= u64::MAX,
        t.outputs.len() <= u64::MAX,
        dec_u32(s, 0, Field::Version) == Ok::<(u32, int), DecodeError>((t.version, 4)),
        sw == (4 < s.len() && s[4] == 0),
        sw ==> 6 <= s.len() && i2 == 6,
        !sw ==> i2 == 4,
        dec_varint(s, i2, Field::InputCount) == Ok::<(u64, int), DecodeError>(
            (t.inputs.len() as u64, i3),
        ),
        dec_inputs(s, i3, t.inputs.len()) == Ok::<(Seq<InputM>, int), DecodeError>((ins0, i4)),
        dec_varint(s, i4, Field::OutputCount) == Ok::<(u64, int), DecodeError>(
            (t.outputs.len() as u64, i5),
        ),
        dec_outputs(s, i5, t.outputs.len()) == Ok::<(Seq<OutputM>, int), DecodeError>(
            (t.outputs, i6),
        ),
        sw ==> dec_witness(s, i6, ins0) == Ok::<(Seq<InputM>, int), DecodeError>((t.inputs, i7)),
        !sw ==> ins0 == t.inputs && i7 == i6,
        dec_u32(s, i7, Field::LockTime) == Ok::<(u32, int), DecodeError>((t.lock_time, i7 + 4)),
        s.len() == i7 + 4,
    ensures
        dec_tx(s, 0) == Ok::<(TxM, int), DecodeError>((TxM { segwit: sw, ..t }, s.len() as int)),
{
    assert((t.inputs.len() as u64) as nat == t.inputs.len());
    assert((t.outputs.len() as u64) as nat == t.outputs.len());
}

/// The segwit case of `lemma_tx_roundtrip`.
#[verifier::rlimit(100)]
proof fn lemma_tx_roundtrip_segwit(t: TxM)
    requires
        wf_tx(t),
        t.inputs.len() > 0,
        has_witness(t),
    ensures
        dec_tx(tx_enc(t), 0) == Ok::<(TxM, int), DecodeError>(
            (TxM { segwit: true, ..t }, tx_enc(t).len() as int),
        ),
{
    lemma_tx_layout(t);
    let s = tx_enc(t);
    let nin = t.inputs.len() as u64;
    let nout = t.outputs.len() as u64;
    lemma_u32_field(s, 0, t.version, Field::Version);
    lemma_varint_roundtrip(s, off_count(t), nin, Field::InputCount);
    assert(nin as nat == t.inputs.len());
    lemma_inputs_roundtrip(s, off_inputs(t), t.inputs);
    lemma_varint_roundtrip(s, off_ocount(t), nout, Field::OutputCount);
    assert(nout as nat == t.outputs.len());
    lemma_outputs_roundtrip(s, off_outputs(t), t.outputs);
    lemma_u32_field(s, off_lock(t), t.lock_time, Field::LockTime);
    assert(s.subrange(4, 6)[0] == s[4]);
    assert(s[4] == 0);
    lemma_witness_roundtrip(s, off_wit(t), t.inputs);
    lemma_tx_assemble(
        s,
        t,
        true,
        blank_inputs(t.inputs),
        off_count(t),
        off_inputs(t),
        off_ocount(t),
        off_outputs(t),
        off_wit(t),
        off_lock(t),
    );
}

/// The legacy case of `lemma_tx_roundtrip`.
#[verifier::rlimit(100)]
proof fn lemma_tx_roundtrip_legacy(t: TxM)
    requires
        wf_tx(t),
        t.inputs.len() > 0,
        !has_witness(t),
    ensures
        dec_tx(tx_enc(t), 0) == Ok::<(TxM, int), DecodeError>(
            (TxM { segwit: false, ..t }, tx_enc(t).len() as int),
        ),
{
    lemma_tx_layout(t);
    let s = tx_enc(t);
    let nin = t.inputs.len() as u64;
    let nout = t.outputs.len() as u64;
    lemma_u32_field(s, 0, t.version, Field::Version);
    lemma_varint_roundtrip(s, off_count(t), nin, Field::InputCount);
    assert(nin as nat == t.inputs.len());
    lemma_inputs_roundtrip(s, off_inputs(t), t.inputs);
    lemma_varint_roundtrip(s, off_ocount(t), nout, Field::OutputCount);
    assert(nout as nat == t.outputs.len());
    lemma_outputs_roundtrip(s, off_outputs(t), t.outputs);
    lemma_u32_field(s, off_lock(t), t.lock_time, Field::LockTime);
    let p3 = varint_enc(nin);
    assert(s.subrange(off_count(t), off_inputs(t))[0] == s[4]);
    assert(s[4] == p3[0]);
    if nin <= 252 {
        assert(nin as u8 != 0) by (bit_vector)
            requires
                1 <= nin <= 252,
        ;
    }
    assert(s[4] != 0);
    assert forall|k: int| 0 <= k < t.inputs.len() implies blank_inputs(t.inputs)[k]
        == t.inputs[k] by {
        assert(!((#[trigger] t.inputs[k].witness).len() > 0));
        assert(t.inputs[k].witness =~= Seq::<Seq<u8>>::empty());
    }
    assert(blank_inputs(t.inputs) =~= t.inputs);
    lemma_tx_assemble(
        s,
        t,
        false,
        t.inputs,
        off_count(t),
        off_inputs(t),
        off_ocount(t),
        off_outputs(t),
        off_wit(t),
        off_lock(t),
    );
}

/// The whole encoding read back: the decoded transaction is the original
/// with its segwit flag set from the presence of witness data, and every
/// byte of the encoding is consumed. A transaction needs at least one
/// input here: with none, the encoded input count is the byte `0x00`,
/// which the decoder must take for a segwit marker.
pub proof fn lemma_tx_roundtrip(t: TxM)
    requires
        wf_tx(t),
        t.inputs.len() > 0,
    ensures
        dec_tx(tx_enc(t), 0) == Ok::<(TxM, int), DecodeError>(
            (TxM { segwit: has_witness(t), ..t }, tx_enc(t).len() as int),
        ),
{
    if has_witness(t) {
        lemma_tx_roundtrip_segwit(t);
    } else {
        lemma_tx_roundtrip_legacy(t);
    }
}

/// Round-trip: decoding an encoding gives back the transaction. This
/// holds for every well-formed transaction whose segwit flag agrees with
/// its data (the flag is set exactly when some input carries a non-empty
/// witness stack, which is also the only framing the encoder emits) and
/// which has at least one input: a zero-input transaction in legacy
/// framing starts its count section with the byte `0x00`, indistinguishable
/// from a segwit marker.
pub proof fn lemma_round_trip(t: TxM)
    requires
        wf_tx(t),
        t.inputs.len() > 0,
        t.segwit == has_witness(t),
    ensures
        dec_tx_strict(tx_enc(t)) == Ok::<TxM, DecodeError>(t),
{
    lemma_tx_roundtrip(t);
    assert(TxM { segwit: has_witness(t), ..t } == t);
}

} // verus!
