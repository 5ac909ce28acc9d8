//! The transaction structure and its decoder and encoder.

use vstd::prelude::*;
use crate::err::{DecodeError, Field};
use crate::laws::{
    lemma_blobs_enc_snoc, lemma_inputs_enc_snoc, lemma_outputs_enc_snoc, lemma_seq_rev_rev, lemma_witness_enc_snoc,
};
use crate::model::{
    blob_enc, blobs_enc, dec_blobs, dec_input, dec_inputs, dec_output, dec_outputs, dec_stack, dec_tx,
    dec_tx_strict, dec_witness, has_witness, input_enc, inputs_enc, output_enc, outputs_enc,
    stack_enc, tx_enc, varint_enc, wf_input, wf_output, wf_tx, witness_enc, InputM, OutputM,
    TxM,
};
use crate::read::{read_compact_size, read_script, read_txid, read_u32, read_u64};
use crate::write::{write_compact_size, write_script, write_txid, write_u32, write_u64};

verus! {

/// One transaction input. `txid` holds the spent transaction's id in
/// reference order (the reverse of its wire order) and is 32 bytes in
/// every value the decoder produces. `witness` is empty unless the
/// transaction carried segwit data.
#[derive(Clone, Debug, PartialEq, Eq)]
pub struct TxInput {
    pub txid: Vec<u8>,
    pub output_index: u32,
    pub script_sig: Vec<u8>,
    pub sequence: u32,
    pub witness: Vec<Vec<u8>>,
}

impl View for TxInput {
    type V = InputM;

    open spec fn view(&self) -> InputM {
        InputM {
            txid: self.txid@,
            output_index: self.output_index,
            script_sig: self.script_sig@,
            sequence: self.sequence,
            witness: self.witness.deep_view(),
        }
    }
}

impl DeepView for TxInput {
    type V = InputM;

    open spec fn deep_view(&self) -> InputM {
        self.view()
    }
}

/// One transaction output: a value in the smallest currency unit and an
/// opaque public-key script.
#[derive(Clone, Debug, PartialEq, Eq)]
pub struct TxOutput {
    pub value: u64,
    pub script_pubkey: Vec<u8>,
}

impl View for TxOutput {
    type V = OutputM;

    open spec fn view(&self) -> OutputM {
        OutputM { value: self.value, script_pubkey: self.script_pubkey@ }
    }
}

impl DeepView for TxOutput {
    type V = OutputM;

    open spec fn deep_view(&self) -> OutputM {
        self.view()
    }
}

/// A whole transaction. `version` keeps the raw 32 bits of the version
/// field; `segwit` records whether the serialized form carried the
/// marker/flag pair.
#[derive(Clone, Debug, PartialEq, Eq)]
pub struct Transaction {
    pub version: u32,
    pub segwit: bool,
    pub inputs: Vec<TxInput>,
    pub outputs: Vec<TxOutput>,
    pub lock_time: u32,
}

impl View for Transaction {
    type V = TxM;

    open spec fn view(&self) -> TxM {
        TxM {
            version: self.version,
            segwit: self.segwit,
            inputs: self.inputs.deep_view(),
            outputs: self.outputs.deep_view(),
            lock_time: self.lock_time,
        }
    }
}

// ------------------------------------------------------------------
// Decoding
// ------------------------------------------------------------------

/// One input from the legacy layout; its witness stack starts out empty.
pub fn decode_input(bytes: &[u8], pos: &mut usize) -> (r: Result<TxInput, DecodeError>)
    ensures
        match r {
            Ok(x) => dec_input(bytes@, *old(pos) as int) == Ok::<(InputM, int), DecodeError>(
                (x@, *final(pos) as int),
            ) && *final(pos) <= bytes@.len() && wf_input(x@),
            Err(e) => dec_input(bytes@, *old(pos) as int) == Err::<(InputM, int), DecodeError>(e),
        },
{
    let txid = match read_txid(bytes, pos) {
        Ok(v) => v,
        Err(e) => {
            return Err(e);
        },
    };
    let output_index = match read_u32(bytes, pos, Field::PrevIndex) {
        Ok(v) => v,
        Err(e) => {
            return Err(e);
        },
    };
    let script_sig = match read_script(bytes, pos, Field::ScriptSig) {
        Ok(v) => v,
        Err(e) => {
            return Err(e);
        },
    };
    let sequence = match read_u32(bytes, pos, Field::Sequence) {
        Ok(v) => v,
        Err(e) => {
            return Err(e);
        },
    };
    let x = TxInput { txid, output_index, script_sig, sequence, witness: Vec::new() };
    proof {
        lemma_seq_rev_rev(x.txid@);
        assert(x@.witness =~= Seq::<Seq<u8>>::empty());
        assert(x.script_sig.len() <= usize::MAX);
        assert(wf_input(x@));
    }
    Ok(x)
}

/// One output: value, then the public-key script.
pub fn decode_output(bytes: &[u8], pos: &mut usize) -> (r: Result<TxOutput, DecodeError>)
    ensures
        match r {
            Ok(x) => dec_output(bytes@, *old(pos) as int) == Ok::<(OutputM, int), DecodeError>(
                (x@, *final(pos) as int),
            ) && *final(pos) <= bytes@.len() && wf_output(x@),
            Err(e) => dec_output(bytes@, *old(pos) as int) == Err::<(OutputM, int), DecodeError>(e),
        },
{
    let value = match read_u64(bytes, pos, Field::Value) {
        Ok(v) => v,
        Err(e) => {
            return Err(e);
        },
    };
    let script_pubkey = match read_script(bytes, pos, Field::ScriptPubKey) {
        Ok(v) => v,
        Err(e) => {
            return Err(e);
        },
    };
    proof {
        assert(script_pubkey.len() <= usize::MAX);
    }
    Ok(TxOutput { value, script_pubkey })
}

/// One witness stack: an item count, then that many blobs.
pub fn read_witness_stack(bytes: &[u8], pos: &mut usize) -> (r: Result<Vec<Vec<u8>>, DecodeError>)
    ensures
        match r {
            Ok(w) => dec_stack(bytes@, *old(pos) as int) == Ok::<(Seq<Seq<u8>>, int), DecodeError>(
                (w.deep_view(), *final(pos) as int),
            ) && *final(pos) <= bytes@.len() && w.deep_view().len() <= u64::MAX && (forall|j: int|
                0 <= j < w.deep_view().len() ==> (#[trigger] w.deep_view()[j]).len()
                    <= u64::MAX),
            Err(e) => dec_stack(bytes@, *old(pos) as int) == Err::<
                (Seq<Seq<u8>>, int),
                DecodeError,
            >(e),
        },
{
    let n = match read_compact_size(bytes, pos, Field::WitnessItemCount) {
        Ok(v) => v,
        Err(e) => {
            return Err(e);
        },
    };
    let ghost start: int = *pos as int;
    let mut items: Vec<Vec<u8>> = Vec::new();
    let mut k: u64 = 0;
    proof {
        assert(items.deep_view() =~= Seq::<Seq<u8>>::empty());
        if let Ok(p) = dec_blobs(bytes@, start, n as nat) {
            assert(items.deep_view() + p.0 =~= p.0);
        }
    }
    while k < n
        invariant
            k <= n,
            *pos <= bytes@.len(),
            items@.len() <= k,
            forall|j: int|
                0 <= j < items.deep_view().len() ==> (#[trigger] items.deep_view()[j]).len()
                    <= u64::MAX,
            dec_stack(bytes@, *old(pos) as int) == dec_blobs(bytes@, start, n as nat),
            match dec_blobs(bytes@, *pos as int, (n - k) as nat) {
                Ok(p) => dec_blobs(bytes@, start, n as nat) == Ok::<
                    (Seq<Seq<u8>>, int),
                    DecodeError,
                >((items.deep_view() + p.0, p.1)),
                Err(e) => dec_blobs(bytes@, start, n as nat) == Err::<
                    (Seq<Seq<u8>>, int),
                    DecodeError,
                >(e),
            },
        decreases n - k,
    {
        let ghost items0 = items.deep_view();
        let item = match read_script(bytes, pos, Field::WitnessItem) {
            Ok(v) => v,
            Err(e) => {
                return Err(e);
            },
        };
        let ghost iv = item@;
        items.push(item);
        k = k + 1;
        proof {
            assert(items@[items@.len() - 1].deep_view() =~= iv);
            assert(items@[items@.len() - 1].len() <= usize::MAX);
            assert(items.deep_view() =~= items0.push(iv));
            if let Ok(p) = dec_blobs(bytes@, *pos as int, (n - k) as nat) {
                assert(items0.push(iv) + p.0 =~= items0 + (seq![iv] + p.0));
            }
        }
    }
    proof {
        assert(items.deep_view() + Seq::<Seq<u8>>::empty() =~= items.deep_view());
    }
    Ok(items)
}

/// `n` inputs in sequence, each with an empty witness stack.
fn decode_inputs(bytes: &[u8], pos: &mut usize, n: u64) -> (r: Result<Vec<TxInput>, DecodeError>)
    ensures
        match r {
            Ok(v) => dec_inputs(bytes@, *old(pos) as int, n as nat) == Ok::<
                (Seq<InputM>, int),
                DecodeError,
            >((v.deep_view(), *final(pos) as int)) && (forall|j: int|
                0 <= j < v.deep_view().len() ==> wf_input(#[trigger] v.deep_view()[j])),
            Err(e) => dec_inputs(bytes@, *old(pos) as int, n as nat) == Err::<
                (Seq<InputM>, int),
                DecodeError,
            >(e),
        },
{
    let ghost start: int = *pos as int;
    let mut acc: Vec<TxInput> = Vec::new();
    let mut k: u64 = 0;
    proof {
        assert(acc.deep_view() =~= Seq::<InputM>::empty());
    }
    while k < n
        invariant
            k <= n,
            start == *old(pos) as int,
            forall|j: int|
                0 <= j < acc.deep_view().len() ==> wf_input(#[trigger] acc.deep_view()[j]),
            match dec_inputs(bytes@, *pos as int, (n - k) as nat) {
                Ok(p) => dec_inputs(bytes@, start, n as nat) == Ok::<
                    (Seq<InputM>, int),
                    DecodeError,
                >((acc.deep_view() + p.0, p.1)),
                Err(e) => dec_inputs(bytes@, start, n as nat) == Err::<
                    (Seq<InputM>, int),
                    DecodeError,
                >(e),
            },
        decreases n - k,
    {
        let ghost acc0 = acc.deep_view();
        let x = match decode_input(bytes, pos) {
            Ok(v) => v,
            Err(e) => {
                return Err(e);
            },
        };
        let ghost xv = x@;
        acc.push(x);
        k = k + 1;
        proof {
            assert(acc@[acc@.len() - 1].deep_view() == xv);
            assert(acc.deep_view() =~= acc0.push(xv));
            if let Ok(p) = dec_inputs(bytes@, *pos as int, (n - k) as nat) {
                assert(acc0.push(xv) + p.0 =~= acc0 + (seq![xv] + p.0));
            }
        }
    }
    proof {
        assert(acc.deep_view() + Seq::<InputM>::empty() =~= acc.deep_view());
    }
    Ok(acc)
}

/// `n` outputs in sequence.
fn decode_outputs(bytes: &[u8], pos: &mut usize, n: u64) -> (r: Result<Vec<TxOutput>, DecodeError>)
    ensures
        match r {
            Ok(v) => dec_outputs(bytes@, *old(pos) as int, n as nat) == Ok::<
                (Seq<OutputM>, int),
                DecodeError,
            >((v.deep_view(), *final(pos) as int)) && (forall|j: int|
                0 <= j < v.deep_view().len() ==> wf_output(#[trigger] v.deep_view()[j])),
            Err(e) => dec_outputs(bytes@, *old(pos) as int, n as nat) == Err::<
                (Seq<OutputM>, int),
                DecodeError,
            >(e),
        },
{
    let ghost start: int = *pos as int;
    let mut acc: Vec<TxOutput> = Vec::new();
    let mut k: u64 = 0;
    proof {
        assert(acc.deep_view() =~= Seq::<OutputM>::empty());
    }
    while k < n
        invariant
            k <= n,
            start == *old(pos) as int,
            forall|j: int|
                0 <= j < acc.deep_view().len() ==> wf_output(#[trigger] acc.deep_view()[j]),
            match dec_outputs(bytes@, *pos as int, (n - k) as nat) {
                Ok(p) => dec_outputs(bytes@, start, n as nat) == Ok::<
                    (Seq<OutputM>, int),
                    DecodeError,
                >((acc.deep_view() + p.0, p.1)),
                Err(e) => dec_outputs(bytes@, start, n as nat) == Err::<
                    (Seq<OutputM>, int),
                    DecodeError,
                >(e),
            },
        decreases n - k,
    {
        let ghost acc0 = acc.deep_view();
        let x = match decode_output(bytes, pos) {
            Ok(v) => v,
            Err(e) => {
                return Err(e);
            },
        };
        let ghost xv = x@;
        acc.push(x);
        k = k + 1;
        proof {
            assert(acc@[acc@.len() - 1].deep_view() == xv);
            assert(acc.deep_view() =~= acc0.push(xv));
            if let Ok(p) = dec_outputs(bytes@, *pos as int, (n - k) as nat) {
                assert(acc0.push(xv) + p.0 =~= acc0 + (seq![xv] + p.0));
            }
        }
    }
    proof {
        assert(acc.deep_view() + Seq::<OutputM>::empty() =~= acc.deep_view());
    }
    Ok(acc)
}

/// The witness section: one stack per input, in input order, each stack
/// replacing that input's empty one. Any shortfall in the stream here is
/// a `WitnessCountMismatch`.
fn attach_witness(bytes: &[u8], pos: &mut usize, inputs: Vec<TxInput>) -> (r: Result<
    Vec<TxInput>,
    DecodeError,
>)
    requires
        forall|j: int|
            0 <= j < inputs.deep_view().len() ==> wf_input(#[trigger] inputs.deep_view()[j]),
    ensures
        match r {
            Ok(v) => dec_witness(bytes@, *old(pos) as int, inputs.deep_view()) == Ok::<
                (Seq<InputM>, int),
                DecodeError,
            >((v.deep_view(), *final(pos) as int)) && (forall|j: int|
                0 <= j < v.deep_view().len() ==> wf_input(#[trigger] v.deep_view()[j])),
            Err(e) => dec_witness(bytes@, *old(pos) as int, inputs.deep_view()) == Err::<
                (Seq<InputM>, int),
                DecodeError,
            >(e),
        },
{
    let ghost start: int = *pos as int;
    let ghost ins0 = inputs.deep_view();
    let mut rest = inputs;
    let mut done: Vec<TxInput> = Vec::new();
    proof {
        assert(done.deep_view() =~= Seq::<InputM>::empty());
    }
    while rest.len() > 0
        invariant
            start == *old(pos) as int,
            ins0 == inputs.deep_view(),
            forall|j: int|
                0 <= j < rest.deep_view().len() ==> wf_input(#[trigger] rest.deep_view()[j]),
            forall|j: int|
                0 <= j < done.deep_view().len() ==> wf_input(#[trigger] done.deep_view()[j]),
            match dec_witness(bytes@, *pos as int, rest.deep_view()) {
                Ok(p) => dec_witness(bytes@, start, ins0) == Ok::<
                    (Seq<InputM>, int),
                    DecodeError,
                >((done.deep_view() + p.0, p.1)),
                Err(e) => dec_witness(bytes@, start, ins0) == Err::<
                    (Seq<InputM>, int),
                    DecodeError,
                >(e),
            },
        decreases rest.len(),
    {
        let ghost rest0 = rest.deep_view();
        let ghost done0 = done.deep_view();
        let mut inp = rest.remove(0);
        proof {
            assert(rest.deep_view() =~= rest0.skip(1));
            assert(wf_input(rest0[0]));
            assert(inp@ == rest0[0]);
        }
        let w = match read_witness_stack(bytes, pos) {
            Ok(v) => v,
            Err(_) => {
                return Err(DecodeError::WitnessCountMismatch);
            },
        };
        inp.witness = w;
        let ghost iv = inp@;
        done.push(inp);
        proof {
            assert(done@[done@.len() - 1].deep_view() == iv);
            assert(done.deep_view() =~= done0.push(iv));
            assert(iv == InputM { witness: w.deep_view(), ..rest0[0] });
            if let Ok(p) = dec_witness(bytes@, *pos as int, rest.deep_view()) {
                assert(done0.push(iv) + p.0 =~= done0 + (seq![iv] + p.0));
            }
        }
    }
    proof {
        assert(rest.deep_view() =~= Seq::<InputM>::empty());
        assert(done.deep_view() + Seq::<InputM>::empty() =~= done.deep_view());
    }
    Ok(done)
}

/// One whole transaction starting at the cursor; permissive about
/// trailing bytes, so a caller can pull several transactions out of one
/// buffer. On success the cursor rests just past the transaction.
pub fn decode_from(bytes: &[u8], pos: &mut usize) -> (r: Result<Transaction, DecodeError>)
    ensures
        match r {
            Ok(t) => dec_tx(bytes@, *old(pos) as int) == Ok::<(TxM, int), DecodeError>(
                (t@, *final(pos) as int),
            ) && *final(pos) <= bytes@.len() && wf_tx(t@),
            Err(e) => dec_tx(bytes@, *old(pos) as int) == Err::<(TxM, int), DecodeError>(e),
        },
{
    let version = match read_u32(bytes, pos, Field::Version) {
        Ok(v) => v,
        Err(e) => {
            return Err(e);
        },
    };
    let segwit = *pos < bytes.len() && bytes[*pos] == 0;
    if segwit {
        if bytes.len() - *pos < 2 {
            return Err(DecodeError::TruncatedInput { field: Field::MarkerFlag, offset: *pos });
        }
        *pos = *pos + 2;
    }
    let input_count = match read_compact_size(bytes, pos, Field::InputCount) {
        Ok(v) => v,
        Err(e) => {
            return Err(e);
        },
    };
    let inputs = match decode_inputs(bytes, pos, input_count) {
        Ok(v) => v,
        Err(e) => {
            return Err(e);
        },
    };
    let output_count = match read_compact_size(bytes, pos, Field::OutputCount) {
        Ok(v) => v,
        Err(e) => {
            return Err(e);
        },
    };
    let outputs = match decode_outputs(bytes, pos, output_count) {
        Ok(v) => v,
        Err(e) => {
            return Err(e);
        },
    };
    let inputs = if segwit {
        match attach_witness(bytes, pos, inputs) {
            Ok(v) => v,
            Err(e) => {
                return Err(e);
            },
        }
    } else {
        inputs
    };
    let lock_time = match read_u32(bytes, pos, Field::LockTime) {
        Ok(v) => v,
        Err(e) => {
            return Err(e);
        },
    };
    let t = Transaction { version, segwit, inputs, outputs, lock_time };
    proof {
        assert(t.inputs.len() <= usize::MAX);
        assert(t.outputs.len() <= usize::MAX);
        assert(wf_tx(t@));
    }
    Ok(t)
}

/// Strict decoding of exactly one transaction: the whole buffer must be
/// consumed, or the decode fails with `TrailingBytes`.
pub fn decode(bytes: &[u8]) -> (r: Result<Transaction, DecodeError>)
    ensures
        match r {
            Ok(t) => dec_tx_strict(bytes@) == Ok::<TxM, DecodeError>(t@) && wf_tx(t@),
            Err(e) => dec_tx_strict(bytes@) == Err::<TxM, DecodeError>(e),
        },
{
    let mut pos: usize = 0;
    match decode_from(bytes, &mut pos) {
        Err(e) => Err(e),
        Ok(t) => if pos == bytes.len() {
            Ok(t)
        } else {
            Err(DecodeError::TrailingBytes)
        },
    }
}

// ------------------------------------------------------------------
// Encoding
// ------------------------------------------------------------------

/// Whether any input carries a non-empty witness stack; decides the
/// framing that `encode` emits.
pub fn tx_has_witness(t: &Transaction) -> (b: bool)
    ensures
        b == has_witness(t@),
{
    let mut k: usize = 0;
    while k < t.inputs.len()
        invariant
            k <= t.inputs@.len(),
            forall|j: int| 0 <= j < k ==> (#[trigger] t@.inputs[j].witness).len() == 0,
        decreases t.inputs@.len() - k,
    {
        if t.inputs[k].witness.len() > 0 {
            proof {
                assert(t@.inputs[k as int].witness.len() > 0);
            }
            return true;
        }
        k = k + 1;
    }
    false
}

/// Append one input in the legacy layout: txid in wire order, output
/// index, signature script, sequence. Witness data is not written here.
fn encode_input(out: &mut Vec<u8>, i: &TxInput)
    ensures
        final(out)@ == old(out)@ + input_enc(i@),
{
    write_txid(out, &i.txid);
    write_u32(out, i.output_index);
    write_script(out, &i.script_sig);
    write_u32(out, i.sequence);
    proof {
        assert(out@ =~= old(out)@ + input_enc(i@));
    }
}

/// Append one output: value, then the public-key script.
fn encode_output(out: &mut Vec<u8>, o: &TxOutput)
    ensures
        final(out)@ == old(out)@ + output_enc(o@),
{
    write_u64(out, o.value);
    write_script(out, &o.script_pubkey);
    proof {
        assert(out@ =~= old(out)@ + output_enc(o@));
    }
}

/// Append one witness stack: item count, then each item as a blob.
fn write_witness_stack(out: &mut Vec<u8>, w: &Vec<Vec<u8>>)
    ensures
        final(out)@ == old(out)@ + stack_enc(w.deep_view()),
{
    write_compact_size(out, w.len() as u64);
    let ghost mid = out@;
    let mut k: usize = 0;
    proof {
        assert(w.deep_view().take(0) =~= Seq::<Seq<u8>>::empty());
        assert(mid + blobs_enc(w.deep_view().take(0)) =~= mid);
    }
    while k < w.len()
        invariant
            k <= w@.len(),
            w@.len() == w.deep_view().len(),
            mid == old(out)@ + varint_enc(w.deep_view().len() as u64),
            out@ == mid + blobs_enc(w.deep_view().take(k as int)),
        decreases w@.len() - k,
    {
        write_script(out, &w[k]);
        proof {
            lemma_blobs_enc_snoc(w.deep_view(), k as int);
            assert(w.deep_view()[k as int] =~= w@[k as int]@);
            assert((mid + blobs_enc(w.deep_view().take(k as int))) + blob_enc(w@[k as int]@)
                =~= mid + (blobs_enc(w.deep_view().take(k as int)) + blob_enc(
                w@[k as int]@,
            )));
        }
        k = k + 1;
    }
    proof {
        assert(w.deep_view().take(w.deep_view().len() as int) =~= w.deep_view());
        assert(mid + blobs_enc(w.deep_view()) =~= old(out)@ + stack_enc(w.deep_view()));
    }
}

/// Append every input in order, in the legacy layout.
fn encode_inputs(out: &mut Vec<u8>, ins: &Vec<TxInput>)
    ensures
        final(out)@ == old(out)@ + inputs_enc(ins.deep_view()),
{
    let ghost iv = ins.deep_view();
    let mut k: usize = 0;
    proof {
        assert(iv.take(0) =~= Seq::<InputM>::empty());
        assert(out@ + inputs_enc(iv.take(0)) =~= out@);
    }
    while k < ins.len()
        invariant
            k <= ins@.len(),
            ins@.len() == iv.len(),
            iv == ins.deep_view(),
            out@ == old(out)@ + inputs_enc(iv.take(k as int)),
        decreases ins@.len() - k,
    {
        encode_input(out, &ins[k]);
        proof {
            lemma_inputs_enc_snoc(iv, k as int);
            assert(iv[k as int] == ins@[k as int]@);
            assert((old(out)@ + inputs_enc(iv.take(k as int))) + input_enc(iv[k as int]) =~= old(
                out,
            )@ + (inputs_enc(iv.take(k as int)) + input_enc(iv[k as int])));
        }
        k = k + 1;
    }
    proof {
        assert(iv.take(iv.len() as int) =~= iv);
    }
}

/// Append every output in order.
fn encode_outputs(out: &mut Vec<u8>, outs: &Vec<TxOutput>)
    ensures
        final(out)@ == old(out)@ + outputs_enc(outs.deep_view()),
{
    let ghost ov = outs.deep_view();
    let mut k: usize = 0;
    proof {
        assert(ov.take(0) =~= Seq::<OutputM>::empty());
        assert(out@ + outputs_enc(ov.take(0)) =~= out@);
    }
    while k < outs.len()
        invariant
            k <= outs@.len(),
            outs@.len() == ov.len(),
            ov == outs.deep_view(),
            out@ == old(out)@ + outputs_enc(ov.take(k as int)),
        decreases outs@.len() - k,
    {
        encode_output(out, &outs[k]);
        proof {
            lemma_outputs_enc_snoc(ov, k as int);
            assert(ov[k as int] == outs@[k as int]@);
            assert((old(out)@ + outputs_enc(ov.take(k as int))) + output_enc(ov[k as int]) =~= old(
                out,
            )@ + (outputs_enc(ov.take(k as int)) + output_enc(ov[k as int])));
        }
        k = k + 1;
    }
    proof {
        assert(ov.take(ov.len() as int) =~= ov);
    }
}

/// Append the witness section: one stack per input, in input order.
fn encode_witness(out: &mut Vec<u8>, ins: &Vec<TxInput>)
    ensures
        final(out)@ == old(out)@ + witness_enc(ins.deep_view()),
{
    let ghost iv = ins.deep_view();
    let mut k: usize = 0;
    proof {
        assert(iv.take(0) =~= Seq::<InputM>::empty());
        assert(out@ + witness_enc(iv.take(0)) =~= out@);
    }
    while k < ins.len()
        invariant
            k <= ins@.len(),
            ins@.len() == iv.len(),
            iv == ins.deep_view(),
            out@ == old(out)@ + witness_enc(iv.take(k as int)),
        decreases ins@.len() - k,
    {
        write_witness_stack(out, &ins[k].witness);
        proof {
            lemma_witness_enc_snoc(iv, k as int);
            assert(ins@[k as int].witness.deep_view() == iv[k as int].witness);
            assert((old(out)@ + witness_enc(iv.take(k as int))) + stack_enc(iv[k as int].witness)
                =~= old(out)@ + (witness_enc(iv.take(k as int)) + stack_enc(iv[k as int].witness)));
        }
        k = k + 1;
    }
    proof {
        assert(iv.take(iv.len() as int) =~= iv);
    }
}

/// Serialize a whole transaction. Segwit framing is written exactly when
/// some input carries a non-empty witness stack; the transaction's own
/// `segwit` field is not consulted, so the output always decodes back to
/// what was encoded.
#[verifier::rlimit(80)]
pub fn encode(t: &Transaction) -> (out: Vec<u8>)
    ensures
        out@ == tx_enc(t@),
{
    let mut out: Vec<u8> = Vec::new();
    write_u32(&mut out, t.version);
    let segwit = tx_has_witness(t);
    if segwit {
        out.push(0u8);
        out.push(1u8);
    }
    write_compact_size(&mut out, t.inputs.len() as u64);
    encode_inputs(&mut out, &t.inputs);
    write_compact_size(&mut out, t.outputs.len() as u64);
    encode_outputs(&mut out, &t.outputs);
    if segwit {
        encode_witness(&mut out, &t.inputs);
    }
    write_u32(&mut out, t.lock_time);
    proof {
        if segwit {
            assert(out@ =~= tx_enc(t@));
        } else {
            assert(out@ =~= tx_enc(t@));
        }
    }
    out
}

} // verus!
