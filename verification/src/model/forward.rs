//! The forward pass and generation.
use crate::config::{
    attention_layer, dense_layer, is_attention, is_dense_ffn, rms_eps, rms_eps_spec,
    HIDDEN, N_LAYERS, VOCAB,
};
use crate::gguf::GgufFile;
use crate::kernels::dequant::{dequantize_into, weights};
use crate::kernels::elementwise::{add_assign, sums};
use crate::kernels::matmul::matvec;
use crate::kernels::rmsnorm::{rmsnorm, rmsnorm_spec};
use crate::layout::{lemma_row_bounds, lemma_stack_len, lemma_stack_push, row, stack};
use crate::model::layers::{
    attention_op_spec, conv_op_spec, decoded, dense_ffn_spec, lemma_matrix, lemma_provides,
    lemma_vector, norm_seq_spec, project,
};
use crate::model::moe::moe_ffn_spec;
use crate::model::tensors::{expected, layer_name, name, lemma_globals};
use crate::model::{provides, runnable, Model};
use crate::scalar::{append_row, filled, Scalar};
use crate::tensor::{lemma_row_bytes, row_bytes};
use vstd::prelude::*;

verus! {

/// The embedding of a token: its row of the embedding matrix, decoded.
pub open spec fn embedding<T: Scalar>(file: GgufFile, token: u32) -> Seq<T> {
    let t = file.lookup("token_embd.weight"@).unwrap();
    weights(
        t.ggml_type,
        row(file.bytes_of(&t), row_bytes(t.ggml_type, HIDDEN as int), token as int),
        HIDDEN as int,
    )
}

/// The embeddings of a sequence of tokens.
pub open spec fn embedded<T: Scalar>(file: GgufFile, tokens: Seq<u32>) -> Seq<T> {
    stack(tokens.len() as int, HIDDEN as int, |t: int| embedding(file, tokens[t]))
}

/// The operator of a layer.
pub open spec fn operator_spec<T: Scalar>(
    file: GgufFile,
    layer: int,
    x: Seq<T>,
    seq: int,
) -> Seq<T> {
    if attention_layer(layer) {
        attention_op_spec(file, layer, x, seq)
    } else {
        conv_op_spec(file, layer, x, seq)
    }
}

/// The feed-forward part of a layer.
pub open spec fn ffn_spec<T: Scalar>(file: GgufFile, layer: int, x: Seq<T>, seq: int) -> Seq<T> {
    if dense_layer(layer) {
        dense_ffn_spec(file, layer, x, seq)
    } else {
        moe_ffn_spec(file, layer, x, seq)
    }
}

/// The residual stream after the operator of a layer.
#[verifier::opaque]
pub open spec fn after_operator<T: Scalar>(
    file: GgufFile,
    layer: int,
    h: Seq<T>,
    seq: int,
) -> Seq<T> {
    let normed = norm_seq_spec(file, h, layer_name(layer, "attn_norm.weight"@), seq);
    sums(h, operator_spec(file, layer, normed, seq))
}

/// The residual stream after the feed-forward part of a layer.
#[verifier::opaque]
pub open spec fn after_ffn<T: Scalar>(
    file: GgufFile,
    layer: int,
    h: Seq<T>,
    seq: int,
) -> Seq<T> {
    let normed = norm_seq_spec(file, h, layer_name(layer, "ffn_norm.weight"@), seq);
    sums(h, ffn_spec(file, layer, normed, seq))
}

/// The residual stream after the first `n` layers.
pub open spec fn hidden<T: Scalar>(
    file: GgufFile,
    tokens: Seq<u32>,
    n: nat,
) -> Seq<T>
    decreases n,
{
    let seq = tokens.len() as int;
    if n == 0 {
        embedded(file, tokens)
    } else {
        let h = hidden::<T>(file, tokens, (n - 1) as nat);
        after_ffn(file, n - 1, after_operator(file, n - 1, h, seq), seq)
    }
}

/// The logits of the last position: its residual stream, normed, times the embedding matrix.
pub open spec fn forward_spec<T: Scalar>(
    file: GgufFile,
    tokens: Seq<u32>,
) -> Seq<T> {
    let last = row(
        hidden::<T>(file, tokens, N_LAYERS as nat),
        HIDDEN as int,
        tokens.len() - 1,
    );
    project(
        file,
        "token_embd.weight"@,
        rmsnorm_spec(last, decoded(file, "token_embd_norm.weight"@), rms_eps_spec()),
        VOCAB as int,
    )
}

/// Every token is in the vocabulary.
pub open spec fn known(tokens: Seq<u32>) -> bool {
    forall|i: int| 0 <= i < tokens.len() ==> #[trigger] tokens[i] < VOCAB
}

impl<'a> Model<'a> {
    /// The embeddings of a sequence of tokens.
    fn embed<T: Scalar>(&self, tokens: &[u32]) -> (r: Vec<T>)
        requires
            runnable(self.file()),
            known(tokens@),
        ensures
            r@ == embedded::<T>(self.file(), tokens@),
            r@.len() == tokens@.len() * HIDDEN,
    {
        let ghost file = self.file();
        proof {
            lemma_global_tensors(file);
            lemma_matrix(file, "token_embd.weight"@, HIDDEN as u64, VOCAB as u64);
        }
        let ghost f = |t: int| embedding::<T>(file, tokens@[t]);
        let mut h: Vec<T> = Vec::new();
        if let Some(tok_embd) = self.tensor("token_embd.weight") {
            let bytes: &[u8] = self.data(tok_embd);
            let (elems, size): (u64, u64) = match tok_embd.ggml_type.block() {
                Some(b) => b,
                None => (1, 0),
            };
            let ghost rb = row_bytes(tok_embd.ggml_type, HIDDEN as int);
            proof {
                lemma_row_bytes(tok_embd.ggml_type, HIDDEN as int);
                assert((HIDDEN as int / elems as int) * size == rb);
            }
            let row_len: usize = (HIDDEN / elems as usize) * size as usize;
            assert(row_len == rb);
            let mut t: usize = 0;
            assert(bytes.len() == bytes@.len());
            assert(h@ =~= stack(0, HIDDEN as int, f));
            while t < tokens.len()
                invariant
                    known(tokens@),
                    file == self.file(),
                    *tok_embd == file.lookup("token_embd.weight"@).unwrap(),
                    file.holds(tok_embd),
                    bytes@ == file.bytes_of(tok_embd),
                    bytes@.len() == VOCAB * rb,
                    bytes@.len() <= usize::MAX,
                    rb == row_bytes(tok_embd.ggml_type, HIDDEN as int),
                    row_len == rb,
                    HIDDEN as int % crate::tensor::block_elems(tok_embd.ggml_type) == 0,
                    t <= tokens@.len(),
                    f == (|t: int| embedding::<T>(file, tokens@[t])),
                    h@ == stack(t as int, HIDDEN as int, f),
                decreases tokens@.len() - t,
            {
                let tok: usize = tokens[t] as usize;
                proof {
                    lemma_row_bounds(VOCAB as int, rb, tok as int);
                    lemma_stack_push(t as int, HIDDEN as int, f);
                }
                let off: usize = tok * row_len;
                let mut e: Vec<T> = filled(T::zero(), HIDDEN);
                dequantize_into(
                    tok_embd.ggml_type,
                    &bytes[off..off + row_len],
                    e.as_mut_slice(),
                );
                assert(e@ == f(t as int));
                append_row(&mut h, e.as_slice());
                t += 1;
            }
        }
        proof {
            lemma_stack_len(tokens@.len() as int, HIDDEN as int, f);
        }
        h
    }

    /// One decoder layer: pre-norm operator and pre-norm feed-forward part, each added to
    /// the residual stream.
    fn layer<T: Scalar>(&self, layer: usize, h: &mut [T], seq: usize)
        requires
            runnable(self.file()),
            layer < N_LAYERS,
            old(h)@.len() == seq * HIDDEN,
        ensures
            final(h)@ == after_ffn(
                self.file(),
                layer as int,
                after_operator(self.file(), layer as int, old(h)@, seq as int),
                seq as int,
            ),
            final(h)@.len() == seq * HIDDEN,
    {
        let ghost l = layer as int;
        proof {
            reveal(after_operator);
            reveal(after_ffn);
            lemma_provides(self.file(), l, 0);
            lemma_provides(self.file(), l, 1);
        }
        let op_norm: String = name(layer, "attn_norm.weight");
        let normed: Vec<T> = self.norm_seq(h, op_norm.as_str(), seq);
        let op: Vec<T> = if is_attention(layer) {
            self.attention_op(layer, normed.as_slice(), seq)
        } else {
            self.conv_op(layer, normed.as_slice(), seq)
        };
        add_assign(h, op.as_slice());
        let ffn_norm: String = name(layer, "ffn_norm.weight");
        let normed: Vec<T> = self.norm_seq(h, ffn_norm.as_str(), seq);
        let ffn: Vec<T> = if is_dense_ffn(layer) {
            self.dense_ffn(layer, normed.as_slice(), seq)
        } else {
            self.moe_ffn(layer, normed.as_slice(), seq)
        };
        add_assign(h, ffn.as_slice());
    }

    /// Runs the tokens through the model and returns the logits of the last position. The
    /// whole sequence is computed.
    pub fn forward<T: Scalar>(&self, tokens: &[u32]) -> (r: Vec<T>)
        requires
            runnable(self.file()),
            tokens@.len() > 0,
            known(tokens@),
        ensures
            r@ == forward_spec::<T>(self.file(), tokens@),
            r@.len() == VOCAB,
    {
        let ghost file = self.file();
        let seq: usize = tokens.len();
        let mut h: Vec<T> = self.embed(tokens);
        let mut layer: usize = 0;
        while layer < N_LAYERS
            invariant
                runnable(self.file()),
                file == self.file(),
                seq == tokens@.len(),
                layer <= N_LAYERS,
                h@ == hidden::<T>(file, tokens@, layer as nat),
                h@.len() == seq * HIDDEN,
            decreases N_LAYERS - layer,
        {
            self.layer(layer, h.as_mut_slice(), seq);
            layer += 1;
        }
        proof {
            lemma_global_tensors(file);
            lemma_vector(file, "token_embd_norm.weight"@, HIDDEN as u64);
            lemma_matrix(file, "token_embd.weight"@, HIDDEN as u64, VOCAB as u64);
            lemma_row_bounds(seq as int, HIDDEN as int, seq - 1);
        }
        let gain: Vec<T> = self.dequant_vec("token_embd_norm.weight");
        let mut last: Vec<T> = filled(T::zero(), HIDDEN);
        assert(h.len() == h@.len());
        rmsnorm(
            &h.as_slice()[(seq - 1) * HIDDEN..seq * HIDDEN],
            gain.as_slice(),
            rms_eps(),
            last.as_mut_slice(),
        );
        let mut logits: Vec<T> = filled(T::zero(), VOCAB);
        if let Some(tok_embd) = self.tensor("token_embd.weight") {
            matvec(
                tok_embd.ggml_type,
                self.data(tok_embd),
                HIDDEN,
                VOCAB,
                last.as_slice(),
                logits.as_mut_slice(),
            );
        }
        logits
    }
}

/// A runnable file provides the tensors outside the layers.
proof fn lemma_global_tensors(file: GgufFile)
    requires
        runnable(file),
    ensures
        provides(file, "token_embd.weight"@, seq![HIDDEN as u64, VOCAB as u64]),
        provides(file, "token_embd_norm.weight"@, seq![HIDDEN as u64]),
{
    lemma_globals(N_LAYERS as nat);
    let e = expected();
    assert(provides(file, e[0].0, e[0].1));
    assert(provides(file, e[1].0, e[1].1));
}

} // verus!
