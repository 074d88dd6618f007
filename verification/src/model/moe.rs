//! The sparse mixture-of-experts feed-forward part.
//!
//! A sigmoid router scores the experts. The four with the largest score plus bias are
//! chosen; their weights are the scores without the bias, normalised. The output is the
//! weighted sum of the chosen experts' SwiGLU parts. Every token is routed by itself.
use crate::config::{
    dense_layer, route_eps, route_eps_spec, HIDDEN, MOE_FF, N_EXPERTS, N_EXPERTS_USED, N_LAYERS,
};
use crate::gguf::{dims_product, GgufFile, TensorInfo};
use crate::kernels::activation::{sigmoid_slice, sigmoids, swiglu, swiglu_spec};
use crate::kernels::elementwise::{add_scaled, scaled_sums};
use crate::kernels::matmul::{matvec, matvec_ok, matvec_spec};
use crate::layout::{
    lemma_row_bounds, lemma_split_index, lemma_stack_len, lemma_stack_push, row,
    stack,
};
use crate::model::layers::{decoded, lemma_matrix, lemma_provides, lemma_vector, project};
use crate::model::tensors::{layer_name, name, operator_tensors};
use crate::model::{provides, runnable, Model};
use crate::scalar::{append_row, filled, sum, sum_all, Scalar};
use crate::select::{top, top_indices, top_ranks_first};
use crate::tensor::{lemma_row_bytes, row_bytes, supported, GgmlType};
use vstd::prelude::*;

verus! {

/// The bytes of one expert's matrix in a stack of experts.
pub open spec fn expert_stride(dtype: GgmlType, n_in: int, n_out: int) -> int {
    n_out * row_bytes(dtype, n_in)
}

/// The product of one expert's matrix with `x`.
pub open spec fn expert<T: Scalar>(
    file: GgufFile,
    name: Seq<char>,
    x: Seq<T>,
    n_out: int,
    e: int,
) -> Seq<T> {
    let t = file.lookup(name).unwrap();
    let stride = expert_stride(t.ggml_type, x.len() as int, n_out);
    matvec_spec(t.ggml_type, row(file.bytes_of(&t), stride, e), x, n_out)
}

/// The keys that experts are chosen by: score plus bias.
pub open spec fn route_keys<T: Scalar>(scores: Seq<T>, bias: Seq<T>) -> Seq<i64> {
    Seq::new(scores.len(), |e: int| scores[e].add_spec(bias[e]).key_spec())
}

/// The chosen experts, best first.
pub open spec fn chosen<T: Scalar>(scores: Seq<T>, bias: Seq<T>) -> Seq<usize> {
    top(route_keys(scores, bias), N_EXPERTS_USED as nat)
}

/// The scores of the chosen experts.
pub open spec fn chosen_scores<T: Scalar>(scores: Seq<T>, sel: Seq<usize>) -> Seq<T> {
    Seq::new(sel.len(), |i: int| scores[sel[i] as int])
}

/// The weights of the chosen experts: their scores, divided by their sum.
pub open spec fn route_weights<T: Scalar>(scores: Seq<T>, sel: Seq<usize>) -> Seq<T> {
    let raw = chosen_scores(scores, sel);
    Seq::new(sel.len(), |i: int| raw[i].div_spec(sum(raw).add_spec(route_eps_spec())))
}

/// The SwiGLU part of one expert.
pub open spec fn expert_ffn<T: Scalar>(file: GgufFile, layer: int, x: Seq<T>, e: int) -> Seq<T> {
    let gate = expert(file, layer_name(layer, "ffn_gate_exps.weight"@), x, MOE_FF as int, e);
    let up = expert(file, layer_name(layer, "ffn_up_exps.weight"@), x, MOE_FF as int, e);
    expert(
        file,
        layer_name(layer, "ffn_down_exps.weight"@),
        swiglu_spec(gate, up),
        HIDDEN as int,
        e,
    )
}

/// The weighted sum of the first `n` chosen experts.
pub open spec fn mixed<T: Scalar>(
    file: GgufFile,
    layer: int,
    x: Seq<T>,
    sel: Seq<usize>,
    w: Seq<T>,
    n: nat,
) -> Seq<T>
    decreases n,
{
    if n == 0 {
        Seq::new(HIDDEN as nat, |i: int| T::zero_spec())
    } else {
        scaled_sums(
            mixed(file, layer, x, sel, w, (n - 1) as nat),
            expert_ffn(file, layer, x, sel[n - 1] as int),
            w[n - 1],
        )
    }
}

/// The router's scores for one token.
pub open spec fn router_scores<T: Scalar>(file: GgufFile, layer: int, x: Seq<T>) -> Seq<T> {
    sigmoids(
        project(file, layer_name(layer, "ffn_gate_inp.weight"@), x, N_EXPERTS as int),
    )
}

/// The mixture for one token.
pub open spec fn moe_token_spec<T: Scalar>(file: GgufFile, layer: int, x: Seq<T>) -> Seq<T> {
    let scores = router_scores(file, layer, x);
    let sel = chosen(scores, decoded(file, layer_name(layer, "exp_probs_b.bias"@)));
    mixed(file, layer, x, sel, route_weights(scores, sel), N_EXPERTS_USED as nat)
}

/// The mixture for every position.
pub open spec fn moe_ffn_spec<T: Scalar>(
    file: GgufFile,
    layer: int,
    x: Seq<T>,
    seq: int,
) -> Seq<T> {
    stack(seq, HIDDEN as int, |t: int| moe_token_spec(file, layer, row(x, HIDDEN as int, t)))
}

/// The bytes of one expert's `[n_in, n_out]` matrix in a stack `[n_in, n_out, n_experts]`.
pub fn expert_bytes(dtype: GgmlType, n_in: usize, n_out: usize) -> (r: usize)
    requires
        supported(dtype),
        expert_stride(dtype, n_in as int, n_out as int) <= usize::MAX,
    ensures
        r == expert_stride(dtype, n_in as int, n_out as int),
{
    match dtype.block() {
        Some((elems, bytes)) => {
            let blocks: usize = n_in / elems as usize;
            assert(row_bytes(dtype, n_in as int) == blocks * bytes);
            assert(n_out * (blocks * bytes) == (n_out * blocks) * bytes && 0 <= n_out * blocks <= (
            n_out * blocks) * bytes) by (nonlinear_arith)
                requires
                    bytes >= 1,
            ;
            n_out * blocks * bytes as usize
        },
        None => 0,
    }
}

/// Chooses the experts of one token and weighs them.
pub fn route<T: Scalar>(scores: &[T], bias: &[T]) -> (r: (Vec<usize>, Vec<T>))
    requires
        scores@.len() == bias@.len(),
        scores@.len() >= N_EXPERTS_USED,
    ensures
        r.0@ == chosen(scores@, bias@),
        r.1@ == route_weights(scores@, chosen(scores@, bias@)),
        r.0@.len() == N_EXPERTS_USED,
        forall|i: int| 0 <= i < N_EXPERTS_USED ==> (#[trigger] r.0@[i]) < scores@.len(),
{
    let n: usize = scores.len();
    let mut keys: Vec<i64> = Vec::new();
    while keys.len() < n
        invariant
            n == scores@.len(),
            n == bias@.len(),
            keys@.len() <= n,
            forall|e: int| 0 <= e < keys@.len() ==> keys@[e] == route_keys(scores@, bias@)[e],
        decreases n - keys@.len(),
    {
        let e: usize = keys.len();
        keys.push(scores[e].add(bias[e]).key());
    }
    assert(keys@ =~= route_keys(scores@, bias@));
    let sel: Vec<usize> = top_indices(keys.as_slice(), N_EXPERTS_USED);
    proof {
        assert(keys@.len() == n);
        top_ranks_first(keys@, N_EXPERTS_USED as nat);
    }
    let mut raw: Vec<T> = Vec::new();
    while raw.len() < sel.len()
        invariant
            raw@.len() <= sel@.len(),
            forall|i: int| 0 <= i < sel@.len() ==> (#[trigger] sel@[i]) < scores@.len(),
            forall|i: int| 0 <= i < raw@.len() ==> raw@[i] == scores@[sel@[i] as int],
        decreases sel@.len() - raw@.len(),
    {
        let i: usize = raw.len();
        raw.push(scores[sel[i]]);
    }
    assert(raw@ =~= chosen_scores(scores@, sel@));
    let denom: T = sum_all(raw.as_slice()).add(route_eps());
    let mut w: Vec<T> = Vec::new();
    while w.len() < sel.len()
        invariant
            w@.len() <= sel@.len(),
            raw@.len() == sel@.len(),
            forall|i: int| 0 <= i < w@.len() ==> w@[i] == raw@[i].div_spec(denom),
        decreases sel@.len() - w@.len(),
    {
        let i: usize = w.len();
        w.push(raw[i].div(denom));
    }
    assert(w@ =~= route_weights(scores@, sel@));
    (sel, w)
}

/// The matrix of every expert lies inside its stack.
proof fn lemma_expert_stack(file: GgufFile, name: Seq<char>, n_in: u64, n_out: u64, e: int)
    requires
        provides(file, name, seq![n_in, n_out, N_EXPERTS as u64]),
        0 <= e < N_EXPERTS,
    ensures
        ({
            let t = file.lookup(name).unwrap();
            let rb = row_bytes(t.ggml_type, n_in as int);
            let stride = expert_stride(t.ggml_type, n_in as int, n_out as int);
            &&& supported(t.ggml_type)
            &&& file.bytes_of(&t).len() == N_EXPERTS * stride
            &&& 0 <= rb
            &&& n_out > 0 ==> rb <= stride
            &&& 0 <= stride <= N_EXPERTS * stride
            &&& 0 <= e * stride
            &&& (e + 1) * stride == e * stride + stride
            &&& (e + 1) * stride <= N_EXPERTS * stride
            &&& matvec_ok(t.ggml_type, stride, n_in as int, n_out as int)
        }),
{
    let t = file.lookup(name).unwrap();
    let d = seq![n_in, n_out, N_EXPERTS as u64];
    assert(t.dims@ == d);
    reveal_with_fuel(dims_product, 4);
    assert(dims_product(d, 3) == 1);
    assert(dims_product(d, 2) == N_EXPERTS * 1);
    assert(dims_product(d, 1) == n_out * N_EXPERTS);
    lemma_row_bytes(t.ggml_type, n_in as int);
    let rb = row_bytes(t.ggml_type, n_in as int);
    let stride = n_out * rb;
    assert((n_out * N_EXPERTS) * rb == N_EXPERTS * stride) by (nonlinear_arith)
        requires
            stride == n_out * rb,
    ;
    assert(0 <= stride <= N_EXPERTS * stride && (n_out >= 1 ==> rb <= stride))
        by (nonlinear_arith)
        requires
            stride == n_out * rb,
            rb >= 0,
            N_EXPERTS >= 1,
    ;
    lemma_row_bounds(N_EXPERTS as int, stride, e);
}

/// The product of one expert's matrix with `x`.
fn expert_product<T: Scalar>(
    dtype: GgmlType,
    data: &[u8],
    stride: usize,
    x: &[T],
    n_out: usize,
    e: usize,
) -> (r: Vec<T>)
    requires
        (e + 1) * stride <= data@.len(),
        0 <= e * stride,
        (e + 1) * stride == e * stride + stride,
        matvec_ok(dtype, stride as int, x@.len() as int, n_out as int),
    ensures
        r@ == matvec_spec(dtype, row(data@, stride as int, e as int), x@, n_out as int),
{
    let mut y: Vec<T> = filled(T::zero(), n_out);
    assert(data.len() == data@.len());
    let at: usize = e * stride;
    matvec(dtype, &data[at..at + stride], x.len(), n_out, x, y.as_mut_slice());
    y
}

impl<'a> Model<'a> {
    /// The SwiGLU part of one expert.
    fn expert_out<T: Scalar>(&self, layer: usize, x: &[T], e: usize) -> (r: Vec<T>)
        requires
            runnable(self.file()),
            layer < N_LAYERS,
            !dense_layer(layer as int),
            x@.len() == HIDDEN,
            e < N_EXPERTS,
        ensures
            r@ == expert_ffn(self.file(), layer as int, x@, e as int),
            r@.len() == HIDDEN,
    {
        let ghost file = self.file();
        let ghost l = layer as int;
        let ghost gn = layer_name(l, "ffn_gate_exps.weight"@);
        let ghost un = layer_name(l, "ffn_up_exps.weight"@);
        let ghost dn = layer_name(l, "ffn_down_exps.weight"@);
        proof {
            let n = 2 + operator_tensors(l).len() as int;
            lemma_provides(file, l, n + 2);
            lemma_provides(file, l, n + 3);
            lemma_provides(file, l, n + 4);
            lemma_expert_stack(file, gn, HIDDEN as u64, MOE_FF as u64, e as int);
            lemma_expert_stack(file, un, HIDDEN as u64, MOE_FF as u64, e as int);
            lemma_expert_stack(file, dn, MOE_FF as u64, HIDDEN as u64, e as int);
        }
        let gate_name: String = name(layer, "ffn_gate_exps.weight");
        let up_name: String = name(layer, "ffn_up_exps.weight");
        let down_name: String = name(layer, "ffn_down_exps.weight");
        let found: (Option<&TensorInfo>, Option<&TensorInfo>, Option<&TensorInfo>) = (
            self.tensor(gate_name.as_str()),
            self.tensor(up_name.as_str()),
            self.tensor(down_name.as_str()),
        );
        match found {
            (Some(gate_exps), Some(up_exps), Some(down_exps)) => {
                let gate_data: &[u8] = self.data(gate_exps);
                let up_data: &[u8] = self.data(up_exps);
                let down_data: &[u8] = self.data(down_exps);
                assert(gate_data.len() == gate_data@.len());
                assert(up_data.len() == up_data@.len());
                assert(down_data.len() == down_data@.len());
                let gate_stride: usize = expert_bytes(gate_exps.ggml_type, HIDDEN, MOE_FF);
                let up_stride: usize = expert_bytes(up_exps.ggml_type, HIDDEN, MOE_FF);
                let down_stride: usize = expert_bytes(down_exps.ggml_type, MOE_FF, HIDDEN);
                let g: Vec<T> = expert_product(
                    gate_exps.ggml_type,
                    gate_data,
                    gate_stride,
                    x,
                    MOE_FF,
                    e,
                );
                let u: Vec<T> = expert_product(
                    up_exps.ggml_type,
                    up_data,
                    up_stride,
                    x,
                    MOE_FF,
                    e,
                );
                let mut act: Vec<T> = filled(T::zero(), MOE_FF);
                swiglu(g.as_slice(), u.as_slice(), act.as_mut_slice());
                expert_product(
                    down_exps.ggml_type,
                    down_data,
                    down_stride,
                    act.as_slice(),
                    HIDDEN,
                    e,
                )
            },
            _ => Vec::new(),
        }
    }

    /// The mixture for one token.
    fn moe_token<T: Scalar>(&self, layer: usize, x: &[T], bias: &[T]) -> (r: Vec<T>)
        requires
            runnable(self.file()),
            layer < N_LAYERS,
            !dense_layer(layer as int),
            x@.len() == HIDDEN,
            bias@ == decoded::<T>(
                self.file(),
                layer_name(layer as int, "exp_probs_b.bias"@),
            ),
            bias@.len() == N_EXPERTS,
        ensures
            r@ == moe_token_spec(self.file(), layer as int, x@),
            r@.len() == HIDDEN,
    {
        let ghost file = self.file();
        let ghost l = layer as int;
        proof {
            let n = 2 + operator_tensors(l).len() as int;
            lemma_provides(file, l, n);
            lemma_matrix(
                file,
                layer_name(l, "ffn_gate_inp.weight"@),
                HIDDEN as u64,
                N_EXPERTS as u64,
            );
        }
        let router_name: String = name(layer, "ffn_gate_inp.weight");
        let mut scores: Vec<T> = filled(T::zero(), N_EXPERTS);
        if let Some(router) = self.tensor(router_name.as_str()) {
            matvec(
                router.ggml_type,
                self.data(router),
                HIDDEN,
                N_EXPERTS,
                x,
                scores.as_mut_slice(),
            );
        }
        sigmoid_slice(scores.as_mut_slice());
        assert(scores@ == router_scores(file, l, x@));
        let (sel, w) = route(scores.as_slice(), bias);
        let mut out: Vec<T> = filled(T::zero(), HIDDEN);
        let mut i: usize = 0;
        while i < N_EXPERTS_USED
            invariant
                runnable(self.file()),
                file == self.file(),
                l == layer,
                layer < N_LAYERS,
                !dense_layer(layer as int),
                x@.len() == HIDDEN,
                i <= N_EXPERTS_USED,
                sel@.len() == N_EXPERTS_USED,
                w@.len() == N_EXPERTS_USED,
                forall|i: int| 0 <= i < N_EXPERTS_USED ==> (#[trigger] sel@[i]) < N_EXPERTS,
                out@ == mixed(file, l, x@, sel@, w@, i as nat),
                out@.len() == HIDDEN,
            decreases N_EXPERTS_USED - i,
        {
            let down: Vec<T> = self.expert_out(layer, x, sel[i]);
            add_scaled(out.as_mut_slice(), down.as_slice(), w[i]);
            i += 1;
        }
        out
    }

    /// The mixture-of-experts feed-forward part of a layer.
    pub(crate) fn moe_ffn<T: Scalar>(&self, layer: usize, x: &[T], seq: usize) -> (r: Vec<T>)
        requires
            runnable(self.file()),
            layer < N_LAYERS,
            !dense_layer(layer as int),
            x@.len() == seq * HIDDEN,
        ensures
            r@ == moe_ffn_spec(self.file(), layer as int, x@, seq as int),
            r@.len() == seq * HIDDEN,
    {
        let ghost file = self.file();
        let ghost l = layer as int;
        proof {
            let n = 2 + operator_tensors(l).len() as int;
            lemma_provides(file, l, n + 1);
            lemma_vector(file, layer_name(l, "exp_probs_b.bias"@), N_EXPERTS as u64);
        }
        let bias_name: String = name(layer, "exp_probs_b.bias");
        let bias: Vec<T> = self.dequant_vec(bias_name.as_str());
        let ghost f = |t: int| moe_token_spec(file, l, row(x@, HIDDEN as int, t));
        let mut out: Vec<T> = Vec::new();
        let mut t: usize = 0;
        assert(x.len() == x@.len());
        assert(out@ =~= stack(0, HIDDEN as int, f));
        while t < seq
            invariant
                runnable(self.file()),
                file == self.file(),
                l == layer,
                layer < N_LAYERS,
                !dense_layer(layer as int),
                x@.len() == seq * HIDDEN,
                x@.len() <= usize::MAX,
                bias@ == decoded::<T>(file, layer_name(l, "exp_probs_b.bias"@)),
                bias@.len() == N_EXPERTS,
                t <= seq,
                f == (|t: int| moe_token_spec(file, l, row(x@, HIDDEN as int, t))),
                out@ == stack(t as int, HIDDEN as int, f),
            decreases seq - t,
        {
            proof {
                lemma_row_bounds(seq as int, HIDDEN as int, t as int);
            }
            let y: Vec<T> = self.moe_token(
                layer,
                &x[t * HIDDEN..(t + 1) * HIDDEN],
                bias.as_slice(),
            );
            proof {
                assert(y@ == f(t as int));
                lemma_stack_push(t as int, HIDDEN as int, f);
            }
            append_row(&mut out, y.as_slice());
            t += 1;
        }
        proof {
            lemma_stack_len(seq as int, HIDDEN as int, f);
        }
        out
    }
}

/// The experts of a stack tile it: its bytes are those of the experts one after another.
pub proof fn experts_tile_the_stack(file: GgufFile, name: Seq<char>, n_in: u64, n_out: u64)
    requires
        provides(file, name, seq![n_in, n_out, N_EXPERTS as u64]),
    ensures
        ({
            let t = file.lookup(name).unwrap();
            let stride = expert_stride(t.ggml_type, n_in as int, n_out as int);
            file.bytes_of(&t) == stack(
                N_EXPERTS as int,
                stride,
                |e: int| row(file.bytes_of(&t), stride, e),
            )
        }),
{
    lemma_expert_stack(file, name, n_in, n_out, 0);
    let t = file.lookup(name).unwrap();
    let stride = expert_stride(t.ggml_type, n_in as int, n_out as int);
    let all = file.bytes_of(&t);
    let tiled = stack(N_EXPERTS as int, stride, |e: int| row(all, stride, e));
    assert forall|i: int| 0 <= i < all.len() implies #[trigger] tiled[i] == all[i] by {
        lemma_split_index(N_EXPERTS as int, stride, i);
        lemma_row_bounds(N_EXPERTS as int, stride, i / stride);
    }
    assert(tiled =~= all);
}

/// A token is routed to four different experts, and the biased score of no other expert
/// ranks above one of theirs.
pub proof fn routing_takes_the_best<T: Scalar>(scores: Seq<T>, bias: Seq<T>, i: int, e: usize)
    requires
        N_EXPERTS_USED <= scores.len() <= usize::MAX,
        0 <= i < N_EXPERTS_USED,
        e < scores.len(),
        !chosen(scores, bias).contains(e),
    ensures
        chosen(scores, bias).len() == N_EXPERTS_USED,
        chosen(scores, bias).no_duplicates(),
        scores[chosen(scores, bias)[i] as int].add_spec(
            bias[chosen(scores, bias)[i] as int],
        ).key_spec() >= scores[e as int].add_spec(bias[e as int]).key_spec(),
{
    top_ranks_first(route_keys(scores, bias), N_EXPERTS_USED as nat);
}

} // verus!
