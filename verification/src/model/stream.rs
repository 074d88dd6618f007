//! The residual stream from the embeddings to the logits.
//!
//! The layers follow one another in order, each reads its own tensors only, and each adds to
//! the stream what its two parts give for the normed stream.
use crate::algebra::is_ring;
use crate::config::{dense_layer, rms_eps_spec, CONV_L_CACHE, DENSE_FF, HIDDEN, KV_DIM};
use crate::gguf::{dims_product, GgufFile};
use crate::kernels::activation::swiglu_spec;
use crate::kernels::attending::place;
use crate::kernels::dequant::weight;
use crate::kernels::rmsnorm::rmsnorm_spec;
use crate::layout::{lemma_flat_index, lemma_row_bounds, lemma_split_index, lemma_stack_len, row};
use crate::model::dataflow::{
    lemma_normed, normed, projection_is_a_matrix_product, rows_hold_consecutive_weights,
};
use crate::model::forward::{
    after_ffn, after_operator, embedded, embedding, ffn_spec, forward_spec, hidden,
};
use crate::model::layers::{
    attention_op_spec, conv_op_spec, decoded, dense_ffn_spec, gated, keys, lemma_matrix,
    norm_seq_spec, project, project_seq, queries,
};
use crate::model::moe::{expert_ffn, mixed, moe_ffn_spec, moe_token_spec, router_scores};
use crate::model::provides;
use crate::model::tensors::layer_name;
use crate::scalar::{sum, Scalar};
use crate::tensor::{lemma_row_bytes, row_bytes};
use vstd::prelude::*;

verus! {

/// Two files hold the same tensor under a name.
pub open spec fn same_tensor(a: GgufFile, b: GgufFile, name: Seq<char>) -> bool {
    let s = a.lookup(name).unwrap();
    let t = b.lookup(name).unwrap();
    &&& s.ggml_type == t.ggml_type
    &&& s.dims@ == t.dims@
    &&& a.bytes_of(&s) == b.bytes_of(&t)
}

/// Two files hold the same tensors of a layer, those named `blk.{layer}.` and anything.
pub open spec fn same_layer(a: GgufFile, b: GgufFile, layer: int) -> bool {
    forall|suffix: Seq<char>| same_tensor(a, b, #[trigger] layer_name(layer, suffix))
}

proof fn lemma_same_project<T: Scalar>(
    a: GgufFile,
    b: GgufFile,
    name: Seq<char>,
    x: Seq<T>,
    seq: int,
    n_in: int,
    n_out: int,
)
    requires
        same_tensor(a, b, name),
    ensures
        project_seq(a, name, x, seq, n_in, n_out) == project_seq(b, name, x, seq, n_in, n_out),
        decoded::<T>(a, name) == decoded::<T>(b, name),
{
    let f = |p: int| project(a, name, row(x, n_in, p), n_out);
    let g = |p: int| project(b, name, row(x, n_in, p), n_out);
    assert(f =~= g);
}

proof fn lemma_same_norm<T: Scalar>(
    a: GgufFile,
    b: GgufFile,
    name: Seq<char>,
    h: Seq<T>,
    seq: int,
)
    requires
        same_tensor(a, b, name),
    ensures
        norm_seq_spec(a, h, name, seq) == norm_seq_spec(b, h, name, seq),
{
    let f = |t: int| rmsnorm_spec(row(h, HIDDEN as int, t), decoded(a, name), rms_eps_spec());
    let g = |t: int| rmsnorm_spec(row(h, HIDDEN as int, t), decoded(b, name), rms_eps_spec());
    assert(f =~= g);
}

proof fn lemma_same_attention<T: Scalar>(
    a: GgufFile,
    b: GgufFile,
    l: int,
    x: Seq<T>,
    seq: int,
)
    requires
        same_layer(a, b, l),
    ensures
        attention_op_spec(a, l, x, seq) == attention_op_spec(b, l, x, seq),
{
    let h = HIDDEN as int;
    let kv = KV_DIM as int;
    lemma_same_project(a, b, layer_name(l, "attn_q.weight"@), x, seq, h, h);
    lemma_same_project(a, b, layer_name(l, "attn_k.weight"@), x, seq, h, kv);
    lemma_same_project(a, b, layer_name(l, "attn_v.weight"@), x, seq, h, kv);
    lemma_same_project(a, b, layer_name(l, "attn_q_norm.weight"@), x, seq, h, h);
    lemma_same_project(a, b, layer_name(l, "attn_k_norm.weight"@), x, seq, h, h);
    let q = queries(a, l, x, seq);
    let k = keys(a, l, x, seq);
    assert(q == queries(b, l, x, seq));
    assert(k == keys(b, l, x, seq));
    let v = project_seq(a, layer_name(l, "attn_v.weight"@), x, seq, h, kv);
    lemma_same_project(
        a,
        b,
        layer_name(l, "attn_output.weight"@),
        crate::kernels::attention::attention_spec(q, k, v, seq, 32, 8, 64),
        seq,
        h,
        h,
    );
}

proof fn lemma_same_conv<T: Scalar>(a: GgufFile, b: GgufFile, l: int, x: Seq<T>, seq: int)
    requires
        same_layer(a, b, l),
    ensures
        conv_op_spec(a, l, x, seq) == conv_op_spec(b, l, x, seq),
{
    let h = HIDDEN as int;
    lemma_same_project(a, b, layer_name(l, "shortconv.in_proj.weight"@), x, seq, h, 3 * h);
    lemma_same_project(a, b, layer_name(l, "shortconv.conv.weight"@), x, seq, h, h);
    let bcx = project_seq(a, layer_name(l, "shortconv.in_proj.weight"@), x, seq, h, 3 * h);
    let bx = gated(bcx, 3 * h, 0, bcx, 3 * h, 2 * h, seq);
    let taps = decoded(a, layer_name(l, "shortconv.conv.weight"@));
    let convolved = crate::kernels::conv::conv_spec(bx, taps, seq, h, CONV_L_CACHE as int);
    assert forall|y: Seq<T>| #[trigger]
        project_seq(a, layer_name(l, "shortconv.out_proj.weight"@), y, seq, h, h) == project_seq(
        b,
        layer_name(l, "shortconv.out_proj.weight"@),
        y,
        seq,
        h,
        h,
    ) by {
        lemma_same_project(a, b, layer_name(l, "shortconv.out_proj.weight"@), y, seq, h, h);
    }
}

proof fn lemma_same_expert<T: Scalar>(
    a: GgufFile,
    b: GgufFile,
    l: int,
    x: Seq<T>,
    e: int,
)
    requires
        same_layer(a, b, l),
    ensures
        expert_ffn(a, l, x, e) == expert_ffn(b, l, x, e),
{
    assert(same_tensor(a, b, layer_name(l, "ffn_gate_exps.weight"@)));
    assert(same_tensor(a, b, layer_name(l, "ffn_up_exps.weight"@)));
    assert(same_tensor(a, b, layer_name(l, "ffn_down_exps.weight"@)));
}

proof fn lemma_same_mixed<T: Scalar>(
    a: GgufFile,
    b: GgufFile,
    l: int,
    x: Seq<T>,
    sel: Seq<usize>,
    w: Seq<T>,
    n: nat,
)
    requires
        same_layer(a, b, l),
    ensures
        mixed(a, l, x, sel, w, n) == mixed(b, l, x, sel, w, n),
    decreases n,
{
    if n > 0 {
        lemma_same_mixed(a, b, l, x, sel, w, (n - 1) as nat);
        assert forall|e: int| #[trigger] expert_ffn(a, l, x, e) == expert_ffn(b, l, x, e) by {
            lemma_same_expert(a, b, l, x, e);
        }
    }
}

proof fn lemma_same_token<T: Scalar>(a: GgufFile, b: GgufFile, l: int, x: Seq<T>)
    requires
        same_layer(a, b, l),
    ensures
        moe_token_spec(a, l, x) == moe_token_spec(b, l, x),
{
    assert(same_tensor(a, b, layer_name(l, "ffn_gate_inp.weight"@)));
    assert(same_tensor(a, b, layer_name(l, "exp_probs_b.bias"@)));
    assert(router_scores(a, l, x) == router_scores(b, l, x));
    assert(decoded::<T>(a, layer_name(l, "exp_probs_b.bias"@)) == decoded::<T>(
        b,
        layer_name(l, "exp_probs_b.bias"@),
    ));
    assert forall|sel: Seq<usize>, w: Seq<T>, n: nat| #[trigger]
        mixed(a, l, x, sel, w, n) == mixed(b, l, x, sel, w, n) by {
        lemma_same_mixed(a, b, l, x, sel, w, n);
    }
}

proof fn lemma_same_ffn<T: Scalar>(a: GgufFile, b: GgufFile, l: int, x: Seq<T>, seq: int)
    requires
        same_layer(a, b, l),
    ensures
        ffn_spec(a, l, x, seq) == ffn_spec(b, l, x, seq),
{
    let h = HIDDEN as int;
    let ff = DENSE_FF as int;
    if dense_layer(l) {
        lemma_same_project(a, b, layer_name(l, "ffn_gate.weight"@), x, seq, h, ff);
        lemma_same_project(a, b, layer_name(l, "ffn_up.weight"@), x, seq, h, ff);
        let y = swiglu_spec(
            project_seq(a, layer_name(l, "ffn_gate.weight"@), x, seq, h, ff),
            project_seq(a, layer_name(l, "ffn_up.weight"@), x, seq, h, ff),
        );
        lemma_same_project(a, b, layer_name(l, "ffn_down.weight"@), y, seq, ff, h);
    } else {
        let f = |t: int| moe_token_spec(a, l, row(x, h, t));
        let g = |t: int| moe_token_spec(b, l, row(x, h, t));
        assert forall|t: int| #[trigger] f(t) == g(t) by {
            lemma_same_token(a, b, l, row(x, h, t));
        }
        assert(f =~= g);
    }
}

/// A layer reads nothing but its own tensors.
pub proof fn a_layer_reads_its_own_tensors<T: Scalar>(
    a: GgufFile,
    b: GgufFile,
    l: int,
    h: Seq<T>,
    seq: int,
)
    requires
        same_layer(a, b, l),
    ensures
        after_operator(a, l, h, seq) == after_operator(b, l, h, seq),
        after_ffn(a, l, h, seq) == after_ffn(b, l, h, seq),
{
    reveal(after_operator);
    reveal(after_ffn);
    lemma_same_norm(a, b, layer_name(l, "attn_norm.weight"@), h, seq);
    lemma_same_norm(a, b, layer_name(l, "ffn_norm.weight"@), h, seq);
    let n1 = norm_seq_spec(a, h, layer_name(l, "attn_norm.weight"@), seq);
    let n2 = norm_seq_spec(a, h, layer_name(l, "ffn_norm.weight"@), seq);
    lemma_same_attention(a, b, l, n1, seq);
    lemma_same_conv(a, b, l, n1, seq);
    lemma_same_ffn(a, b, l, n2, seq);
}

/// The stream after the first `n` layers depends on the embeddings and on the tensors of
/// layers `0` to `n − 1`, and on nothing else: two files that agree on them have the same
/// stream.
pub proof fn the_stream_reads_the_layers_below<T: Scalar>(
    a: GgufFile,
    b: GgufFile,
    tokens: Seq<u32>,
    n: nat,
)
    requires
        same_tensor(a, b, "token_embd.weight"@),
        forall|l: int| 0 <= l < n ==> #[trigger] same_layer(a, b, l),
    ensures
        hidden::<T>(a, tokens, n) == hidden::<T>(b, tokens, n),
    decreases n,
{
    let seq = tokens.len() as int;
    if n == 0 {
        let f = |t: int| embedding::<T>(a, tokens[t]);
        let g = |t: int| embedding::<T>(b, tokens[t]);
        assert(f =~= g);
    } else {
        let k = (n - 1) as nat;
        the_stream_reads_the_layers_below::<T>(a, b, tokens, k);
        assert(same_layer(a, b, k as int));
        let h = hidden::<T>(a, tokens, k);
        a_layer_reads_its_own_tensors(a, b, k as int, h, seq);
        a_layer_reads_its_own_tensors(a, b, k as int, after_operator(a, k as int, h, seq), seq);
        assert(hidden::<T>(a, tokens, n) == after_ffn(
            a,
            k as int,
            after_operator(a, k as int, h, seq),
            seq,
        ));
    }
}

/// The layers follow one another in order: the stream after layer `i` is layer `i` applied
/// to the stream before it.
pub proof fn the_layers_follow_in_order<T: Scalar>(file: GgufFile, tokens: Seq<u32>, i: nat)
    requires
        i < 24,
    ensures
        hidden::<T>(file, tokens, i + 1) == after_ffn(
            file,
            i as int,
            after_operator(
                file,
                i as int,
                hidden::<T>(file, tokens, i),
                tokens.len() as int,
            ),
            tokens.len() as int,
        ),
{
}

/// A layer passes every stream of `seq` positions unchanged.
pub open spec fn is_quiet<T: Scalar>(file: GgufFile, l: int, seq: int) -> bool {
    forall|h: Seq<T>|
        h.len() == seq * 2048 ==> #[trigger] after_operator(file, l, h, seq) == h && after_ffn(
            file,
            l,
            h,
            seq,
        ) == h
}

/// Quiet layers pass the stream: if layers `m` to `n − 1` add nothing, the stream after `n`
/// layers is the one after `m`.
pub proof fn quiet_layers_pass_the_stream<T: Scalar>(
    file: GgufFile,
    tokens: Seq<u32>,
    m: nat,
    n: nat,
)
    requires
        m <= n,
        forall|l: int| m <= l < n ==> #[trigger] is_quiet::<T>(file, l, tokens.len() as int),
    ensures
        hidden::<T>(file, tokens, n) == hidden::<T>(file, tokens, m),
    decreases n,
{
    if m < n {
        let k = (n - 1) as nat;
        quiet_layers_pass_the_stream::<T>(file, tokens, m, k);
        assert(is_quiet::<T>(file, k as int, tokens.len() as int));
        let h = hidden::<T>(file, tokens, k);
        lemma_hidden_len::<T>(file, tokens, k);
        assert(after_operator(file, k as int, h, tokens.len() as int) == h);
    }
}

/// The first layer works on the embeddings and the last one on what is left of it: if all
/// layers between them are quiet, the stream after 24 layers is layer 23 applied to layer 0
/// applied to the embeddings.
pub proof fn first_and_last_layer<T: Scalar>(file: GgufFile, tokens: Seq<u32>, e: Seq<T>)
    requires
        forall|l: int| 1 <= l < 23 ==> #[trigger] is_quiet::<T>(file, l, tokens.len() as int),
        e.len() == tokens.len() * 2048,
        forall|t: int, c: int|
            0 <= t < tokens.len() && 0 <= c < 2048 ==> #[trigger] e[place(t, 1, 0, 2048, c)]
                == embedding::<T>(file, tokens[t])[c],
    ensures
        hidden::<T>(file, tokens, 24) == ({
            let n = tokens.len() as int;
            let first = after_ffn(file, 0, after_operator(file, 0, e, n), n);
            after_ffn(file, 23, after_operator(file, 23, first, n), n)
        }),
{
    let n = tokens.len() as int;
    let f = |t: int| embedding::<T>(file, tokens[t]);
    lemma_stack_len(n, HIDDEN as int, f);
    let z = embedded::<T>(file, tokens);
    assert forall|i: int| 0 <= i < n * 2048 implies #[trigger] e[i] == z[i] by {
        lemma_split_index(n, 2048, i);
        let t = i / 2048;
        let c = i % 2048;
        assert(e[place(t, 1, 0, 2048, c)] == e[i]);
    }
    assert(e =~= z);
    the_layers_follow_in_order::<T>(file, tokens, 0);
    quiet_layers_pass_the_stream::<T>(file, tokens, 1, 23);
    the_layers_follow_in_order::<T>(file, tokens, 23);
}

pub(crate) proof fn lemma_hidden_len<T: Scalar>(file: GgufFile, tokens: Seq<u32>, n: nat)
    ensures
        hidden::<T>(file, tokens, n).len() == tokens.len() * 2048,
    decreases n,
{
    if n == 0 {
        lemma_stack_len(
            tokens.len() as int,
            HIDDEN as int,
            |t: int| embedding::<T>(file, tokens[t]),
        );
    } else {
        reveal(after_operator);
        reveal(after_ffn);
        lemma_hidden_len::<T>(file, tokens, (n - 1) as nat);
    }
}

proof fn lemma_norm_rows<T: Scalar>(
    file: GgufFile,
    h: Seq<T>,
    name: Seq<char>,
    seq: int,
    z: Seq<T>,
)
    requires
        0 <= seq,
        h.len() == seq * 2048,
        z.len() == seq * 2048,
        forall|t: int, c: int|
            0 <= t < seq && 0 <= c < 2048 ==> #[trigger] z[place(t, 1, 0, 2048, c)] == normed(
                h.subrange(t * 2048, t * 2048 + 2048),
                decoded(file, name),
                c,
            ),
    ensures
        z == norm_seq_spec(file, h, name, seq),
{
    let n = norm_seq_spec(file, h, name, seq);
    lemma_stack_len(
        seq,
        HIDDEN as int,
        |t: int| rmsnorm_spec(row(h, HIDDEN as int, t), decoded(file, name), rms_eps_spec()),
    );
    assert forall|i: int| 0 <= i < seq * 2048 implies #[trigger] z[i] == n[i] by {
        lemma_split_index(seq, 2048, i);
        let t = i / 2048;
        let c = i % 2048;
        assert((t + 1) * 2048 == t * 2048 + 2048);
        assert(z[place(t, 1, 0, 2048, c)] == z[i]);
        lemma_normed(h.subrange(t * 2048, t * 2048 + 2048), decoded(file, name), c);
    }
    assert(z =~= n);
}

/// One layer, value by value. The operator of layer `i`, attention in layers 2, 6, 10, 14, 18
/// and 21 and the short convolution in the others, works on the stream normed with
/// `attn_norm` and is added to the stream. The feed-forward part, dense in layers 0 and 1 and
/// a mixture in the others, works on that sum normed with `ffn_norm` and is added to it.
pub proof fn a_layer_adds_its_two_parts<T: Scalar>(
    file: GgufFile,
    tokens: Seq<u32>,
    i: nat,
    n1: Seq<T>,
    mid: Seq<T>,
    n2: Seq<T>,
    j: int,
)
    requires
        i < 24,
        n1.len() == tokens.len() * 2048,
        mid.len() == tokens.len() * 2048,
        n2.len() == tokens.len() * 2048,
        0 <= j < tokens.len() * 2048,
        forall|t: int, c: int|
            0 <= t < tokens.len() && 0 <= c < 2048 ==> #[trigger] n1[place(t, 1, 0, 2048, c)]
                == normed(
                hidden::<T>(file, tokens, i).subrange(t * 2048, t * 2048 + 2048),
                decoded(file, layer_name(i as int, "attn_norm.weight"@)),
                c,
            ),
        forall|k: int|
            0 <= k < tokens.len() * 2048 ==> #[trigger] mid[k] == hidden::<T>(
                file,
                tokens,
                i,
            )[k].add_spec(
                (if i == 2 || i == 6 || i == 10 || i == 14 || i == 18 || i == 21 {
                    attention_op_spec(file, i as int, n1, tokens.len() as int)
                } else {
                    conv_op_spec(file, i as int, n1, tokens.len() as int)
                })[k],
            ),
        forall|t: int, c: int|
            0 <= t < tokens.len() && 0 <= c < 2048 ==> #[trigger] n2[place(t, 1, 0, 2048, c)]
                == normed(
                mid.subrange(t * 2048, t * 2048 + 2048),
                decoded(file, layer_name(i as int, "ffn_norm.weight"@)),
                c,
            ),
    ensures
        hidden::<T>(file, tokens, i + 1)[j] == mid[j].add_spec(
            (if i == 0 || i == 1 {
                dense_ffn_spec(file, i as int, n2, tokens.len() as int)
            } else {
                moe_ffn_spec(file, i as int, n2, tokens.len() as int)
            })[j],
        ),
{
    reveal(after_operator);
    reveal(after_ffn);
    let n = tokens.len() as int;
    let h = hidden::<T>(file, tokens, i);
    lemma_hidden_len::<T>(file, tokens, i);
    lemma_norm_rows(file, h, layer_name(i as int, "attn_norm.weight"@), n, n1);
    let a = after_operator(file, i as int, h, n);
    assert(a =~= mid);
    lemma_norm_rows(file, mid, layer_name(i as int, "ffn_norm.weight"@), n, n2);
    the_layers_follow_in_order::<T>(file, tokens, i);
}

/// The stream starts from the rows of the embedding matrix: channel `c` of token `v` is
/// decoded weight `2048·v + c`.
pub proof fn the_stream_starts_from_the_embeddings<T: Scalar>(
    file: GgufFile,
    tokens: Seq<u32>,
    t: int,
    c: int,
)
    requires
        provides(file, "token_embd.weight"@, seq![2048u64, 128_000u64]),
        0 <= t < tokens.len(),
        tokens[t] < 128_000,
        0 <= c < 2048,
    ensures
        hidden::<T>(file, tokens, 0)[t * 2048 + c] == decoded::<T>(
            file,
            "token_embd.weight"@,
        )[tokens[t] * 2048 + c],
{
    let name = "token_embd.weight"@;
    lemma_matrix(file, name, 2048, 128_000);
    let m = file.lookup(name).unwrap();
    let bytes = file.bytes_of(&m);
    let rb = row_bytes(m.ggml_type, 2048);
    lemma_row_bytes(m.ggml_type, 2048);
    lemma_row_bounds(128_000, rb, tokens[t] as int);
    lemma_flat_index(tokens.len() as int, 2048, t, c);
    rows_hold_consecutive_weights::<T>(m.ggml_type, bytes, 2048, tokens[t] as int, c);
    let d = seq![2048u64, 128_000u64];
    assert(m.dims@ == d);
    reveal_with_fuel(dims_product, 3);
    assert(dims_product(d, 1) == 128_000);
    assert(m.elements() == 2048 * 128_000);
}

/// The logits are those of the last position: its stream after all 24 layers, normed with
/// `token_embd_norm`, times the embedding matrix. In a ring, the logit of token `v` is the
/// inner product with the embedding of `v`.
pub proof fn the_logits_compare_with_the_embeddings<T: Scalar>(
    file: GgufFile,
    tokens: Seq<u32>,
    z: Seq<T>,
    v: int,
)
    requires
        provides(file, "token_embd.weight"@, seq![2048u64, 128_000u64]),
        tokens.len() > 0,
        z.len() == 2048,
        forall|c: int|
            0 <= c < 2048 ==> #[trigger] z[c] == normed(
                hidden::<T>(file, tokens, 24).subrange(
                    (tokens.len() - 1) * 2048,
                    (tokens.len() - 1) * 2048 + 2048,
                ),
                decoded(file, "token_embd_norm.weight"@),
                c,
            ),
        0 <= v < 128_000,
    ensures
        forward_spec::<T>(file, tokens).len() == 128_000,
        forward_spec::<T>(file, tokens) == project(file, "token_embd.weight"@, z, 128_000),
        is_ring::<T>() ==> forward_spec::<T>(file, tokens)[v] == sum(
            Seq::new(
                2048,
                |c: int|
                    decoded::<T>(file, "token_embd.weight"@)[v * 2048 + c].mul_spec(z[c]),
            ),
        ),
{
    let h = hidden::<T>(file, tokens, 24);
    lemma_hidden_len::<T>(file, tokens, 24);
    let last = row(h, 2048, tokens.len() - 1);
    assert(last =~= h.subrange(
        (tokens.len() - 1) * 2048,
        (tokens.len() - 1) * 2048 + 2048,
    ));
    let g: Seq<T> = decoded(file, "token_embd_norm.weight"@);
    let n = rmsnorm_spec(last, g, rms_eps_spec());
    assert forall|c: int| 0 <= c < 2048 implies #[trigger] n[c] == z[c] by {
        lemma_normed(last, g, c);
    }
    assert(n =~= z);
    if is_ring::<T>() {
        projection_is_a_matrix_product(file, "token_embd.weight"@, 2048, 128_000, z, v);
        assert(Seq::new(
            2048u64 as nat,
            |c: int| decoded::<T>(file, "token_embd.weight"@)[v * 2048u64 + c].mul_spec(z[c]),
        ) =~= Seq::new(
            2048,
            |c: int| decoded::<T>(file, "token_embd.weight"@)[v * 2048 + c].mul_spec(z[c]),
        ));
    }
}

} // verus!
