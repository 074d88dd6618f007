//! The model is causal: what it computes at a position depends only on the tokens up to it.
//!
//! This is what lets the keys, the values and the convolution columns of earlier positions
//! be kept while tokens are appended.
use crate::config::{
    attention_layer, dense_layer, rms_eps_spec, CONV_L_CACHE, DENSE_FF, HEAD_DIM, HIDDEN, KV_DIM,
    N_HEADS, N_KV_HEADS, N_LAYERS, VOCAB,
};
use crate::gguf::GgufFile;
use crate::kernels::activation::swiglu_spec;
use crate::kernels::attention::{
    attention_at, attention_spec, causal_scores, lemma_attention_at,
    single_position_returns_value, weighed_once, weighs_one,
};
use crate::kernels::conv::{conv_spec, lemma_conv_at};
use crate::kernels::rmsnorm::rmsnorm_spec;
use crate::layout::{
    lemma_flat_index, lemma_row_bounds, lemma_split_index, lemma_stack_len, row, stack,
};
use crate::model::forward::{after_ffn, after_operator, embedding, ffn_spec, forward_spec, hidden};
use crate::model::layers::{
    attention_op_spec, conv_op_spec, decoded, gated, keys, norm_rope_seq_spec, norm_rope_spec,
    norm_seq_spec, part, project, project_seq, queries,
};
use crate::model::moe::moe_token_spec;
use crate::model::tensors::layer_name;
use crate::scalar::Scalar;
use vstd::prelude::*;

verus! {

/// Two sequences agree on their first `m` values.
pub open spec fn agree<A>(a: Seq<A>, b: Seq<A>, m: int) -> bool {
    &&& a.len() >= m
    &&& b.len() >= m
    &&& forall|i: int| 0 <= i < m ==> #[trigger] a[i] == b[i]
}

proof fn lemma_row_agree<A>(a: Seq<A>, b: Seq<A>, n: int, w: int, t: int)
    requires
        agree(a, b, n * w),
        0 <= t < n,
        0 <= w,
    ensures
        row(a, w, t) == row(b, w, t),
        row(a, w, t).len() == w,
{
    lemma_row_bounds(n, w, t);
    assert(row(a, w, t) =~= row(b, w, t));
}

proof fn lemma_stack_agree<A>(
    r1: int,
    r2: int,
    n: int,
    w: int,
    f1: spec_fn(int) -> Seq<A>,
    f2: spec_fn(int) -> Seq<A>,
)
    requires
        0 <= n <= r1,
        n <= r2,
        0 <= w,
        forall|t: int| 0 <= t < n ==> #[trigger] f1(t) == f2(t),
    ensures
        agree(stack(r1, w, f1), stack(r2, w, f2), n * w),
{
    lemma_stack_len(r1, w, f1);
    lemma_stack_len(r2, w, f2);
    assert(n * w <= r1 * w && n * w <= r2 * w) by (nonlinear_arith)
        requires
            n <= r1,
            n <= r2,
            0 <= w,
    ;
    let a = stack(r1, w, f1);
    let b = stack(r2, w, f2);
    assert forall|i: int| 0 <= i < n * w implies #[trigger] a[i] == b[i] by {
        lemma_split_index(n, w, i);
        assert(f1(i / w) == f2(i / w));
    }
}

proof fn lemma_project_agree<T: Scalar>(
    file: GgufFile,
    name: Seq<char>,
    x1: Seq<T>,
    x2: Seq<T>,
    s1: int,
    s2: int,
    n: int,
    n_in: int,
    n_out: int,
)
    requires
        0 <= n <= s1,
        n <= s2,
        0 <= n_in,
        0 <= n_out,
        agree(x1, x2, n * n_in),
    ensures
        agree(
            project_seq(file, name, x1, s1, n_in, n_out),
            project_seq(file, name, x2, s2, n_in, n_out),
            n * n_out,
        ),
{
    let f1 = |p: int| project(file, name, row(x1, n_in, p), n_out);
    let f2 = |p: int| project(file, name, row(x2, n_in, p), n_out);
    assert forall|t: int| 0 <= t < n implies #[trigger] f1(t) == f2(t) by {
        lemma_row_agree(x1, x2, n, n_in, t);
    }
    lemma_stack_agree(s1, s2, n, n_out, f1, f2);
}

proof fn lemma_norm_agree<T: Scalar>(
    file: GgufFile,
    gain: Seq<char>,
    h1: Seq<T>,
    h2: Seq<T>,
    s1: int,
    s2: int,
    n: int,
)
    requires
        0 <= n <= s1,
        n <= s2,
        agree(h1, h2, n * HIDDEN),
    ensures
        agree(
            norm_seq_spec(file, h1, gain, s1),
            norm_seq_spec(file, h2, gain, s2),
            n * HIDDEN,
        ),
{
    let w = HIDDEN as int;
    let f1 = |t: int| rmsnorm_spec(row(h1, w, t), decoded(file, gain), rms_eps_spec());
    let f2 = |t: int| rmsnorm_spec(row(h2, w, t), decoded(file, gain), rms_eps_spec());
    assert forall|t: int| 0 <= t < n implies #[trigger] f1(t) == f2(t) by {
        lemma_row_agree(h1, h2, n, w, t);
    }
    lemma_stack_agree(s1, s2, n, w, f1, f2);
}

proof fn lemma_gated_agree<T: Scalar>(
    a1: Seq<T>,
    b1: Seq<T>,
    a2: Seq<T>,
    b2: Seq<T>,
    stride_a: int,
    off_a: int,
    stride_b: int,
    off_b: int,
    s1: int,
    s2: int,
    n: int,
)
    requires
        0 <= n <= s1,
        n <= s2,
        0 <= stride_a,
        0 <= stride_b,
        agree(a1, a2, n * stride_a),
        agree(b1, b2, n * stride_b),
    ensures
        agree(
            gated(a1, stride_a, off_a, b1, stride_b, off_b, s1),
            gated(a2, stride_a, off_a, b2, stride_b, off_b, s2),
            n * HIDDEN,
        ),
{
    let f1 = |t: int|
        crate::algebra::products(part(a1, stride_a, off_a, t), part(b1, stride_b, off_b, t));
    let f2 = |t: int|
        crate::algebra::products(part(a2, stride_a, off_a, t), part(b2, stride_b, off_b, t));
    assert forall|t: int| 0 <= t < n implies #[trigger] f1(t) == f2(t) by {
        lemma_row_agree(a1, a2, n, stride_a, t);
        lemma_row_agree(b1, b2, n, stride_b, t);
    }
    lemma_stack_agree(s1, s2, n, HIDDEN as int, f1, f2);
}

proof fn lemma_conv_agree<T: Scalar>(
    bx1: Seq<T>,
    bx2: Seq<T>,
    taps: Seq<T>,
    s1: int,
    s2: int,
    n: int,
)
    requires
        0 <= n <= s1,
        n <= s2,
        agree(bx1, bx2, n * HIDDEN),
    ensures
        agree(
            conv_spec(bx1, taps, s1, HIDDEN as int, CONV_L_CACHE as int),
            conv_spec(bx2, taps, s2, HIDDEN as int, CONV_L_CACHE as int),
            n * HIDDEN,
        ),
{
    let w = HIDDEN as int;
    let l = CONV_L_CACHE as int;
    let a = conv_spec(bx1, taps, s1, w, l);
    let b = conv_spec(bx2, taps, s2, w, l);
    assert forall|i: int| 0 <= i < n * w implies #[trigger] a[i] == b[i] by {
        lemma_split_index(n, w, i);
        let t = i / w;
        let c = i % w;
        assert forall|p: int| 0 <= p <= t implies #[trigger] bx1[p * w + c] == bx2[p * w + c] by {
            lemma_flat_index(n, w, p, c);
        }
        lemma_conv_at(bx1, bx2, taps, w, l, t, c);
    }
}

proof fn lemma_conv_op_agree<T: Scalar>(
    file: GgufFile,
    layer: int,
    x1: Seq<T>,
    x2: Seq<T>,
    s1: int,
    s2: int,
    n: int,
)
    requires
        0 <= n <= s1,
        n <= s2,
        agree(x1, x2, n * HIDDEN),
    ensures
        agree(
            conv_op_spec(file, layer, x1, s1),
            conv_op_spec(file, layer, x2, s2),
            n * HIDDEN,
        ),
{
    let h = HIDDEN as int;
    let in_proj = layer_name(layer, "shortconv.in_proj.weight"@);
    let out_proj = layer_name(layer, "shortconv.out_proj.weight"@);
    let taps: Seq<T> = decoded(file, layer_name(layer, "shortconv.conv.weight"@));
    let b1 = project_seq(file, in_proj, x1, s1, h, 3 * h);
    let b2 = project_seq(file, in_proj, x2, s2, h, 3 * h);
    lemma_project_agree(file, in_proj, x1, x2, s1, s2, n, h, 3 * h);
    lemma_gated_agree(b1, b1, b2, b2, 3 * h, 0, 3 * h, 2 * h, s1, s2, n);
    let g1 = gated(b1, 3 * h, 0, b1, 3 * h, 2 * h, s1);
    let g2 = gated(b2, 3 * h, 0, b2, 3 * h, 2 * h, s2);
    lemma_conv_agree(g1, g2, taps, s1, s2, n);
    let c1 = conv_spec(g1, taps, s1, h, CONV_L_CACHE as int);
    let c2 = conv_spec(g2, taps, s2, h, CONV_L_CACHE as int);
    lemma_gated_agree(b1, c1, b2, c2, 3 * h, h, h, 0, s1, s2, n);
    let y1 = gated(b1, 3 * h, h, c1, h, 0, s1);
    let y2 = gated(b2, 3 * h, h, c2, h, 0, s2);
    lemma_project_agree(file, out_proj, y1, y2, s1, s2, n, h, h);
}

proof fn lemma_norm_rope_agree<T: Scalar>(
    x1: Seq<T>,
    x2: Seq<T>,
    n_heads: int,
    gain: Seq<T>,
    s1: int,
    s2: int,
    n: int,
)
    requires
        0 <= n <= s1,
        n <= s2,
        0 <= n_heads,
        agree(x1, x2, n * (n_heads * HEAD_DIM)),
    ensures
        agree(
            norm_rope_seq_spec(x1, n_heads, gain, s1),
            norm_rope_seq_spec(x2, n_heads, gain, s2),
            n * (n_heads * HEAD_DIM),
        ),
{
    let w = n_heads * HEAD_DIM;
    let f1 = |t: int| norm_rope_spec(row(x1, w, t), n_heads, gain, t);
    let f2 = |t: int| norm_rope_spec(row(x2, w, t), n_heads, gain, t);
    assert forall|t: int| 0 <= t < n implies #[trigger] f1(t) == f2(t) by {
        lemma_row_agree(x1, x2, n, w, t);
    }
    lemma_stack_agree(s1, s2, n, w, f1, f2);
}

proof fn lemma_attention_agree<T: Scalar>(
    q1: Seq<T>,
    k1: Seq<T>,
    v1: Seq<T>,
    q2: Seq<T>,
    k2: Seq<T>,
    v2: Seq<T>,
    s1: int,
    s2: int,
    n: int,
)
    requires
        0 <= n <= s1,
        n <= s2,
        agree(q1, q2, n * HIDDEN),
        agree(k1, k2, n * KV_DIM),
        agree(v1, v2, n * KV_DIM),
    ensures
        agree(
            attention_spec(q1, k1, v1, s1, N_HEADS as int, N_KV_HEADS as int, HEAD_DIM as int),
            attention_spec(q2, k2, v2, s2, N_HEADS as int, N_KV_HEADS as int, HEAD_DIM as int),
            n * HIDDEN,
        ),
{
    let a = attention_spec(q1, k1, v1, s1, N_HEADS as int, N_KV_HEADS as int, HEAD_DIM as int);
    let b = attention_spec(q2, k2, v2, s2, N_HEADS as int, N_KV_HEADS as int, HEAD_DIM as int);
    assert(a.len() == s1 * 32 * 64 && b.len() == s2 * 32 * 64);
    assert(n * HIDDEN == n * 2048 && n * KV_DIM == n * 512 && s1 * 32 * 64 == s1 * 2048 && s2 * 32
        * 64 == s2 * 2048) by (nonlinear_arith)
        requires
            HIDDEN == 2048,
            KV_DIM == 512,
    ;
    assert forall|i: int| 0 <= i < n * HIDDEN implies #[trigger] a[i] == b[i] by {
        let r = i / 64;
        let t = r / 32;
        let h = r % 32;
        assert(0 <= t < n && r == t * 32 + h);
        assert forall|j: int| 0 <= j < (t + 1) * 8 implies #[trigger] row(k1, 64, j) == row(
            k2,
            64,
            j,
        ) by {
            lemma_row_agree(k1, k2, n * 8, 64, j);
        }
        assert forall|j: int| 0 <= j < (t + 1) * 8 implies #[trigger] row(v1, 64, j) == row(
            v2,
            64,
            j,
        ) by {
            lemma_row_agree(v1, v2, n * 8, 64, j);
        }
        lemma_row_agree(q1, q2, n * 32, 64, r);
        assert(0 <= i < a.len() && 0 <= i < b.len());
        assert(a[i] == attention_at(q1, k1, v1, 32, 8, 64, t, h, i % 64));
        assert(b[i] == attention_at(q2, k2, v2, 32, 8, 64, t, h, i % 64));
        lemma_attention_at(
            q1,
            k1,
            v1,
            q2,
            k2,
            v2,
            N_HEADS as int,
            N_KV_HEADS as int,
            HEAD_DIM as int,
            t,
            h,
            i % 64,
        );
    }
}

proof fn lemma_attention_op_agree<T: Scalar>(
    file: GgufFile,
    layer: int,
    x1: Seq<T>,
    x2: Seq<T>,
    s1: int,
    s2: int,
    n: int,
)
    requires
        0 <= n <= s1,
        n <= s2,
        agree(x1, x2, n * HIDDEN),
    ensures
        agree(
            attention_op_spec(file, layer, x1, s1),
            attention_op_spec(file, layer, x2, s2),
            n * HIDDEN,
        ),
{
    let h = HIDDEN as int;
    let kv = KV_DIM as int;
    let qn = layer_name(layer, "attn_q.weight"@);
    let kn = layer_name(layer, "attn_k.weight"@);
    let vn = layer_name(layer, "attn_v.weight"@);
    let on = layer_name(layer, "attn_output.weight"@);
    let qg: Seq<T> = decoded(file, layer_name(layer, "attn_q_norm.weight"@));
    let kg: Seq<T> = decoded(file, layer_name(layer, "attn_k_norm.weight"@));
    lemma_project_agree(file, qn, x1, x2, s1, s2, n, h, h);
    lemma_project_agree(file, kn, x1, x2, s1, s2, n, h, kv);
    lemma_project_agree(file, vn, x1, x2, s1, s2, n, h, kv);
    let q1 = project_seq(file, qn, x1, s1, h, h);
    let q2 = project_seq(file, qn, x2, s2, h, h);
    let k1 = project_seq(file, kn, x1, s1, h, kv);
    let k2 = project_seq(file, kn, x2, s2, h, kv);
    let v1 = project_seq(file, vn, x1, s1, h, kv);
    let v2 = project_seq(file, vn, x2, s2, h, kv);
    lemma_norm_rope_agree(q1, q2, N_HEADS as int, qg, s1, s2, n);
    lemma_norm_rope_agree(k1, k2, N_KV_HEADS as int, kg, s1, s2, n);
    let rq1 = norm_rope_seq_spec(q1, N_HEADS as int, qg, s1);
    let rq2 = norm_rope_seq_spec(q2, N_HEADS as int, qg, s2);
    let rk1 = norm_rope_seq_spec(k1, N_KV_HEADS as int, kg, s1);
    let rk2 = norm_rope_seq_spec(k2, N_KV_HEADS as int, kg, s2);
    lemma_attention_agree(rq1, rk1, v1, rq2, rk2, v2, s1, s2, n);
    let a1 = attention_spec(
        rq1,
        rk1,
        v1,
        s1,
        N_HEADS as int,
        N_KV_HEADS as int,
        HEAD_DIM as int,
    );
    let a2 = attention_spec(
        rq2,
        rk2,
        v2,
        s2,
        N_HEADS as int,
        N_KV_HEADS as int,
        HEAD_DIM as int,
    );
    lemma_project_agree(file, on, a1, a2, s1, s2, n, h, h);
}

proof fn lemma_ffn_agree<T: Scalar>(
    file: GgufFile,
    layer: int,
    x1: Seq<T>,
    x2: Seq<T>,
    s1: int,
    s2: int,
    n: int,
)
    requires
        0 <= n <= s1,
        n <= s2,
        agree(x1, x2, n * HIDDEN),
    ensures
        agree(ffn_spec(file, layer, x1, s1), ffn_spec(file, layer, x2, s2), n * HIDDEN),
{
    let h = HIDDEN as int;
    let ff = DENSE_FF as int;
    if dense_layer(layer) {
        let gn = layer_name(layer, "ffn_gate.weight"@);
        let un = layer_name(layer, "ffn_up.weight"@);
        let dn = layer_name(layer, "ffn_down.weight"@);
        lemma_project_agree(file, gn, x1, x2, s1, s2, n, h, ff);
        lemma_project_agree(file, un, x1, x2, s1, s2, n, h, ff);
        let a1 = swiglu_spec(
            project_seq(file, gn, x1, s1, h, ff),
            project_seq(file, un, x1, s1, h, ff),
        );
        let a2 = swiglu_spec(
            project_seq(file, gn, x2, s2, h, ff),
            project_seq(file, un, x2, s2, h, ff),
        );
        assert(agree(a1, a2, n * ff));
        lemma_project_agree(file, dn, a1, a2, s1, s2, n, ff, h);
    } else {
        let f1 = |t: int| moe_token_spec(file, layer, row(x1, h, t));
        let f2 = |t: int| moe_token_spec(file, layer, row(x2, h, t));
        assert forall|t: int| 0 <= t < n implies #[trigger] f1(t) == f2(t) by {
            lemma_row_agree(x1, x2, n, h, t);
        }
        lemma_stack_agree(s1, s2, n, h, f1, f2);
    }
}

proof fn lemma_layer_agree<T: Scalar>(
    file: GgufFile,
    layer: int,
    h1: Seq<T>,
    h2: Seq<T>,
    s1: int,
    s2: int,
    n: int,
)
    requires
        0 <= n <= s1,
        n <= s2,
        agree(h1, h2, n * HIDDEN),
    ensures
        agree(
            after_ffn(file, layer, after_operator(file, layer, h1, s1), s1),
            after_ffn(file, layer, after_operator(file, layer, h2, s2), s2),
            n * HIDDEN,
        ),
{
    reveal(after_operator);
    reveal(after_ffn);
    let an = layer_name(layer, "attn_norm.weight"@);
    let fnn = layer_name(layer, "ffn_norm.weight"@);
    lemma_norm_agree(file, an, h1, h2, s1, s2, n);
    let x1 = norm_seq_spec(file, h1, an, s1);
    let x2 = norm_seq_spec(file, h2, an, s2);
    if attention_layer(layer) {
        lemma_attention_op_agree(file, layer, x1, x2, s1, s2, n);
    } else {
        lemma_conv_op_agree(file, layer, x1, x2, s1, s2, n);
    }
    let o1 = after_operator(file, layer, h1, s1);
    let o2 = after_operator(file, layer, h2, s2);
    assert(agree(o1, o2, n * HIDDEN));
    lemma_norm_agree(file, fnn, o1, o2, s1, s2, n);
    lemma_ffn_agree(
        file,
        layer,
        norm_seq_spec(file, o1, fnn, s1),
        norm_seq_spec(file, o2, fnn, s2),
        s1,
        s2,
        n,
    );
}

/// The attention operator is causal: on the first `n` positions it gives what it gives for
/// them alone.
pub proof fn attention_op_is_causal<T: Scalar>(
    file: GgufFile,
    layer: int,
    x: Seq<T>,
    seq: int,
    n: int,
)
    requires
        0 <= n <= seq,
        x.len() == seq * HIDDEN,
    ensures
        attention_op_spec(file, layer, x, seq).subrange(0, n * HIDDEN) == attention_op_spec(
            file,
            layer,
            x.subrange(0, n * HIDDEN),
            n,
        ),
{
    lemma_first_positions(x, seq, n);
    let prefix = x.subrange(0, n * HIDDEN);
    lemma_attention_op_agree(file, layer, x, prefix, seq, n, n);
    let a = attention_op_spec(file, layer, x, seq);
    let b = attention_op_spec(file, layer, prefix, n);
    assert(b.len() == n * HIDDEN);
    assert(a.subrange(0, n * HIDDEN) =~= b);
}

/// The short-convolution operator is causal: on the first `n` positions it gives what it
/// gives for them alone.
pub proof fn conv_op_is_causal<T: Scalar>(
    file: GgufFile,
    layer: int,
    x: Seq<T>,
    seq: int,
    n: int,
)
    requires
        0 <= n <= seq,
        x.len() == seq * HIDDEN,
    ensures
        conv_op_spec(file, layer, x, seq).subrange(0, n * HIDDEN) == conv_op_spec(
            file,
            layer,
            x.subrange(0, n * HIDDEN),
            n,
        ),
{
    lemma_first_positions(x, seq, n);
    let prefix = x.subrange(0, n * HIDDEN);
    lemma_conv_op_agree(file, layer, x, prefix, seq, n, n);
    let a = conv_op_spec(file, layer, x, seq);
    let b = conv_op_spec(file, layer, prefix, n);
    assert(b.len() == n * HIDDEN);
    assert(a.subrange(0, n * HIDDEN) =~= b);
}

proof fn lemma_first_positions<T>(x: Seq<T>, seq: int, n: int)
    requires
        0 <= n <= seq,
        x.len() == seq * HIDDEN,
    ensures
        0 <= n * HIDDEN <= x.len(),
        agree(x, x.subrange(0, n * HIDDEN), n * HIDDEN),
{
    assert(0 <= n * HIDDEN <= seq * HIDDEN) by (nonlinear_arith)
        requires
            0 <= n <= seq,
    ;
}

/// At a single position the attention operator projects the value: channel `d` of head `h`
/// is channel `d` of the value of its key/value head, neither normed nor rotated. The
/// scores at hand are such that one alone weighs one.
pub proof fn attention_op_at_one_position<T: Scalar>(file: GgufFile, layer: int, x: Seq<T>)
    requires
        x.len() == HIDDEN,
        forall|h: int|
            0 <= h < N_HEADS ==> weighs_one(
                #[trigger] causal_scores(
                    queries(file, layer, x, 1),
                    keys(file, layer, x, 1),
                    N_HEADS as int,
                    N_KV_HEADS as int,
                    HEAD_DIM as int,
                    0,
                    h,
                )[0],
            ),
    ensures
        attention_op_spec(file, layer, x, 1) == project_seq(
            file,
            layer_name(layer, "attn_output.weight"@),
            Seq::new(
                HIDDEN as nat,
                |c: int|
                    weighed_once(
                        project(file, layer_name(layer, "attn_v.weight"@), x, KV_DIM as int)[((c
                            / 64) / 4) * 64 + c % 64],
                    ),
            ),
            1,
            HIDDEN as int,
            HIDDEN as int,
        ),
        (forall|i: int|
            0 <= i < KV_DIM ==> weighed_once(
                #[trigger] project(file, layer_name(layer, "attn_v.weight"@), x, KV_DIM as int)[i],
            ) == project(file, layer_name(layer, "attn_v.weight"@), x, KV_DIM as int)[i])
            ==> attention_op_spec(file, layer, x, 1) == project_seq(
            file,
            layer_name(layer, "attn_output.weight"@),
            Seq::new(
                HIDDEN as nat,
                |c: int|
                    project(file, layer_name(layer, "attn_v.weight"@), x, KV_DIM as int)[((c / 64)
                        / 4) * 64 + c % 64],
            ),
            1,
            HIDDEN as int,
            HIDDEN as int,
        ),
{
    let h = HIDDEN as int;
    let kv = KV_DIM as int;
    let vn = layer_name(layer, "attn_v.weight"@);
    let value = project(file, vn, x, kv);
    let v = project_seq(file, vn, x, 1, h, kv);
    assert(row(x, h, 0) =~= x);
    assert(v =~= value) by {
        assert(v.len() == kv);
        assert forall|i: int| 0 <= i < kv implies #[trigger] v[i] == value[i] by {
            assert(i / kv == 0 && i % kv == i);
        }
    }
    let q = queries(file, layer, x, 1);
    let k = keys(file, layer, x, 1);
    let a = attention_spec(q, k, v, 1, N_HEADS as int, N_KV_HEADS as int, HEAD_DIM as int);
    let spread = Seq::new(
        HIDDEN as nat,
        |c: int| weighed_once(value[((c / 64) / 4) * 64 + c % 64]),
    );
    let plain = Seq::new(HIDDEN as nat, |c: int| value[((c / 64) / 4) * 64 + c % 64]);
    assert(a.len() == 2048);
    assert forall|c: int| 0 <= c < 2048 implies #[trigger] a[c] == spread[c] by {
        let hh = c / 64;
        let d = c % 64;
        assert(hh * 64 + d == c && 0 <= hh < 32);
        single_position_returns_value(
            q,
            k,
            v,
            N_HEADS as int,
            N_KV_HEADS as int,
            HEAD_DIM as int,
            hh,
            d,
        );
    }
    assert(a =~= spread);
    if forall|i: int| 0 <= i < kv ==> weighed_once(#[trigger] value[i]) == value[i] {
        assert forall|c: int| 0 <= c < 2048 implies #[trigger] spread[c] == plain[c] by {
            assert(0 <= ((c / 64) / 4) * 64 + c % 64 < 512);
        }
        assert(spread =~= plain);
    }
}

/// The residual stream is causal: after any number of layers, two token sequences that
/// agree on their first `n` tokens have the same values at their first `n` positions.
pub proof fn hidden_is_causal<T: Scalar>(
    file: GgufFile,
    a: Seq<u32>,
    b: Seq<u32>,
    layers: nat,
    n: int,
)
    requires
        0 <= n,
        agree(a, b, n),
    ensures
        agree(hidden::<T>(file, a, layers), hidden::<T>(file, b, layers), n * HIDDEN),
    decreases layers,
{
    let s1 = a.len() as int;
    let s2 = b.len() as int;
    if layers == 0 {
        let f1 = |t: int| embedding::<T>(file, a[t]);
        let f2 = |t: int| embedding::<T>(file, b[t]);
        lemma_stack_agree(s1, s2, n, HIDDEN as int, f1, f2);
    } else {
        let l = (layers - 1) as nat;
        hidden_is_causal::<T>(file, a, b, l, n);
        lemma_layer_agree(
            file,
            layers - 1,
            hidden::<T>(file, a, l),
            hidden::<T>(file, b, l),
            s1,
            s2,
            n,
        );
    }
}

/// The logits of a prefix are read off the longer sequence: appending tokens does not
/// change what the model computes at the positions before them.
pub proof fn prefix_logits<T: Scalar>(file: GgufFile, tokens: Seq<u32>, n: int)
    requires
        0 < n <= tokens.len(),
    ensures
        forward_spec::<T>(file, tokens.subrange(0, n)) == project(
            file,
            "token_embd.weight"@,
            rmsnorm_spec(
                row(hidden::<T>(file, tokens, N_LAYERS as nat), HIDDEN as int, n - 1),
                decoded(file, "token_embd_norm.weight"@),
                rms_eps_spec(),
            ),
            VOCAB as int,
        ),
{
    let prefix = tokens.subrange(0, n);
    hidden_is_causal::<T>(file, prefix, tokens, N_LAYERS as nat, n);
    lemma_row_agree(
        hidden::<T>(file, prefix, N_LAYERS as nat),
        hidden::<T>(file, tokens, N_LAYERS as nat),
        n,
        HIDDEN as int,
        n - 1,
    );
}

} // verus!
