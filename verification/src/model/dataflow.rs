//! What the parts of the model compute, value by value.
//!
//! Each law here says of one part which tensors it reads, which of its inputs meet which
//! weights, and in which order its steps follow one another, down to single channels.
use crate::algebra::{is_ring, products};
use crate::config::{CONV_L_CACHE, DENSE_FF, HEAD_DIM, HIDDEN};
use crate::gguf::{dims_product, GgufFile};
use crate::kernels::activation::swiglu_spec;
use crate::kernels::attending::{keeps_units, place};
use crate::kernels::attention::attention_spec;
use crate::kernels::conv::{conv_at, conv_spec, conv_terms};
use crate::kernels::dequant::{le16, le32, weight, weights};
use crate::kernels::exact::row_product_is_inner_product;
use crate::kernels::rmsnorm::{rmsnorm_spec, squares};
use crate::kernels::rope::rotated;
use crate::layout::{
    lemma_flat_index, lemma_row_bounds, lemma_split_index, lemma_stack_len, row, stack,
};
use crate::model::layers::{
    attention_op_spec, conv_op_spec, decoded, dense_ffn_spec, gated, keys, lemma_matrix,
    norm_rope_head, norm_rope_seq_spec, norm_rope_spec, part, project, project_seq, queries,
};
use crate::model::provides;
use crate::model::tensors::layer_name;
use crate::scalar::{sum, Scalar};
use crate::tensor::{block_elems, lemma_row_bytes, row_bytes, supported, GgmlType};
use vstd::prelude::*;

verus! {

/// Weight `i` of row `o` is weight `o·n + i` of the whole.
pub proof fn rows_hold_consecutive_weights<T: Scalar>(
    dtype: GgmlType,
    bytes: Seq<u8>,
    n: int,
    o: int,
    i: int,
)
    requires
        supported(dtype),
        n % block_elems(dtype) == 0,
        0 <= i < n,
        0 <= o,
        (o + 1) * row_bytes(dtype, n) <= bytes.len(),
    ensures
        weight::<T>(dtype, row(bytes, row_bytes(dtype, n), o), i) == weight::<T>(
            dtype,
            bytes,
            o * n + i,
        ),
{
    lemma_row_bytes(dtype, n);
    let rb = row_bytes(dtype, n);
    let r = row(bytes, rb, o);
    assert(0 <= o * rb && (o + 1) * rb == o * rb + rb) by (nonlinear_arith)
        requires
            0 <= o,
            0 <= rb,
    ;
    match dtype {
        GgmlType::F32 => {
            assert(o * (4 * n) == 4 * (o * n)) by (nonlinear_arith);
            assert(le32(r, 4 * i) == le32(bytes, 4 * (o * n + i)));
        },
        GgmlType::F16 => {
            assert(o * (2 * n) == 2 * (o * n)) by (nonlinear_arith);
            assert(le16(r, 2 * i) == le16(bytes, 2 * (o * n + i)));
        },
        GgmlType::Q4_K => {
            lemma_blocks(bytes, r, 144, n, o, i);
        },
        GgmlType::Q6_K => {
            lemma_blocks(bytes, r, 210, n, o, i);
        },
        GgmlType::Other(_) => {},
    }
}

proof fn lemma_blocks(bytes: Seq<u8>, r: Seq<u8>, size: int, n: int, o: int, i: int)
    requires
        0 < size,
        n % 256 == 0,
        0 <= i < n,
        0 <= o,
        r == row(bytes, (n / 256) * size, o),
        (o + 1) * ((n / 256) * size) <= bytes.len(),
    ensures
        row(r, size, i / 256) == row(bytes, size, (o * n + i) / 256),
        (o * n + i) % 256 == i % 256,
{
    let m = n / 256;
    let b = i / 256;
    assert(n == 256 * m && 0 <= b < m);
    assert(o * n + i == 256 * (o * m + b) + i % 256) by (nonlinear_arith)
        requires
            n == 256 * m,
            i == 256 * b + i % 256,
    ;
    vstd::arithmetic::div_mod::lemma_fundamental_div_mod_converse(
        o * n + i,
        256,
        o * m + b,
        i % 256,
    );
    assert((o * m + b) * size == o * (m * size) + b * size && (o * m + b + 1) * size == o * (m
        * size) + (b + 1) * size && 0 <= b * size && (b + 1) * size <= m * size && 0 <= o * (m
        * size) && (o + 1) * (m * size) == o * (m * size) + m * size && (b + 1) * size == b * size
        + size) by (nonlinear_arith)
        requires
            0 <= b < m,
            0 < size,
            0 <= o,
    ;
    assert(r.len() == m * size);
    assert(row(r, size, b) =~= row(bytes, size, o * m + b));
}

/// In a ring, a named matrix of dims `[n_in, n_out]` maps `x` to its products with the rows
/// of the decoded weights: output `o` meets the weights from `o·n_in` on.
pub proof fn projection_is_a_matrix_product<T: Scalar>(
    file: GgufFile,
    name: Seq<char>,
    n_in: u64,
    n_out: u64,
    x: Seq<T>,
    o: int,
)
    requires
        is_ring::<T>(),
        provides(file, name, seq![n_in, n_out]),
        x.len() == n_in,
        0 <= o < n_out,
    ensures
        project(file, name, x, n_out as int)[o] == sum(
            Seq::new(
                n_in as nat,
                |i: int| decoded::<T>(file, name)[o * n_in + i].mul_spec(x[i]),
            ),
        ),
{
    lemma_matrix(file, name, n_in, n_out);
    let t = file.lookup(name).unwrap();
    let bytes = file.bytes_of(&t);
    let n = n_in as int;
    let rb = row_bytes(t.ggml_type, n);
    lemma_row_bytes(t.ggml_type, n);
    lemma_row_bounds(n_out as int, rb, o);
    let r = row(bytes, rb, o);
    row_product_is_inner_product(t.ggml_type, r, x);
    let d = seq![n_in, n_out];
    assert(t.dims@ == d);
    reveal_with_fuel(dims_product, 3);
    assert(dims_product(d, 1) == n_out * 1);
    assert(t.elements() == n_in * n_out);
    let want = Seq::new(n_in as nat, |i: int| decoded::<T>(file, name)[o * n_in + i].mul_spec(x[i]));
    let have = products(weights(t.ggml_type, r, n), x);
    assert forall|i: int| 0 <= i < n implies #[trigger] have[i] == want[i] by {
        rows_hold_consecutive_weights::<T>(t.ggml_type, bytes, n, o, i);
        lemma_flat_index(n_out as int, n, o, i);
        assert(n_out * n_in == n_in * n_out) by (nonlinear_arith);
    }
    assert(have =~= want);
}

/// `x` scaled to a mean square of one, with a gain per channel and the epsilon `1e-5`.
pub open spec fn normed<T: Scalar>(x: Seq<T>, gain: Seq<T>, c: int) -> T {
    x[c].mul_spec(
        T::from_i32_spec(1).div_spec(
            sum(Seq::new(x.len(), |i: int| x[i].mul_spec(x[i]))).div_spec(
                T::from_u64_spec(x.len() as u64),
            ).add_spec(T::from_i32_spec(1).div_spec(T::from_i32_spec(100_000))).sqrt_spec(),
        ),
    ).mul_spec(gain[c])
}

pub(crate) proof fn lemma_normed<T: Scalar>(x: Seq<T>, gain: Seq<T>, c: int)
    requires
        0 <= c < x.len(),
    ensures
        rmsnorm_spec(x, gain, crate::config::rms_eps_spec())[c] == normed(x, gain, c),
{
    assert(squares(x) =~= Seq::new(x.len(), |i: int| x[i].mul_spec(x[i])));
}

/// What the short convolution multiplies at a position: channel `c` of `B` with that of `x`.
pub open spec fn gated_input<T: Scalar>(
    file: GgufFile,
    layer: int,
    x: Seq<T>,
    t: int,
    c: int,
) -> T {
    let bcx = project(
        file,
        layer_name(layer, "shortconv.in_proj.weight"@),
        row(x, HIDDEN as int, t),
        3 * HIDDEN,
    );
    bcx[c].mul_spec(bcx[2 * HIDDEN + c])
}

/// Channel `c` of `C`, which gates the output, at a position.
pub open spec fn output_gate<T: Scalar>(
    file: GgufFile,
    layer: int,
    x: Seq<T>,
    t: int,
    c: int,
) -> T {
    project(
        file,
        layer_name(layer, "shortconv.in_proj.weight"@),
        row(x, HIDDEN as int, t),
        3 * HIDDEN,
    )[HIDDEN + c]
}

/// Weight `k` of the filter of channel `c`: zero is the oldest tap, two the current one.
pub open spec fn tap<T: Scalar>(file: GgufFile, layer: int, c: int, k: int) -> T {
    decoded::<T>(file, layer_name(layer, "shortconv.conv.weight"@))[3 * c + k]
}

/// The short-convolution operator, channel by channel: at position `t` the `C` of that
/// position times the filter over the `B·x` of the last three positions, those before the
/// start left out; all of it projected by `out_proj`.
pub proof fn short_convolution_by_channel<T: Scalar>(
    file: GgufFile,
    layer: int,
    x: Seq<T>,
    seq: int,
    y: Seq<T>,
)
    requires
        0 <= seq,
        y.len() == seq * HIDDEN,
        forall|t: int, c: int|
            0 <= t < seq && 0 <= c < HIDDEN ==> #[trigger] y[place(t, 1, 0, HIDDEN as int, c)]
                == output_gate(file, layer, x, t, c).mul_spec(
                if t == 0 {
                    T::zero_spec().add_spec(
                        tap::<T>(file, layer, c, 2).mul_spec(gated_input(file, layer, x, t, c)),
                    )
                } else if t == 1 {
                    T::zero_spec().add_spec(
                        tap::<T>(file, layer, c, 1).mul_spec(
                            gated_input(file, layer, x, t - 1, c),
                        ),
                    ).add_spec(
                        tap::<T>(file, layer, c, 2).mul_spec(gated_input(file, layer, x, t, c)),
                    )
                } else {
                    T::zero_spec().add_spec(
                        tap::<T>(file, layer, c, 0).mul_spec(
                            gated_input(file, layer, x, t - 2, c),
                        ),
                    ).add_spec(
                        tap::<T>(file, layer, c, 1).mul_spec(
                            gated_input(file, layer, x, t - 1, c),
                        ),
                    ).add_spec(
                        tap::<T>(file, layer, c, 2).mul_spec(gated_input(file, layer, x, t, c)),
                    )
                },
            ),
    ensures
        conv_op_spec(file, layer, x, seq) == project_seq(
            file,
            layer_name(layer, "shortconv.out_proj.weight"@),
            y,
            seq,
            HIDDEN as int,
            HIDDEN as int,
        ),
{
    let h = HIDDEN as int;
    let in_proj = layer_name(layer, "shortconv.in_proj.weight"@);
    let f = |p: int| project(file, in_proj, row(x, h, p), 3 * h);
    let bcx = project_seq(file, in_proj, x, seq, h, 3 * h);
    let bx = gated(bcx, 3 * h, 0, bcx, 3 * h, 2 * h, seq);
    let taps: Seq<T> = decoded(file, layer_name(layer, "shortconv.conv.weight"@));
    let convolved = conv_spec(bx, taps, seq, h, CONV_L_CACHE as int);
    let z = gated(bcx, 3 * h, h, convolved, h, 0, seq);
    lemma_stack_len(seq, 3 * h, f);
    assert(0 <= seq * h && 0 <= seq * (3 * h)) by (nonlinear_arith)
        requires
            0 <= seq,
            0 <= h,
    ;
    assert forall|t: int, c: int| 0 <= t < seq && 0 <= c < h implies #[trigger] bx[t * h + c]
        == gated_input(file, layer, x, t, c) by {
        lemma_flat_index(seq, h, t, c);
        lemma_stack_row(seq, 3 * h, f, t);
    }
    assert forall|i: int| 0 <= i < seq * h implies #[trigger] z[i] == y[i] by {
        lemma_split_index(seq, h, i);
        let t = i / h;
        let c = i % h;
        lemma_stack_row(seq, 3 * h, f, t);
        lemma_row_bounds(seq, h, t);
        assert(part(convolved, h, 0, t)[c] == convolved[t * h + c]);
        assert(z[i] == output_gate(file, layer, x, t, c).mul_spec(convolved[t * h + c]));
        lemma_flat_index(seq, h, t, c);
        assert(convolved[t * h + c] == conv_at(bx, taps, h, 3, t, c));
        lemma_three_taps(bx, taps, h, t, c);
        assert(c * 3 == 3 * c);
        assert(place(t, 1, 0, h, c) == t * h + c) by (nonlinear_arith);
        assert(y[place(t, 1, 0, h, c)] == y[i]);
        assert(bx[t * h + c] == gated_input(file, layer, x, t, c));
        if t >= 1 {
            assert(bx[(t - 1) * h + c] == gated_input(file, layer, x, t - 1, c));
        }
        if t >= 2 {
            assert(bx[(t - 2) * h + c] == gated_input(file, layer, x, t - 2, c));
        }
    }
    assert(z =~= y);
}

proof fn lemma_stack_row<A>(rows: int, cols: int, f: spec_fn(int) -> Seq<A>, t: int)
    requires
        0 <= t < rows,
        0 <= cols,
    ensures
        row(stack(rows, cols, f), cols, t) == Seq::new(cols as nat, |c: int| f(t)[c]),
{
    lemma_stack_len(rows, cols, f);
    lemma_row_bounds(rows, cols, t);
    let s = stack(rows, cols, f);
    assert forall|c: int| 0 <= c < cols implies #[trigger] row(s, cols, t)[c] == f(t)[c] by {
        lemma_flat_index(rows, cols, t, c);
    }
    assert(row(s, cols, t) =~= Seq::new(cols as nat, |c: int| f(t)[c]));
}

proof fn lemma_three_taps<T: Scalar>(bx: Seq<T>, taps: Seq<T>, h: int, t: int, c: int)
    requires
        0 <= t,
    ensures
        conv_at(bx, taps, h, 3, t, c) == if t == 0 {
            T::zero_spec().add_spec(taps[c * 3 + 2].mul_spec(bx[t * h + c]))
        } else if t == 1 {
            T::zero_spec().add_spec(taps[c * 3 + 1].mul_spec(bx[(t - 1) * h + c])).add_spec(
                taps[c * 3 + 2].mul_spec(bx[t * h + c]),
            )
        } else {
            T::zero_spec().add_spec(taps[c * 3 + 0].mul_spec(bx[(t - 2) * h + c])).add_spec(
                taps[c * 3 + 1].mul_spec(bx[(t - 1) * h + c]),
            ).add_spec(taps[c * 3 + 2].mul_spec(bx[t * h + c]))
        },
{
    reveal_with_fuel(sum, 4);
    let s = conv_terms(bx, taps, h, 3, t, c);
    if t == 0 {
        assert(s =~= seq![taps[c * 3 + 2].mul_spec(bx[t * h + c])]);
        assert(s.drop_last() =~= Seq::empty());
    } else if t == 1 {
        let a = taps[c * 3 + 1].mul_spec(bx[(t - 1) * h + c]);
        assert(s =~= seq![a, taps[c * 3 + 2].mul_spec(bx[t * h + c])]);
        assert(s.drop_last() =~= seq![a]);
        assert(seq![a].drop_last() =~= Seq::empty());
    } else {
        let a = taps[c * 3 + 0].mul_spec(bx[(t - 2) * h + c]);
        let b = taps[c * 3 + 1].mul_spec(bx[(t - 1) * h + c]);
        assert(s =~= seq![a, b, taps[c * 3 + 2].mul_spec(bx[t * h + c])]);
        assert(s.drop_last() =~= seq![a, b]);
        assert(seq![a, b].drop_last() =~= seq![a]);
        assert(seq![a].drop_last() =~= Seq::empty());
    }
}

/// At a single position the short-convolution operator projects, in every channel, `C`
/// times the current tap of `B·x`.
pub proof fn short_convolution_at_one_position<T: Scalar>(
    file: GgufFile,
    layer: int,
    x: Seq<T>,
    y: Seq<T>,
)
    requires
        keeps_units::<T>(),
        x.len() == HIDDEN,
        y.len() == HIDDEN,
        forall|c: int|
            0 <= c < HIDDEN ==> #[trigger] y[c] == ({
                let bcx = project(
                    file,
                    layer_name(layer, "shortconv.in_proj.weight"@),
                    x,
                    3 * HIDDEN,
                );
                bcx[HIDDEN + c].mul_spec(
                    decoded::<T>(file, layer_name(layer, "shortconv.conv.weight"@))[3 * c
                        + 2].mul_spec(bcx[c].mul_spec(bcx[2 * HIDDEN + c])),
                )
            }),
    ensures
        conv_op_spec(file, layer, x, 1) == project_seq(
            file,
            layer_name(layer, "shortconv.out_proj.weight"@),
            y,
            1,
            HIDDEN as int,
            HIDDEN as int,
        ),
{
    reveal(keeps_units);
    assert(row(x, HIDDEN as int, 0) =~= x);
    assert forall|t: int, c: int| 0 <= t < 1 && 0 <= c < HIDDEN implies #[trigger] y[place(
        t,
        1,
        0,
        HIDDEN as int,
        c,
    )] == output_gate(file, layer, x, t, c).mul_spec(
        T::zero_spec().add_spec(
            tap::<T>(file, layer, c, 2).mul_spec(gated_input(file, layer, x, t, c)),
        ),
    ) by {
        assert(place(t, 1, 0, HIDDEN as int, c) == c);
    }
    short_convolution_by_channel(file, layer, x, 1, y);
}

/// `C` gates the output: where it is zero, nothing of the short convolution passes.
pub proof fn a_closed_gate_lets_nothing_pass<T: Scalar>(
    file: GgufFile,
    layer: int,
    x: Seq<T>,
    seq: int,
)
    requires
        keeps_units::<T>(),
        0 <= seq,
        forall|t: int, c: int|
            0 <= t < seq && 0 <= c < HIDDEN ==> #[trigger] project(
                file,
                layer_name(layer, "shortconv.in_proj.weight"@),
                row(x, HIDDEN as int, t),
                3 * HIDDEN,
            )[HIDDEN + c] == T::zero_spec(),
    ensures
        conv_op_spec(file, layer, x, seq) == project_seq(
            file,
            layer_name(layer, "shortconv.out_proj.weight"@),
            Seq::new((seq * HIDDEN) as nat, |i: int| T::zero_spec()),
            seq,
            HIDDEN as int,
            HIDDEN as int,
        ),
{
    reveal(keeps_units);
    assert(0 <= seq * HIDDEN) by (nonlinear_arith)
        requires
            0 <= seq,
            HIDDEN == 2048,
    ;
    let y = Seq::new((seq * HIDDEN) as nat, |i: int| T::zero_spec());
    assert forall|t: int, c: int| 0 <= t < seq && 0 <= c < HIDDEN implies #[trigger] y[place(
        t,
        1,
        0,
        HIDDEN as int,
        c,
    )] == T::zero_spec() && output_gate(file, layer, x, t, c) == T::zero_spec() by {
        lemma_flat_index(seq, HIDDEN as int, t, c);
        assert(place(t, 1, 0, HIDDEN as int, c) == t * HIDDEN + c) by (nonlinear_arith);
    }
    short_convolution_by_channel(file, layer, x, seq, y);
}

/// Head `h` of the queries (or keys) of a position: projected, normed with the gain of the
/// heads, and rotated for the position with base 5,000,000.
pub open spec fn turned_head<T: Scalar>(
    file: GgufFile,
    matrix: Seq<char>,
    gain: Seq<char>,
    x: Seq<T>,
    n_heads: int,
    t: int,
    h: int,
) -> Seq<T> {
    let head = project(file, matrix, row(x, HIDDEN as int, t), n_heads * 64).subrange(
        64 * h,
        64 * h + 64,
    );
    rotated(
        Seq::new(64, |d: int| normed(head, decoded(file, gain), d)),
        t,
        T::from_i32_spec(5_000_000),
    )
}

proof fn lemma_turned_heads<T: Scalar>(
    file: GgufFile,
    matrix: Seq<char>,
    gain: Seq<char>,
    x: Seq<T>,
    seq: int,
    n_heads: int,
    q: Seq<T>,
)
    requires
        0 <= seq,
        0 < n_heads,
        q.len() == seq * (n_heads * 64),
        forall|t: int, h: int|
            0 <= t < seq && 0 <= h < n_heads ==> #[trigger] row(q, 64, place(t, n_heads, h, 1, 0))
                == turned_head(file, matrix, gain, x, n_heads, t, h),
    ensures
        q == norm_rope_seq_spec(
            project_seq(file, matrix, x, seq, HIDDEN as int, n_heads * 64),
            n_heads,
            decoded(file, gain),
            seq,
        ),
{
    let w = n_heads * 64;
    let g: Seq<T> = decoded(file, gain);
    let f = |p: int| project(file, matrix, row(x, HIDDEN as int, p), w);
    let px = project_seq(file, matrix, x, seq, HIDDEN as int, w);
    let z = norm_rope_seq_spec(px, n_heads, g, seq);
    assert(n_heads * HEAD_DIM == w);
    lemma_stack_len(
        seq,
        w,
        |t: int| norm_rope_spec(row(px, n_heads * HEAD_DIM, t), n_heads, g, t),
    );
    assert forall|i: int| 0 <= i < seq * w implies #[trigger] q[i] == z[i] by {
        lemma_split_index(seq, w, i);
        let t = i / w;
        let r = i % w;
        lemma_split_index(n_heads, 64, r);
        let h = r / 64;
        let d = r % 64;
        lemma_stack_row(seq, w, f, t);
        let rowx = row(px, w, t);
        assert(rowx =~= f(t));
        lemma_row_bounds(n_heads, 64, h);
        let head = row(rowx, 64, h);
        assert(head =~= f(t).subrange(64 * h, 64 * h + 64));
        assert(z[i] == norm_rope_head(head, g, t)[d]);
        let n1 = rmsnorm_spec(head, g, crate::config::rms_eps_spec());
        let n2 = Seq::new(64, |d: int| normed(head, g, d));
        assert forall|c: int| 0 <= c < 64 implies #[trigger] n1[c] == n2[c] by {
            lemma_normed(head, g, c);
        }
        assert(n1 =~= n2);
        assert(turned_head(file, matrix, gain, x, n_heads, t, h)[d] == z[i]);
        let b = place(t, n_heads, h, 1, 0);
        assert(b == t * n_heads + h);
        lemma_flat_index(seq, n_heads, t, h);
        lemma_row_bounds(seq * n_heads, 64, b);
        assert(seq * n_heads * 64 == seq * w && b * 64 + d == i) by (nonlinear_arith)
            requires
                w == n_heads * 64,
                b == t * n_heads + h,
                t * w + r == i,
                h * 64 + d == r,
        ;
        assert(row(q, 64, b)[d] == q[i]);
    }
    assert(q =~= z);
}

/// The attention operator, head by head: the queries are turned by `attn_q` and
/// `attn_q_norm`, the keys by `attn_k` and `attn_k_norm`, the values are plain products with
/// `attn_v`; 32 query heads attend with 8 key/value heads, and `attn_output` projects.
pub proof fn attention_operator_by_head<T: Scalar>(
    file: GgufFile,
    layer: int,
    x: Seq<T>,
    seq: int,
    q: Seq<T>,
    k: Seq<T>,
    v: Seq<T>,
)
    requires
        0 <= seq,
        q.len() == seq * 2048,
        k.len() == seq * 512,
        v.len() == seq * 512,
        forall|t: int, h: int|
            0 <= t < seq && 0 <= h < 32 ==> #[trigger] row(q, 64, place(t, 32, h, 1, 0))
                == turned_head(
                file,
                layer_name(layer, "attn_q.weight"@),
                layer_name(layer, "attn_q_norm.weight"@),
                x,
                32,
                t,
                h,
            ),
        forall|t: int, h: int|
            0 <= t < seq && 0 <= h < 8 ==> #[trigger] row(k, 64, place(t, 8, h, 1, 0))
                == turned_head(
                file,
                layer_name(layer, "attn_k.weight"@),
                layer_name(layer, "attn_k_norm.weight"@),
                x,
                8,
                t,
                h,
            ),
        forall|t: int|
            0 <= t < seq ==> #[trigger] row(v, 512, t) == project(
                file,
                layer_name(layer, "attn_v.weight"@),
                row(x, 2048, t),
                512,
            ),
    ensures
        attention_op_spec(file, layer, x, seq) == project_seq(
            file,
            layer_name(layer, "attn_output.weight"@),
            attention_spec(q, k, v, seq, 32, 8, 64),
            seq,
            2048,
            2048,
        ),
{
    lemma_turned_heads(
        file,
        layer_name(layer, "attn_q.weight"@),
        layer_name(layer, "attn_q_norm.weight"@),
        x,
        seq,
        32,
        q,
    );
    lemma_turned_heads(
        file,
        layer_name(layer, "attn_k.weight"@),
        layer_name(layer, "attn_k_norm.weight"@),
        x,
        seq,
        8,
        k,
    );
    assert(q == queries(file, layer, x, seq));
    assert(k == keys(file, layer, x, seq));
    let f = |p: int| project(file, layer_name(layer, "attn_v.weight"@), row(x, 2048, p), 512);
    lemma_rows_make_stack(seq, 512, f, v);
    assert(v == project_seq(file, layer_name(layer, "attn_v.weight"@), x, seq, 2048, 512));
}

/// Rows that are those of a stack make the stack.
proof fn lemma_rows_make_stack<A>(rows: int, cols: int, f: spec_fn(int) -> Seq<A>, s: Seq<A>)
    requires
        0 <= rows,
        0 <= cols,
        s.len() == rows * cols,
        forall|t: int| 0 <= t < rows ==> #[trigger] row(s, cols, t) == f(t),
    ensures
        s == stack(rows, cols, f),
{
    lemma_stack_len(rows, cols, f);
    let z = stack(rows, cols, f);
    assert forall|i: int| 0 <= i < rows * cols implies #[trigger] s[i] == z[i] by {
        lemma_split_index(rows, cols, i);
        let t = i / cols;
        lemma_row_bounds(rows, cols, t);
        assert(row(s, cols, t)[i % cols] == s[i]);
    }
    assert(s =~= z);
}

/// `gate / (1 + exp(−gate)) · up`
pub open spec fn switched<T: Scalar>(gate: T, up: T) -> T {
    gate.div_spec(
        T::from_i32_spec(1).add_spec(T::zero_spec().sub_spec(gate).exp_spec()),
    ).mul_spec(up)
}

/// The dense feed-forward part, channel by channel: `ffn_gate` switches what `ffn_up` gives,
/// at every position and inner channel, and `ffn_down` projects.
pub proof fn dense_part_by_channel<T: Scalar>(
    file: GgufFile,
    layer: int,
    x: Seq<T>,
    seq: int,
    y: Seq<T>,
)
    requires
        0 <= seq,
        y.len() == seq * 7168,
        forall|t: int, i: int|
            0 <= t < seq && 0 <= i < 7168 ==> #[trigger] y[place(t, 1, 0, 7168, i)] == switched(
                project(
                    file,
                    layer_name(layer, "ffn_gate.weight"@),
                    row(x, 2048, t),
                    7168,
                )[i],
                project(file, layer_name(layer, "ffn_up.weight"@), row(x, 2048, t), 7168)[i],
            ),
    ensures
        dense_ffn_spec(file, layer, x, seq) == project_seq(
            file,
            layer_name(layer, "ffn_down.weight"@),
            y,
            seq,
            7168,
            2048,
        ),
{
    let h = HIDDEN as int;
    let ff = DENSE_FF as int;
    let gn = layer_name(layer, "ffn_gate.weight"@);
    let un = layer_name(layer, "ffn_up.weight"@);
    let fg = |p: int| project(file, gn, row(x, h, p), ff);
    let fu = |p: int| project(file, un, row(x, h, p), ff);
    let gate = project_seq(file, gn, x, seq, h, ff);
    let up = project_seq(file, un, x, seq, h, ff);
    lemma_stack_len(seq, ff, fg);
    lemma_stack_len(seq, ff, fu);
    let z = swiglu_spec(gate, up);
    assert forall|j: int| 0 <= j < seq * ff implies #[trigger] z[j] == y[j] by {
        lemma_split_index(seq, ff, j);
        let t = j / ff;
        let i = j % ff;
        assert(place(t, 1, 0, ff, i) == j) by (nonlinear_arith)
            requires
                t * ff + i == j,
        ;
        assert(y[place(t, 1, 0, 7168, i)] == y[j]);
    }
    assert(z =~= y);
}

/// Positions are projected one by one: position `t` of a projected sequence is the product
/// with position `t` alone.
pub proof fn positions_are_projected_one_by_one<T: Scalar>(
    file: GgufFile,
    name: Seq<char>,
    x: Seq<T>,
    seq: int,
    n_in: int,
    n_out: int,
    t: int,
    o: int,
)
    requires
        0 <= t < seq,
        0 <= n_in,
        0 <= o < n_out,
    ensures
        project_seq(file, name, x, seq, n_in, n_out)[t * n_out + o] == project(
            file,
            name,
            x.subrange(t * n_in, t * n_in + n_in),
            n_out,
        )[o],
{
    lemma_flat_index(seq, n_out, t, o);
    assert((t + 1) * n_in == t * n_in + n_in) by (nonlinear_arith);
}

/// The first position is not turned: where the angle zero has cosine one and sine zero, the
/// queries and keys of position zero are the normed heads themselves.
pub proof fn the_first_position_is_not_turned<T: Scalar>(
    file: GgufFile,
    layer: int,
    x: Seq<T>,
    seq: int,
    h: int,
    d: int,
)
    requires
        forall|a: T| #[trigger] T::from_u64_spec(0).mul_spec(a) == T::zero_spec(),
        T::zero_spec().cos_spec() == T::from_i32_spec(1),
        T::zero_spec().sin_spec() == T::zero_spec(),
        forall|a: T| #[trigger] a.mul_spec(T::from_i32_spec(1)) == a,
        forall|a: T| #[trigger] a.mul_spec(T::zero_spec()) == T::zero_spec(),
        forall|a: T| #[trigger] a.sub_spec(T::zero_spec()) == a,
        forall|a: T| #[trigger] T::zero_spec().add_spec(a) == a,
        0 < seq,
        0 <= h < 32,
        0 <= d < 64,
    ensures
        queries(file, layer, x, seq)[64 * h + d] == rmsnorm_spec(
            project(file, layer_name(layer, "attn_q.weight"@), row(x, 2048, 0), 2048).subrange(
                64 * h,
                64 * h + 64,
            ),
            decoded(file, layer_name(layer, "attn_q_norm.weight"@)),
            T::from_i32_spec(1).div_spec(T::from_i32_spec(100_000)),
        )[d],
        h < 8 ==> keys(file, layer, x, seq)[64 * h + d] == rmsnorm_spec(
            project(file, layer_name(layer, "attn_k.weight"@), row(x, 2048, 0), 512).subrange(
                64 * h,
                64 * h + 64,
            ),
            decoded(file, layer_name(layer, "attn_k_norm.weight"@)),
            T::from_i32_spec(1).div_spec(T::from_i32_spec(100_000)),
        )[d],
{
    lemma_first_head(
        file,
        layer_name(layer, "attn_q.weight"@),
        layer_name(layer, "attn_q_norm.weight"@),
        x,
        seq,
        32,
        h,
        d,
    );
    if h < 8 {
        lemma_first_head(
            file,
            layer_name(layer, "attn_k.weight"@),
            layer_name(layer, "attn_k_norm.weight"@),
            x,
            seq,
            8,
            h,
            d,
        );
    }
}

proof fn lemma_first_head<T: Scalar>(
    file: GgufFile,
    matrix: Seq<char>,
    gain: Seq<char>,
    x: Seq<T>,
    seq: int,
    n_heads: int,
    h: int,
    d: int,
)
    requires
        forall|a: T| #[trigger] T::from_u64_spec(0).mul_spec(a) == T::zero_spec(),
        T::zero_spec().cos_spec() == T::from_i32_spec(1),
        T::zero_spec().sin_spec() == T::zero_spec(),
        forall|a: T| #[trigger] a.mul_spec(T::from_i32_spec(1)) == a,
        forall|a: T| #[trigger] a.mul_spec(T::zero_spec()) == T::zero_spec(),
        forall|a: T| #[trigger] a.sub_spec(T::zero_spec()) == a,
        forall|a: T| #[trigger] T::zero_spec().add_spec(a) == a,
        0 < seq,
        0 <= h < n_heads,
        0 <= d < 64,
    ensures
        norm_rope_seq_spec(
            project_seq(file, matrix, x, seq, 2048, n_heads * 64),
            n_heads,
            decoded(file, gain),
            seq,
        )[64 * h + d] == rmsnorm_spec(
            project(file, matrix, row(x, 2048, 0), n_heads * 64).subrange(64 * h, 64 * h + 64),
            decoded(file, gain),
            T::from_i32_spec(1).div_spec(T::from_i32_spec(100_000)),
        )[d],
{
    let w = n_heads * 64;
    let g: Seq<T> = decoded(file, gain);
    let f = |p: int| project(file, matrix, row(x, 2048, p), w);
    let px = project_seq(file, matrix, x, seq, 2048, w);
    let z = norm_rope_seq_spec(px, n_heads, g, seq);
    assert(n_heads * HEAD_DIM == w);
    lemma_stack_row(seq, w, f, 0);
    let rowx = row(px, w, 0);
    assert(rowx =~= f(0));
    lemma_row_bounds(n_heads, 64, h);
    let head = row(rowx, 64, h);
    assert(head =~= f(0).subrange(64 * h, 64 * h + 64));
    lemma_flat_index(n_heads, 64, h, d);
    lemma_flat_index(seq, w, 0, 64 * h + d);
    assert(z[64 * h + d] == norm_rope_head(head, g, 0)[d]);
    let n = rmsnorm_spec(head, g, crate::config::rms_eps_spec());
    assert(n.len() == 64);
}

} // verus!
