//! The operators of the decoder layers, each over a whole sequence of positions.
//!
//! A sequence of `seq` positions is stored position-major. Matrix products, norms and the
//! feed-forward parts treat every position by itself; the short convolution and attention
//! also look at earlier positions.
use crate::algebra::products;
use crate::config::{
    attention_layer, dense_layer, rms_eps, rms_eps_spec, rope_theta, rope_theta_spec,
    CONV_L_CACHE, DENSE_FF, HEAD_DIM, HIDDEN, KV_DIM, N_HEADS, N_KV_HEADS, N_LAYERS,
};
use crate::gguf::{dims_product, GgufFile, TensorInfo};
use crate::kernels::activation::{swiglu, swiglu_spec};
use crate::kernels::attention::{attention, attention_spec};
use crate::kernels::conv::{causal_depthwise_conv, conv_spec};
use crate::kernels::dequant::{dequantize, weights};
use crate::kernels::matmul::{matvec, matvec_ok, matvec_spec};
use crate::kernels::rmsnorm::{rmsnorm, rmsnorm_spec};
use crate::kernels::rope::{rope_neox, rotated};
use crate::layout::{lemma_row_bounds, lemma_stack_len, lemma_stack_push, row, stack};
use crate::model::tensors::{
    expected, layer_name, layer_tensors, layer_tensors_are_expected, name, operator_tensors,
};
use crate::model::{provides, runnable, Model};
use crate::scalar::{append_row, filled, Scalar};
use crate::tensor::{block_bytes, block_elems, lemma_row_bytes, row_bytes};
use vstd::prelude::*;

verus! {

/// The product of a named matrix with `x`.
pub open spec fn project<T: Scalar>(file: GgufFile, name: Seq<char>, x: Seq<T>, n_out: int) -> Seq<
    T,
> {
    let t = file.lookup(name).unwrap();
    matvec_spec(t.ggml_type, file.bytes_of(&t), x, n_out)
}

/// The product of a named matrix with every position of `x`.
pub open spec fn project_seq<T: Scalar>(
    file: GgufFile,
    name: Seq<char>,
    x: Seq<T>,
    seq: int,
    n_in: int,
    n_out: int,
) -> Seq<T> {
    stack(seq, n_out, |p: int| project(file, name, row(x, n_in, p), n_out))
}

/// The decoded weights of a named tensor.
pub open spec fn decoded<T: Scalar>(file: GgufFile, name: Seq<char>) -> Seq<T> {
    let t = file.lookup(name).unwrap();
    weights(t.ggml_type, file.bytes_of(&t), t.elements())
}

/// The RMS norm of every position, with a named gain.
pub open spec fn norm_seq_spec<T: Scalar>(
    file: GgufFile,
    h: Seq<T>,
    gain: Seq<char>,
    seq: int,
) -> Seq<T> {
    stack(
        seq,
        HIDDEN as int,
        |t: int| rmsnorm_spec(row(h, HIDDEN as int, t), decoded(file, gain), rms_eps_spec()),
    )
}

/// A matrix tensor holds the bytes that its product needs.
pub(crate) proof fn lemma_matrix(file: GgufFile, name: Seq<char>, n_in: u64, n_out: u64)
    requires
        provides(file, name, seq![n_in, n_out]),
    ensures
        ({
            let t = file.lookup(name).unwrap();
            &&& file.bytes_of(&t).len() == n_out * row_bytes(t.ggml_type, n_in as int)
            &&& matvec_ok(
                t.ggml_type,
                file.bytes_of(&t).len() as int,
                n_in as int,
                n_out as int,
            )
        }),
{
    let t = file.lookup(name).unwrap();
    let d = seq![n_in, n_out];
    assert(t.dims@ == d);
    reveal_with_fuel(dims_product, 3);
    assert(dims_product(d, 1) == n_out * 1);
    lemma_row_bytes(t.ggml_type, n_in as int);
    let rb = row_bytes(t.ggml_type, n_in as int);
    assert(n_out * rb >= 0) by (nonlinear_arith)
        requires
            rb >= 0,
    ;
}

/// The weights of a tensor are whole blocks that fill its bytes.
proof fn lemma_decodable(t: TensorInfo)
    requires
        t.well_formed(),
    ensures
        t.elements() % block_elems(t.ggml_type) == 0,
        row_bytes(t.ggml_type, t.elements()) == t.bytes(),
{
    let be = block_elems(t.ggml_type);
    let bb = block_bytes(t.ggml_type);
    let d = t.dims@[0] as int;
    let p = dims_product(t.dims@, 1);
    assert(t.elements() == d * p);
    let q = d / be;
    vstd::arithmetic::div_mod::lemma_fundamental_div_mod(d, be);
    assert(d * p == (q * p) * be + 0) by (nonlinear_arith)
        requires
            d == be * q,
    ;
    vstd::arithmetic::div_mod::lemma_fundamental_div_mod_converse(d * p, be, q * p, 0);
    assert((q * p) * bb == p * (q * bb)) by (nonlinear_arith);
}

impl<'a> Model<'a> {
    /// Applies `matvec` to every position of a `seq × n_in` input, giving `seq × n_out`.
    pub(crate) fn matvec_seq<T: Scalar>(
        &self,
        tensor: &str,
        x: &[T],
        seq: usize,
        n_in: usize,
        n_out: usize,
    ) -> (r: Vec<T>)
        requires
            provides(self.file(), tensor@, seq![n_in as u64, n_out as u64]),
            x@.len() == seq * n_in,
        ensures
            r@ == project_seq(self.file(), tensor@, x@, seq as int, n_in as int, n_out as int),
            r@.len() == seq * n_out,
    {
        let mut out: Vec<T> = Vec::new();
        let ghost f = |p: int|
            project(self.file(), tensor@, row(x@, n_in as int, p), n_out as int);
        proof {
            lemma_matrix(self.file(), tensor@, n_in as u64, n_out as u64);
            lemma_stack_len(seq as int, n_out as int, f);
        }
        if let Some(t) = self.tensor(tensor) {
            let data: &[u8] = self.data(t);
            let mut p: usize = 0;
            assert(x.len() == x@.len());
            assert(out@ =~= stack(0, n_out as int, f));
            while p < seq
                invariant
                    x@.len() == seq * n_in,
                    x@.len() <= usize::MAX,
                    matvec_ok(t.ggml_type, data@.len() as int, n_in as int, n_out as int),
                    *t == self.file().lookup(tensor@).unwrap(),
                    data@ == self.file().bytes_of(t),
                    p <= seq,
                    f == (|p: int|
                        project(self.file(), tensor@, row(x@, n_in as int, p), n_out as int)),
                    out@ == stack(p as int, n_out as int, f),
                decreases seq - p,
            {
                proof {
                    lemma_row_bounds(seq as int, n_in as int, p as int);
                    lemma_stack_push(p as int, n_out as int, f);
                }
                let mut y: Vec<T> = filled(T::zero(), n_out);
                matvec(
                    t.ggml_type,
                    data,
                    n_in,
                    n_out,
                    &x[p * n_in..(p + 1) * n_in],
                    y.as_mut_slice(),
                );
                assert(y@ == f(p as int));
                append_row(&mut out, y.as_slice());
                p += 1;
            }
        }
        out
    }

    /// Decodes a (usually small) tensor.
    pub(crate) fn dequant_vec<T: Scalar>(&self, tensor: &str) -> (r: Vec<T>)
        requires
            self.file().lookup(tensor@) is Some,
            self.file().holds(&self.file().lookup(tensor@).unwrap()),
            self.file().lookup(tensor@).unwrap().elements() <= u32::MAX,
        ensures
            r@ == decoded::<T>(self.file(), tensor@),
    {
        let t: &TensorInfo = match self.tensor(tensor) {
            Some(t) => t,
            None => {
                return Vec::new();
            },
        };
        proof {
            lemma_decodable(*t);
        }
        match t.n_elements() {
            Some(n) => dequantize(t.ggml_type, self.data(t), n as usize),
            None => Vec::new(),
        }
    }

    /// The RMS norm of every position of `h`, with the named gain.
    pub(crate) fn norm_seq<T: Scalar>(&self, h: &[T], gain_name: &str, seq: usize) -> (r: Vec<T>)
        requires
            provides(self.file(), gain_name@, seq![HIDDEN as u64]),
            h@.len() == seq * HIDDEN,
        ensures
            r@ == norm_seq_spec(self.file(), h@, gain_name@, seq as int),
            r@.len() == seq * HIDDEN,
    {
        proof {
            lemma_vector(self.file(), gain_name@, HIDDEN as u64);
        }
        let gain: Vec<T> = self.dequant_vec(gain_name);
        let eps: T = rms_eps();
        let ghost f = |t: int|
            rmsnorm_spec(
                row(h@, HIDDEN as int, t),
                decoded(self.file(), gain_name@),
                rms_eps_spec(),
            );
        let mut out: Vec<T> = Vec::new();
        let mut t: usize = 0;
        assert(h.len() == h@.len());
        assert(out@ =~= stack(0, HIDDEN as int, f));
        while t < seq
            invariant
                h@.len() == seq * HIDDEN,
                h@.len() <= usize::MAX,
                gain@ == decoded::<T>(self.file(), gain_name@),
                gain@.len() == HIDDEN,
                eps == rms_eps_spec::<T>(),
                t <= seq,
                f == (|t: int|
                    rmsnorm_spec(
                        row(h@, HIDDEN as int, t),
                        decoded(self.file(), gain_name@),
                        rms_eps_spec(),
                    )),
                out@ == stack(t as int, HIDDEN as int, f),
            decreases seq - t,
        {
            proof {
                lemma_row_bounds(seq as int, HIDDEN as int, t as int);
                assert(row(h@, HIDDEN as int, t as int).len() == HIDDEN);
                lemma_stack_push(t as int, HIDDEN as int, f);
            }
            let mut y: Vec<T> = filled(T::zero(), HIDDEN);
            rmsnorm(&h[t * HIDDEN..(t + 1) * HIDDEN], gain.as_slice(), eps, y.as_mut_slice());
            assert(y@ == f(t as int));
            append_row(&mut out, y.as_slice());
            t += 1;
        }
        proof {
            lemma_stack_len(seq as int, HIDDEN as int, f);
        }
        out
    }
}

/// A vector tensor of `n` weights.
pub(crate) proof fn lemma_vector(file: GgufFile, name: Seq<char>, n: u64)
    requires
        provides(file, name, seq![n]),
    ensures
        file.lookup(name).unwrap().elements() == n,
{
    let d = seq![n];
    assert(file.lookup(name).unwrap().dims@ == d);
    reveal_with_fuel(dims_product, 2);
    assert(dims_product(d, 0) == n * 1);
}

/// A runnable file provides every tensor of every layer.
pub(crate) proof fn lemma_provides(file: GgufFile, layer: int, j: int)
    requires
        runnable(file),
        0 <= layer < N_LAYERS,
        0 <= j < layer_tensors(layer).len(),
    ensures
        provides(
            file,
            layer_name(layer, layer_tensors(layer)[j].0),
            layer_tensors(layer)[j].1,
        ),
{
    let i = layer_tensors_are_expected(layer, j);
    assert(provides(file, expected()[i].0, expected()[i].1));
}

/// `HIDDEN` values of position `t`, from `off` on.
pub open spec fn part<T>(s: Seq<T>, stride: int, off: int, t: int) -> Seq<T> {
    row(s, stride, t).subrange(off, off + HIDDEN)
}

/// The elementwise product, at every position, of a part of `a` and a part of `b`.
pub open spec fn gated<T: Scalar>(
    a: Seq<T>,
    stride_a: int,
    off_a: int,
    b: Seq<T>,
    stride_b: int,
    off_b: int,
    seq: int,
) -> Seq<T> {
    stack(
        seq,
        HIDDEN as int,
        |t: int| products(part(a, stride_a, off_a, t), part(b, stride_b, off_b, t)),
    )
}

/// The elementwise product, at every position, of a part of `a` and a part of `b`.
fn gate_rows<T: Scalar>(
    a: &[T],
    stride_a: usize,
    off_a: usize,
    b: &[T],
    stride_b: usize,
    off_b: usize,
    seq: usize,
) -> (r: Vec<T>)
    requires
        a@.len() == seq * stride_a,
        b@.len() == seq * stride_b,
        off_a + HIDDEN <= stride_a,
        off_b + HIDDEN <= stride_b,
    ensures
        r@ == gated(
            a@,
            stride_a as int,
            off_a as int,
            b@,
            stride_b as int,
            off_b as int,
            seq as int,
        ),
        r@.len() == seq * HIDDEN,
{
    let ghost f = |t: int|
        products(
            part(a@, stride_a as int, off_a as int, t),
            part(b@, stride_b as int, off_b as int, t),
        );
    let mut out: Vec<T> = Vec::new();
    let mut t: usize = 0;
    assert(a.len() == a@.len() && b.len() == b@.len());
    assert(out@ =~= stack(0, HIDDEN as int, f));
    while t < seq
        invariant
            a@.len() == seq * stride_a,
            b@.len() == seq * stride_b,
            a@.len() <= usize::MAX,
            b@.len() <= usize::MAX,
            off_a + HIDDEN <= stride_a,
            off_b + HIDDEN <= stride_b,
            t <= seq,
            f == (|t: int|
                products(
                    part(a@, stride_a as int, off_a as int, t),
                    part(b@, stride_b as int, off_b as int, t),
                )),
            out@ == stack(t as int, HIDDEN as int, f),
        decreases seq - t,
    {
        proof {
            lemma_row_bounds(seq as int, stride_a as int, t as int);
            lemma_row_bounds(seq as int, stride_b as int, t as int);
            lemma_stack_push(t as int, HIDDEN as int, f);
        }
        let ra: &[T] = &a[t * stride_a..(t + 1) * stride_a];
        let rb: &[T] = &b[t * stride_b..(t + 1) * stride_b];
        let pa: &[T] = &ra[off_a..off_a + HIDDEN];
        let pb: &[T] = &rb[off_b..off_b + HIDDEN];
        let mut y: Vec<T> = filled(T::zero(), HIDDEN);
        crate::kernels::elementwise::mul(pa, pb, y.as_mut_slice());
        assert(y@ =~= f(t as int));
        append_row(&mut out, y.as_slice());
        t += 1;
    }
    proof {
        lemma_stack_len(seq as int, HIDDEN as int, f);
    }
    out
}

/// The gated short convolution: project to `[B | C | x]`, convolve `B·x`, gate with `C`,
/// project back.
pub open spec fn conv_op_spec<T: Scalar>(
    file: GgufFile,
    layer: int,
    x: Seq<T>,
    seq: int,
) -> Seq<T> {
    let h = HIDDEN as int;
    let bcx = project_seq(
        file,
        layer_name(layer, "shortconv.in_proj.weight"@),
        x,
        seq,
        h,
        3 * h,
    );
    let bx = gated(bcx, 3 * h, 0, bcx, 3 * h, 2 * h, seq);
    let taps = decoded(file, layer_name(layer, "shortconv.conv.weight"@));
    let convolved = conv_spec(bx, taps, seq, h, CONV_L_CACHE as int);
    let y = gated(bcx, 3 * h, h, convolved, h, 0, seq);
    project_seq(file, layer_name(layer, "shortconv.out_proj.weight"@), y, seq, h, h)
}

/// The filter tensor of a short convolution.
proof fn lemma_taps(file: GgufFile, name: Seq<char>)
    requires
        provides(file, name, seq![CONV_L_CACHE as u64, HIDDEN as u64]),
    ensures
        file.lookup(name).unwrap().elements() == HIDDEN * CONV_L_CACHE,
{
    let d = seq![CONV_L_CACHE as u64, HIDDEN as u64];
    assert(file.lookup(name).unwrap().dims@ == d);
    reveal_with_fuel(dims_product, 3);
    assert(dims_product(d, 1) == HIDDEN);
    assert(dims_product(d, 0) == d[0] * dims_product(d, 1));
}

impl<'a> Model<'a> {
    /// The gated short-convolution operator of a layer.
    pub(crate) fn conv_op<T: Scalar>(&self, layer: usize, x: &[T], seq: usize) -> (r: Vec<T>)
        requires
            runnable(self.file()),
            layer < N_LAYERS,
            !attention_layer(layer as int),
            x@.len() == seq * HIDDEN,
        ensures
            r@ == conv_op_spec(self.file(), layer as int, x@, seq as int),
            r@.len() == seq * HIDDEN,
    {
        proof {
            lemma_provides(self.file(), layer as int, 2);
            lemma_provides(self.file(), layer as int, 3);
            lemma_provides(self.file(), layer as int, 4);
            lemma_taps(self.file(), layer_name(layer as int, "shortconv.conv.weight"@));
        }
        let in_proj: String = name(layer, "shortconv.in_proj.weight");
        let bcx: Vec<T> = self.matvec_seq(in_proj.as_str(), x, seq, HIDDEN, 3 * HIDDEN);
        let bx: Vec<T> = gate_rows(
            bcx.as_slice(),
            3 * HIDDEN,
            0,
            bcx.as_slice(),
            3 * HIDDEN,
            2 * HIDDEN,
            seq,
        );
        let taps_name: String = name(layer, "shortconv.conv.weight");
        let taps: Vec<T> = self.dequant_vec(taps_name.as_str());
        let mut convolved: Vec<T> = filled(T::zero(), bx.len());
        causal_depthwise_conv(
            bx.as_slice(),
            taps.as_slice(),
            seq,
            HIDDEN,
            CONV_L_CACHE,
            convolved.as_mut_slice(),
        );
        let y: Vec<T> = gate_rows(
            bcx.as_slice(),
            3 * HIDDEN,
            HIDDEN,
            convolved.as_slice(),
            HIDDEN,
            0,
            seq,
        );
        let out_proj: String = name(layer, "shortconv.out_proj.weight");
        self.matvec_seq(out_proj.as_str(), y.as_slice(), seq, HIDDEN, HIDDEN)
    }
}

/// One head after its norm and its rotation for a position.
pub open spec fn norm_rope_head<T: Scalar>(
    head: Seq<T>,
    gain: Seq<T>,
    pos: int,
) -> Seq<T> {
    rotated(rmsnorm_spec(head, gain, rms_eps_spec()), pos, rope_theta_spec())
}

/// The heads of one position after norm and rotation.
pub open spec fn norm_rope_spec<T: Scalar>(
    buf: Seq<T>,
    n_heads: int,
    gain: Seq<T>,
    pos: int,
) -> Seq<T> {
    stack(
        n_heads,
        HEAD_DIM as int,
        |hh: int| norm_rope_head(row(buf, HEAD_DIM as int, hh), gain, pos),
    )
}

/// Per-head RMS norm, then rotary embedding, over the packed heads of one position.
fn norm_rope_heads<T: Scalar>(
    buf: &[T],
    n_heads: usize,
    gain: &[T],
    pos: usize,
) -> (r: Vec<T>)
    requires
        buf@.len() == n_heads * HEAD_DIM,
        gain@.len() == HEAD_DIM,
    ensures
        r@ == norm_rope_spec(buf@, n_heads as int, gain@, pos as int),
        r@.len() == n_heads * HEAD_DIM,
{
    let eps: T = rms_eps();
    let theta: T = rope_theta();
    let ghost f = |hh: int|
        norm_rope_head(row(buf@, HEAD_DIM as int, hh), gain@, pos as int);
    let mut out: Vec<T> = Vec::new();
    let mut hh: usize = 0;
    assert(buf.len() == buf@.len());
    assert(out@ =~= stack(0, HEAD_DIM as int, f));
    while hh < n_heads
        invariant
            buf@.len() == n_heads * HEAD_DIM,
            buf@.len() <= usize::MAX,
            gain@.len() == HEAD_DIM,
                    eps == rms_eps_spec::<T>(),
            theta == rope_theta_spec::<T>(),
            hh <= n_heads,
            f == (|hh: int|
                norm_rope_head(row(buf@, HEAD_DIM as int, hh), gain@, pos as int)),
            out@ == stack(hh as int, HEAD_DIM as int, f),
        decreases n_heads - hh,
    {
        proof {
            lemma_row_bounds(n_heads as int, HEAD_DIM as int, hh as int);
            assert(row(buf@, HEAD_DIM as int, hh as int).len() == HEAD_DIM);
            lemma_stack_push(hh as int, HEAD_DIM as int, f);
        }
        let mut head: Vec<T> = filled(T::zero(), HEAD_DIM);
        rmsnorm(&buf[hh * HEAD_DIM..(hh + 1) * HEAD_DIM], gain, eps, head.as_mut_slice());
        rope_neox(head.as_mut_slice(), pos, theta);
        assert(head@ == f(hh as int));
        append_row(&mut out, head.as_slice());
        hh += 1;
    }
    proof {
        lemma_stack_len(n_heads as int, HEAD_DIM as int, f);
    }
    out
}

/// The heads of every position after norm and rotation.
pub open spec fn norm_rope_seq_spec<T: Scalar>(
    x: Seq<T>,
    n_heads: int,
    gain: Seq<T>,
    seq: int,
) -> Seq<T> {
    stack(
        seq,
        n_heads * HEAD_DIM,
        |t: int| norm_rope_spec(row(x, n_heads * HEAD_DIM, t), n_heads, gain, t),
    )
}

/// The heads of every position after norm and rotation.
fn norm_rope_seq<T: Scalar>(
    x: &[T],
    n_heads: usize,
    width: usize,
    gain: &[T],
    seq: usize,
) -> (r: Vec<T>)
    requires
        width == n_heads * HEAD_DIM,
        x@.len() == seq * width,
        gain@.len() == HEAD_DIM,
    ensures
        r@ == norm_rope_seq_spec(x@, n_heads as int, gain@, seq as int),
        r@.len() == seq * width,
{
    let ghost f = |t: int|
        norm_rope_spec(row(x@, n_heads * HEAD_DIM, t), n_heads as int, gain@, t);
    let mut out: Vec<T> = Vec::new();
    let mut t: usize = 0;
    assert(x.len() == x@.len());
    assert(out@ =~= stack(0, width as int, f));
    while t < seq
        invariant
            width == n_heads * HEAD_DIM,
            x@.len() == seq * width,
            x@.len() <= usize::MAX,
            gain@.len() == HEAD_DIM,
                    t <= seq,
            f == (|t: int|
                norm_rope_spec(row(x@, n_heads * HEAD_DIM, t), n_heads as int, gain@, t)),
            out@ == stack(t as int, width as int, f),
        decreases seq - t,
    {
        proof {
            lemma_row_bounds(seq as int, width as int, t as int);
        }
        let y: Vec<T> = norm_rope_heads(
            &x[t * width..(t + 1) * width],
            n_heads,
            gain,
            t,
        );
        proof {
            assert(y@ == f(t as int));
            lemma_stack_push(t as int, width as int, f);
        }
        append_row(&mut out, y.as_slice());
        t += 1;
    }
    proof {
        lemma_stack_len(seq as int, width as int, f);
    }
    out
}

/// The queries of an attention layer: projected, normed and rotated.
pub open spec fn queries<T: Scalar>(
    file: GgufFile,
    layer: int,
    x: Seq<T>,
    seq: int,
) -> Seq<T> {
    norm_rope_seq_spec(
        project_seq(
            file,
            layer_name(layer, "attn_q.weight"@),
            x,
            seq,
            HIDDEN as int,
            HIDDEN as int,
        ),
        N_HEADS as int,
        decoded(file, layer_name(layer, "attn_q_norm.weight"@)),
        seq,
    )
}

/// The keys of an attention layer: projected, normed and rotated.
pub open spec fn keys<T: Scalar>(file: GgufFile, layer: int, x: Seq<T>, seq: int) -> Seq<T> {
    norm_rope_seq_spec(
        project_seq(
            file,
            layer_name(layer, "attn_k.weight"@),
            x,
            seq,
            HIDDEN as int,
            KV_DIM as int,
        ),
        N_KV_HEADS as int,
        decoded(file, layer_name(layer, "attn_k_norm.weight"@)),
        seq,
    )
}

/// Grouped-query attention: project to queries, keys and values, norm and rotate the heads
/// of queries and keys, attend, project back.
pub open spec fn attention_op_spec<T: Scalar>(
    file: GgufFile,
    layer: int,
    x: Seq<T>,
    seq: int,
) -> Seq<T> {
    let h = HIDDEN as int;
    let kv = KV_DIM as int;
    let q = queries(file, layer, x, seq);
    let k = keys(file, layer, x, seq);
    let v = project_seq(file, layer_name(layer, "attn_v.weight"@), x, seq, h, kv);
    let attended = attention_spec(
        q,
        k,
        v,
        seq,
        N_HEADS as int,
        N_KV_HEADS as int,
        HEAD_DIM as int,
    );
    project_seq(file, layer_name(layer, "attn_output.weight"@), attended, seq, h, h)
}

/// The dense SwiGLU feed-forward part: `down(silu(gate(x)) · up(x))`.
pub open spec fn dense_ffn_spec<T: Scalar>(
    file: GgufFile,
    layer: int,
    x: Seq<T>,
    seq: int,
) -> Seq<T> {
    let h = HIDDEN as int;
    let ff = DENSE_FF as int;
    let gate = project_seq(file, layer_name(layer, "ffn_gate.weight"@), x, seq, h, ff);
    let up = project_seq(file, layer_name(layer, "ffn_up.weight"@), x, seq, h, ff);
    project_seq(
        file,
        layer_name(layer, "ffn_down.weight"@),
        swiglu_spec(gate, up),
        seq,
        ff,
        h,
    )
}

impl<'a> Model<'a> {
    /// The grouped-query attention operator of a layer.
    pub(crate) fn attention_op<T: Scalar>(
        &self,
        layer: usize,
        x: &[T],
        seq: usize,
        ) -> (r: Vec<T>)
        requires
            runnable(self.file()),
            layer < N_LAYERS,
            attention_layer(layer as int),
            x@.len() == seq * HIDDEN,
                ensures
            r@ == attention_op_spec(self.file(), layer as int, x@, seq as int),
            r@.len() == seq * HIDDEN,
    {
        let ghost file = self.file();
        let ghost l = layer as int;
        proof {
            lemma_provides(file, l, 2);
            lemma_provides(file, l, 3);
            lemma_provides(file, l, 4);
            lemma_provides(file, l, 5);
            lemma_provides(file, l, 6);
            lemma_provides(file, l, 7);
            lemma_vector(file, layer_name(l, "attn_q_norm.weight"@), HEAD_DIM as u64);
            lemma_vector(file, layer_name(l, "attn_k_norm.weight"@), HEAD_DIM as u64);
        }
        let q_name: String = name(layer, "attn_q.weight");
        let k_name: String = name(layer, "attn_k.weight");
        let v_name: String = name(layer, "attn_v.weight");
        let q: Vec<T> = self.matvec_seq(q_name.as_str(), x, seq, HIDDEN, HIDDEN);
        let k: Vec<T> = self.matvec_seq(k_name.as_str(), x, seq, HIDDEN, KV_DIM);
        let v: Vec<T> = self.matvec_seq(v_name.as_str(), x, seq, HIDDEN, KV_DIM);
        let q_gain_name: String = name(layer, "attn_q_norm.weight");
        let k_gain_name: String = name(layer, "attn_k_norm.weight");
        let q_gain: Vec<T> = self.dequant_vec(q_gain_name.as_str());
        let k_gain: Vec<T> = self.dequant_vec(k_gain_name.as_str());
        let q: Vec<T> = norm_rope_seq(
            q.as_slice(),
            N_HEADS,
            HIDDEN,
            q_gain.as_slice(),
            seq,
        );
        let k: Vec<T> = norm_rope_seq(
            k.as_slice(),
            N_KV_HEADS,
            KV_DIM,
            k_gain.as_slice(),
            seq,
        );
        let mut attended: Vec<T> = filled(T::zero(), q.len());
        proof {
            assert(seq * N_HEADS * HEAD_DIM == seq * HIDDEN) by (nonlinear_arith)
                requires
                    N_HEADS * HEAD_DIM == HIDDEN,
            ;
            assert(seq * N_KV_HEADS * HEAD_DIM == seq * KV_DIM) by (nonlinear_arith)
                requires
                    N_KV_HEADS * HEAD_DIM == KV_DIM,
            ;
        }
        attention(
            q.as_slice(),
            k.as_slice(),
            v.as_slice(),
            seq,
            N_HEADS,
            N_KV_HEADS,
            HEAD_DIM,
            attended.as_mut_slice(),
        );
        let o_name: String = name(layer, "attn_output.weight");
        assert(attended@.len() == seq * HIDDEN);
        self.matvec_seq(o_name.as_str(), attended.as_slice(), seq, HIDDEN, HIDDEN)
    }

    /// The dense feed-forward part of a layer.
    pub(crate) fn dense_ffn<T: Scalar>(&self, layer: usize, x: &[T], seq: usize) -> (r: Vec<T>)
        requires
            runnable(self.file()),
            layer < N_LAYERS,
            dense_layer(layer as int),
            x@.len() == seq * HIDDEN,
        ensures
            r@ == dense_ffn_spec(self.file(), layer as int, x@, seq as int),
            r@.len() == seq * HIDDEN,
    {
        let ghost file = self.file();
        let ghost l = layer as int;
        proof {
            let n = 2 + operator_tensors(l).len() as int;
            lemma_provides(file, l, n);
            lemma_provides(file, l, n + 1);
            lemma_provides(file, l, n + 2);
        }
        let gate_name: String = name(layer, "ffn_gate.weight");
        let up_name: String = name(layer, "ffn_up.weight");
        let gate: Vec<T> = self.matvec_seq(gate_name.as_str(), x, seq, HIDDEN, DENSE_FF);
        let up: Vec<T> = self.matvec_seq(up_name.as_str(), x, seq, HIDDEN, DENSE_FF);
        let mut act: Vec<T> = filled(T::zero(), gate.len());
        swiglu(gate.as_slice(), up.as_slice(), act.as_mut_slice());
        let down_name: String = name(layer, "ffn_down.weight");
        self.matvec_seq(down_name.as_str(), act.as_slice(), seq, DENSE_FF, HIDDEN)
    }
}

} // verus!
