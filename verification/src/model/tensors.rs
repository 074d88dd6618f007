//! The tensors that the forward pass needs: their names and shapes.
use crate::config::{
    attention_layer, dense_layer, is_attention, is_dense_ffn, CONV_L_CACHE, DENSE_FF, HEAD_DIM,
    HIDDEN, KV_DIM, MOE_FF, N_EXPERTS, N_LAYERS, VOCAB,
};
use crate::text::{decimal, decimal_round_trip, push_decimal};
use vstd::prelude::*;
use vstd::string::StringExecFns;

verus! {

/// The name of a tensor of a layer: `blk.{layer}.{suffix}`.
pub open spec fn layer_name(layer: int, suffix: Seq<char>) -> Seq<char> {
    seq!['b', 'l', 'k', '.'] + decimal(layer as nat) + seq!['.'] + suffix
}

/// The tensors of the operator of a layer, by suffix, with their dims.
pub open spec fn operator_tensors(layer: int) -> Seq<(Seq<char>, Seq<u64>)> {
    if attention_layer(layer) {
        seq![
            ("attn_q.weight"@, seq![HIDDEN as u64, HIDDEN as u64]),
            ("attn_k.weight"@, seq![HIDDEN as u64, KV_DIM as u64]),
            ("attn_v.weight"@, seq![HIDDEN as u64, KV_DIM as u64]),
            ("attn_output.weight"@, seq![HIDDEN as u64, HIDDEN as u64]),
            ("attn_q_norm.weight"@, seq![HEAD_DIM as u64]),
            ("attn_k_norm.weight"@, seq![HEAD_DIM as u64]),
        ]
    } else {
        seq![
            ("shortconv.in_proj.weight"@, seq![HIDDEN as u64, 6144]),
            ("shortconv.conv.weight"@, seq![CONV_L_CACHE as u64, HIDDEN as u64]),
            ("shortconv.out_proj.weight"@, seq![HIDDEN as u64, HIDDEN as u64]),
        ]
    }
}

/// The tensors of the feed-forward part of a layer, by suffix, with their dims.
pub open spec fn ffn_tensors(layer: int) -> Seq<(Seq<char>, Seq<u64>)> {
    if dense_layer(layer) {
        seq![
            ("ffn_gate.weight"@, seq![HIDDEN as u64, DENSE_FF as u64]),
            ("ffn_up.weight"@, seq![HIDDEN as u64, DENSE_FF as u64]),
            ("ffn_down.weight"@, seq![DENSE_FF as u64, HIDDEN as u64]),
        ]
    } else {
        seq![
            ("ffn_gate_inp.weight"@, seq![HIDDEN as u64, N_EXPERTS as u64]),
            ("exp_probs_b.bias"@, seq![N_EXPERTS as u64]),
            ("ffn_gate_exps.weight"@, seq![HIDDEN as u64, MOE_FF as u64, N_EXPERTS as u64]),
            ("ffn_up_exps.weight"@, seq![HIDDEN as u64, MOE_FF as u64, N_EXPERTS as u64]),
            ("ffn_down_exps.weight"@, seq![MOE_FF as u64, HIDDEN as u64, N_EXPERTS as u64]),
        ]
    }
}

/// The tensors of a layer, by suffix, with their dims.
pub open spec fn layer_tensors(layer: int) -> Seq<(Seq<char>, Seq<u64>)> {
    seq![
        ("attn_norm.weight"@, seq![HIDDEN as u64]),
        ("ffn_norm.weight"@, seq![HIDDEN as u64]),
    ] + operator_tensors(layer) + ffn_tensors(layer)
}

/// The tensors of a layer by their full names.
pub open spec fn named(layer: int) -> Seq<(Seq<char>, Seq<u64>)> {
    layer_tensors(layer).map_values(
        |e: (Seq<char>, Seq<u64>)| (layer_name(layer, e.0), e.1),
    )
}

/// The tensors outside the layers and those of the first `n` layers.
pub open spec fn expected_below(n: nat) -> Seq<(Seq<char>, Seq<u64>)>
    decreases n,
{
    if n == 0 {
        seq![
            ("token_embd.weight"@, seq![HIDDEN as u64, VOCAB as u64]),
            ("token_embd_norm.weight"@, seq![HIDDEN as u64]),
        ]
    } else {
        expected_below((n - 1) as nat) + named(n - 1)
    }
}

/// Every tensor that the forward pass needs, with its dims.
pub open spec fn expected() -> Seq<(Seq<char>, Seq<u64>)> {
    expected_below(N_LAYERS as nat)
}

/// The names and dims that a list of tensors holds.
pub open spec fn entries(v: Seq<(String, Vec<u64>)>) -> Seq<(Seq<char>, Seq<u64>)> {
    Seq::new(v.len(), |i: int| (v[i].0@, v[i].1@))
}

/// The name of a tensor of a layer: `blk.{layer}.{suffix}`.
pub fn name(layer: usize, suffix: &str) -> (r: String)
    ensures
        r@ == layer_name(layer as int, suffix@),
{
    proof {
        reveal_strlit("blk.");
        reveal_strlit(".");
    }
    let mut s: String = String::new();
    s.append("blk.");
    push_decimal(&mut s, layer as u64);
    s.append(".");
    s.append(suffix);
    assert(s@ =~= layer_name(layer as int, suffix@));
    s
}

/// Appends one tensor of a layer.
fn push_tensor(v: &mut Vec<(String, Vec<u64>)>, layer: usize, suffix: &str, dims: Vec<u64>)
    ensures
        entries(final(v)@) == entries(old(v)@).push((layer_name(layer as int, suffix@), dims@)),
{
    let n: String = name(layer, suffix);
    v.push((n, dims));
    assert(entries(v@) =~= entries(old(v)@).push((layer_name(layer as int, suffix@), dims@)));
}

/// Appends the tensors of the operator of a layer.
fn push_operator(v: &mut Vec<(String, Vec<u64>)>, i: usize)
    ensures
        entries(final(v)@) == entries(old(v)@) + operator_tensors(i as int).map_values(
            |e: (Seq<char>, Seq<u64>)| (layer_name(i as int, e.0), e.1),
        ),
{
    let h: u64 = HIDDEN as u64;
    let kv: u64 = KV_DIM as u64;
    let head: u64 = HEAD_DIM as u64;
    if is_attention(i) {
        push_tensor(v, i, "attn_q.weight", vec![h, h]);
        push_tensor(v, i, "attn_k.weight", vec![h, kv]);
        push_tensor(v, i, "attn_v.weight", vec![h, kv]);
        push_tensor(v, i, "attn_output.weight", vec![h, h]);
        push_tensor(v, i, "attn_q_norm.weight", vec![head]);
        push_tensor(v, i, "attn_k_norm.weight", vec![head]);
    } else {
        push_tensor(v, i, "shortconv.in_proj.weight", vec![h, 3 * h]);
        push_tensor(v, i, "shortconv.conv.weight", vec![CONV_L_CACHE as u64, h]);
        push_tensor(v, i, "shortconv.out_proj.weight", vec![h, h]);
    }
    assert(entries(v@) =~~= entries(old(v)@) + operator_tensors(i as int).map_values(
        |e: (Seq<char>, Seq<u64>)| (layer_name(i as int, e.0), e.1),
    ));
}

/// Appends the tensors of the feed-forward part of a layer.
fn push_ffn(v: &mut Vec<(String, Vec<u64>)>, i: usize)
    ensures
        entries(final(v)@) == entries(old(v)@) + ffn_tensors(i as int).map_values(
            |e: (Seq<char>, Seq<u64>)| (layer_name(i as int, e.0), e.1),
        ),
{
    let h: u64 = HIDDEN as u64;
    let ff: u64 = MOE_FF as u64;
    let e: u64 = N_EXPERTS as u64;
    if is_dense_ffn(i) {
        push_tensor(v, i, "ffn_gate.weight", vec![h, DENSE_FF as u64]);
        push_tensor(v, i, "ffn_up.weight", vec![h, DENSE_FF as u64]);
        push_tensor(v, i, "ffn_down.weight", vec![DENSE_FF as u64, h]);
    } else {
        push_tensor(v, i, "ffn_gate_inp.weight", vec![h, e]);
        push_tensor(v, i, "exp_probs_b.bias", vec![e]);
        push_tensor(v, i, "ffn_gate_exps.weight", vec![h, ff, e]);
        push_tensor(v, i, "ffn_up_exps.weight", vec![h, ff, e]);
        push_tensor(v, i, "ffn_down_exps.weight", vec![ff, h, e]);
    }
    assert(entries(v@) =~~= entries(old(v)@) + ffn_tensors(i as int).map_values(
        |e: (Seq<char>, Seq<u64>)| (layer_name(i as int, e.0), e.1),
    ));
}

/// Every tensor that the forward pass needs, with its dims, from the layer schedule. The
/// dims of a weight for `y = W·x` are `[in, out]`.
pub fn expected_tensors() -> (r: Vec<(String, Vec<u64>)>)
    ensures
        entries(r@) == expected(),
{
    let h: u64 = HIDDEN as u64;
    let mut v: Vec<(String, Vec<u64>)> = Vec::new();
    v.push(("token_embd.weight".to_owned(), vec![h, VOCAB as u64]));
    v.push(("token_embd_norm.weight".to_owned(), vec![h]));
    assert(entries(v@) =~~= expected_below(0));
    let mut i: usize = 0;
    while i < N_LAYERS
        invariant
            h == HIDDEN,
            i <= N_LAYERS,
            entries(v@) == expected_below(i as nat),
        decreases N_LAYERS - i,
    {
        let ghost before = entries(v@);
        push_tensor(&mut v, i, "attn_norm.weight", vec![h]);
        push_tensor(&mut v, i, "ffn_norm.weight", vec![h]);
        push_operator(&mut v, i);
        push_ffn(&mut v, i);
        assert(entries(v@) =~~= before + named(i as int));
        i += 1;
    }
    v
}

/// A layer and a suffix are determined by the name they make.
pub proof fn layer_names_are_injective(i: int, a: Seq<char>, j: int, b: Seq<char>)
    requires
        0 <= i,
        0 <= j,
        layer_name(i, a) == layer_name(j, b),
    ensures
        i == j,
        a == b,
{
    decimal_round_trip(i as nat);
    decimal_round_trip(j as nat);
    let di = decimal(i as nat);
    let dj = decimal(j as nat);
    let ni = di.len() as int;
    let nj = dj.len() as int;
    let s = layer_name(i, a);
    let t = layer_name(j, b);
    assert(s[4 + ni] == '.');
    assert(t[4 + nj] == '.');
    if ni < nj {
        assert(t[4 + ni] == dj[ni]);
    } else if nj < ni {
        assert(s[4 + nj] == di[nj]);
    }
    assert(di =~= s.subrange(4, 4 + ni));
    assert(dj =~= t.subrange(4, 4 + nj));
    assert(a =~= s.subrange(5 + ni, s.len() as int));
    assert(b =~= t.subrange(5 + nj, t.len() as int));
}

/// What tells the suffixes of one layer apart: their length and two of their characters.
spec fn fingerprint(s: Seq<char>) -> (nat, char, char) {
    (s.len(), s[4], s[5])
}

proof fn lemma_suffixes_differ(layer: int, x: int, y: int)
    requires
        0 <= x < y < layer_tensors(layer).len(),
    ensures
        layer_tensors(layer)[x].0 != layer_tensors(layer)[y].0,
{
    reveal_strlit("attn_norm.weight");
    reveal_strlit("ffn_norm.weight");
    reveal_strlit("attn_q.weight");
    reveal_strlit("attn_k.weight");
    reveal_strlit("attn_v.weight");
    reveal_strlit("attn_output.weight");
    reveal_strlit("attn_q_norm.weight");
    reveal_strlit("attn_k_norm.weight");
    reveal_strlit("shortconv.in_proj.weight");
    reveal_strlit("shortconv.conv.weight");
    reveal_strlit("shortconv.out_proj.weight");
    reveal_strlit("ffn_gate.weight");
    reveal_strlit("ffn_up.weight");
    reveal_strlit("ffn_down.weight");
    reveal_strlit("ffn_gate_inp.weight");
    reveal_strlit("exp_probs_b.bias");
    reveal_strlit("ffn_gate_exps.weight");
    reveal_strlit("ffn_up_exps.weight");
    reveal_strlit("ffn_down_exps.weight");
    assert(fingerprint(layer_tensors(layer)[x].0) != fingerprint(layer_tensors(layer)[y].0));
}

/// Where a tensor comes from: outside the layers, or from one of the layers.
proof fn lemma_origin(n: nat, i: int)
    requires
        0 <= i < expected_below(n).len(),
    ensures
        i < 2 ==> expected_below(n)[i] == expected_below(0)[i],
        i >= 2 ==> exists|l: int, j: int|
            0 <= l < n && 0 <= j < layer_tensors(l).len() && expected_below(n)[i]
                == #[trigger] named(l)[j],
    decreases n,
{
    if n > 0 {
        let before = expected_below((n - 1) as nat);
        if i < before.len() {
            lemma_origin((n - 1) as nat, i);
        } else {
            assert(expected_below(n)[i] == named(n - 1)[i - before.len()]);
            lemma_globals((n - 1) as nat);
        }
    }
}

pub(crate) proof fn lemma_globals(n: nat)
    ensures
        expected_below(n).len() >= 2,
        expected_below(n)[0] == expected_below(0)[0],
        expected_below(n)[1] == expected_below(0)[1],
    decreases n,
{
    if n > 0 {
        lemma_globals((n - 1) as nat);
    }
}

proof fn lemma_global_names(i: int, l: int, suffix: Seq<char>)
    requires
        0 <= i < 2,
    ensures
        expected_below(0)[i].0 != layer_name(l, suffix),
        expected_below(0)[0].0 != expected_below(0)[1].0,
{
    reveal_strlit("token_embd.weight");
    reveal_strlit("token_embd_norm.weight");
    assert(layer_name(l, suffix)[0] == 'b');
    assert(expected_below(0)[i].0[0] == 't');
    assert(expected_below(0)[0].0.len() == 17);
    assert(expected_below(0)[1].0.len() == 22);
}

proof fn lemma_unique_below(n: nat, x: int, y: int)
    requires
        0 <= x < y < expected_below(n).len(),
    ensures
        expected_below(n)[x].0 != expected_below(n)[y].0,
    decreases n,
{
    lemma_global_names(0, 0, Seq::empty());
    if n > 0 {
        let before = expected_below((n - 1) as nat);
        let m = before.len();
        if y < m {
            lemma_unique_below((n - 1) as nat, x, y);
        } else {
            let sy = layer_tensors(n - 1)[y - m].0;
            assert(expected_below(n)[y].0 == layer_name(n - 1, sy));
            if x >= m {
                let sx = layer_tensors(n - 1)[x - m].0;
                assert(expected_below(n)[x].0 == layer_name(n - 1, sx));
                lemma_suffixes_differ(n - 1, x - m, y - m);
                if expected_below(n)[x].0 == expected_below(n)[y].0 {
                    layer_names_are_injective(n - 1, sx, n - 1, sy);
                }
            } else {
                lemma_origin((n - 1) as nat, x);
                assert(expected_below(n)[x] == before[x]);
                if x < 2 {
                    lemma_global_names(x, n - 1, sy);
                } else {
                    let (l, j) = choose|l: int, j: int|
                        0 <= l < n - 1 && 0 <= j < layer_tensors(l).len() && before[x]
                            == #[trigger] named(l)[j];
                    if expected_below(n)[x].0 == expected_below(n)[y].0 {
                        layer_names_are_injective(l, layer_tensors(l)[j].0, n - 1, sy);
                    }
                }
            }
        }
    }
}

/// No two of the expected tensors share a name.
pub proof fn expected_names_are_unique()
    ensures
        forall|x: int, y: int|
            0 <= x < y < expected().len() ==> (#[trigger] expected()[x]).0 != (
            #[trigger] expected()[y]).0,
{
    assert forall|x: int, y: int| 0 <= x < y < expected().len() implies (
    #[trigger] expected()[x]).0 != (#[trigger] expected()[y]).0 by {
        lemma_unique_below(N_LAYERS as nat, x, y);
    }
}

/// The tensors of the first `n` layers and those outside the layers, counted.
pub open spec fn tensor_count(n: nat) -> nat
    decreases n,
{
    if n == 0 {
        2
    } else {
        let operator: nat = if attention_layer(n - 1) {
            6
        } else {
            3
        };
        let ffn: nat = if dense_layer(n - 1) {
            3
        } else {
            5
        };
        tensor_count((n - 1) as nat) + 2 + operator + ffn
    }
}

proof fn lemma_count(n: nat)
    ensures
        expected_below(n).len() == tensor_count(n),
    decreases n,
{
    if n > 0 {
        lemma_count((n - 1) as nat);
    }
}

/// The forward pass needs 256 tensors.
pub proof fn expected_count()
    ensures
        expected().len() == 256,
{
    lemma_count(N_LAYERS as nat);
    reveal_with_fuel(tensor_count, 25);
}

/// Every tensor of every layer is expected.
pub proof fn layer_tensors_are_expected(l: int, j: int) -> (i: int)
    requires
        0 <= l < N_LAYERS,
        0 <= j < layer_tensors(l).len(),
    ensures
        0 <= i < expected().len(),
        expected()[i] == (layer_name(l, layer_tensors(l)[j].0), layer_tensors(l)[j].1),
{
    lemma_layer_below(N_LAYERS as nat, l, j)
}

proof fn lemma_layer_below(n: nat, l: int, j: int) -> (i: int)
    requires
        0 <= l < n,
        0 <= j < layer_tensors(l).len(),
    ensures
        0 <= i < expected_below(n).len(),
        expected_below(n)[i] == named(l)[j],
    decreases n,
{
    let before = expected_below((n - 1) as nat);
    if l == n - 1 {
        (before.len() + j) as int
    } else {
        lemma_layer_below((n - 1) as nat, l, j)
    }
}

} // verus!
