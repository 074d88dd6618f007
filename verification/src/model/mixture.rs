//! What the mixture of experts mixes.
//!
//! The experts of a token are chosen by rank and visited best first. What counts is neither:
//! each expert is there or not, with its own weight. The laws here are written by expert.
use crate::algebra::{adds_freely, lemma_add_zero};
use crate::config::{HIDDEN, N_EXPERTS};
use crate::gguf::{dims_product, GgufFile};
use crate::kernels::activation::swiglu_spec;
use crate::kernels::attending::{keeps_units, lemma_lone_summand, lemma_sum_remove};
use crate::kernels::matmul::{matvec_at, row_product};
use crate::layout::{lemma_flat_index, row};
use crate::model::dataflow::switched;
use crate::model::layers::{decoded, project};
use crate::model::moe::{
    chosen, chosen_scores, expert, expert_ffn, expert_stride, mixed, moe_ffn_spec, moe_token_spec,
    route_keys, route_weights, router_scores,
};
use crate::model::provides;
use crate::model::tensors::layer_name;
use crate::scalar::{sum, Scalar};
use crate::select::{ranks_before, top, top_ranks_first};
use crate::tensor::{lemma_row_bytes, row_bytes};
use vstd::prelude::*;

verus! {

/// The indices that rank before `e`: their key is larger, or the same and they are further
/// left.
pub open spec fn outrankers(keys: Seq<i64>, e: int) -> Set<usize> {
    Set::new(
        |j: usize|
            j < keys.len() && (keys[j as int] > keys[e] || (keys[j as int] == keys[e] && j < e)),
    )
}

/// An index is among the first `k` if and only if fewer than `k` rank before it.
pub proof fn top_is_outranked_by_few(keys: Seq<i64>, k: nat, e: usize)
    requires
        k <= keys.len() <= usize::MAX,
        e < keys.len(),
    ensures
        outrankers(keys, e as int).finite(),
        top(keys, k).contains(e) <==> outrankers(keys, e as int).len() < k,
{
    top_ranks_first(keys, k);
    let t = top(keys, k);
    let larger = outrankers(keys, e as int);
    let all = Seq::new(keys.len(), |i: int| i as usize);
    assert(larger.subset_of(all.to_set())) by {
        assert forall|j: usize| larger.contains(j) implies all.to_set().contains(j) by {
            assert(all[j as int] == j);
        }
    }
    vstd::set_lib::lemma_set_subset_finite(all.to_set(), larger);
    if t.contains(e) {
        let m = choose|m: int| 0 <= m < t.len() && t[m] == e;
        let before = t.subrange(0, m);
        assert(larger.subset_of(before.to_set())) by {
            assert forall|j: usize| larger.contains(j) implies before.to_set().contains(j) by {
                if !t.contains(j) {
                    assert(ranks_before(keys, t[m] as int, j as int));
                }
                let i = choose|i: int| 0 <= i < t.len() && t[i] == j;
                if i > m {
                    assert(ranks_before(keys, t[m] as int, t[i] as int));
                }
                assert(i < m);
                assert(before[i] == j);
            }
        }
        before.lemma_cardinality_of_set();
        vstd::set_lib::lemma_len_subset(larger, before.to_set());
    } else {
        assert(t.to_set().subset_of(larger)) by {
            assert forall|j: usize| t.to_set().contains(j) implies larger.contains(j) by {
                let i = choose|i: int| 0 <= i < t.len() && t[i] == j;
                assert(ranks_before(keys, t[i] as int, e as int));
            }
        }
        t.unique_seq_to_set();
        vstd::set_lib::lemma_len_subset(t.to_set(), larger);
    }
}

/// The router's score of expert `e` for a token: the sigmoid of its product.
pub open spec fn score<T: Scalar>(file: GgufFile, layer: int, x: Seq<T>, e: int) -> T {
    T::from_i32_spec(1).div_spec(
        T::from_i32_spec(1).add_spec(
            T::zero_spec().sub_spec(
                project(file, layer_name(layer, "ffn_gate_inp.weight"@), x, 32)[e],
            ).exp_spec(),
        ),
    )
}

/// The token is routed to expert `e`: fewer than four experts have a larger sum of score and
/// bias, or the same further left.
pub open spec fn is_routed<T: Scalar>(file: GgufFile, layer: int, x: Seq<T>, e: int) -> bool {
    outrankers(
        Seq::new(
            32,
            |i: int|
                score(file, layer, x, i).add_spec(
                    decoded::<T>(file, layer_name(layer, "exp_probs_b.bias"@))[i],
                ).key_spec(),
        ),
        e,
    ).len() < 4
}

/// The scores of the experts that the token is routed to, added up, plus `1e-6`.
pub open spec fn score_total<T: Scalar>(file: GgufFile, layer: int, x: Seq<T>) -> T {
    sum(
        Seq::new(
            32,
            |e: int|
                if is_routed(file, layer, x, e) {
                    score(file, layer, x, e)
                } else {
                    T::zero_spec()
                },
        ),
    ).add_spec(T::from_i32_spec(1).div_spec(T::from_i32_spec(1_000_000)))
}

proof fn lemma_sum_update<T: Scalar>(s: Seq<T>, i: int, v: T)
    requires
        adds_freely::<T>(),
        0 <= i < s.len(),
        s[i] == T::zero_spec(),
    ensures
        sum(s.update(i, v)) == sum(s).add_spec(v),
{
    lemma_sum_remove(s, i);
    lemma_sum_remove(s.update(i, v), i);
    assert(s.update(i, v).remove(i) =~= s.remove(i));
    lemma_add_zero(sum(s.remove(i)));
}

/// A sum over different indices, in any order, is the sum over all indices that are listed.
proof fn lemma_sum_by_index<T: Scalar>(sel: Seq<usize>, n: nat, f: spec_fn(int) -> T)
    requires
        adds_freely::<T>(),
        n <= usize::MAX,
        sel.no_duplicates(),
        forall|i: int| 0 <= i < sel.len() ==> (#[trigger] sel[i]) < n,
    ensures
        sum(Seq::new(sel.len(), |i: int| f(sel[i] as int))) == sum(
            Seq::new(
                n,
                |e: int|
                    if sel.contains(e as usize) {
                        f(e)
                    } else {
                        T::zero_spec()
                    },
            ),
        ),
    decreases sel.len(),
{
    let by_rank = Seq::new(sel.len(), |i: int| f(sel[i] as int));
    let by_index = Seq::new(
        n,
        |e: int|
            if sel.contains(e as usize) {
                f(e)
            } else {
                T::zero_spec()
            },
    );
    if sel.len() == 0 {
        crate::algebra::lemma_sum_zeros(by_index);
    } else {
        let r = sel.drop_last();
        let x = sel.last();
        lemma_sum_by_index(r, n, f);
        let before = Seq::new(
            n,
            |e: int|
                if r.contains(e as usize) {
                    f(e)
                } else {
                    T::zero_spec()
                },
        );
        assert(!r.contains(x)) by {
            if r.contains(x) {
                let i = choose|i: int| 0 <= i < r.len() && r[i] == x;
                assert(sel[i] == x);
            }
        }
        assert(sel[sel.len() - 1] == x);
        assert forall|e: usize| e != x implies #[trigger] r.contains(e) == sel.contains(e) by {
            if sel.contains(e) {
                let i = choose|i: int| 0 <= i < sel.len() && sel[i] == e;
                assert(r[i] == e);
            }
            if r.contains(e) {
                let i = choose|i: int| 0 <= i < r.len() && r[i] == e;
                assert(sel[i] == e);
            }
        }
        assert(by_index =~= before.update(x as int, f(x as int)));
        lemma_sum_update(before, x as int, f(x as int));
        assert(by_rank.drop_last() =~= Seq::new(r.len(), |i: int| f(r[i] as int)));
    }
}

proof fn lemma_mixed<T: Scalar>(
    file: GgufFile,
    layer: int,
    x: Seq<T>,
    sel: Seq<usize>,
    w: Seq<T>,
    n: nat,
    c: int,
)
    requires
        0 <= c < HIDDEN,
    ensures
        mixed(file, layer, x, sel, w, n).len() == HIDDEN,
        mixed(file, layer, x, sel, w, n)[c] == sum(
            Seq::new(
                n,
                |i: int| w[i].mul_spec(expert_ffn(file, layer, x, sel[i] as int)[c]),
            ),
        ),
    decreases n,
{
    if n > 0 {
        let k = (n - 1) as nat;
        lemma_mixed(file, layer, x, sel, w, k, c);
        let s = Seq::new(n, |i: int| w[i].mul_spec(expert_ffn(file, layer, x, sel[i] as int)[c]));
        assert(s.drop_last() =~= Seq::new(
            k,
            |i: int| w[i].mul_spec(expert_ffn(file, layer, x, sel[i] as int)[c]),
        ));
    }
}

/// The mixture, by expert: each expert that the token is routed to is scaled by its own
/// score, without the bias, over the total of those scores. Additions may be reordered.
pub proof fn experts_are_weighed_by_their_own_scores<T: Scalar>(
    file: GgufFile,
    layer: int,
    x: Seq<T>,
    c: int,
)
    requires
        adds_freely::<T>(),
        0 <= c < 2048,
    ensures
        moe_token_spec(file, layer, x).len() == 2048,
        moe_token_spec(file, layer, x)[c] == sum(
            Seq::new(
                32,
                |e: int|
                    if is_routed(file, layer, x, e) {
                        score(file, layer, x, e).div_spec(
                            score_total(file, layer, x),
                        ).mul_spec(expert_ffn(file, layer, x, e)[c])
                    } else {
                        T::zero_spec()
                    },
            ),
        ),
{
    let scores = router_scores(file, layer, x);
    let bias: Seq<T> = decoded(file, layer_name(layer, "exp_probs_b.bias"@));
    let sel = chosen(scores, bias);
    let w = route_weights(scores, sel);
    assert forall|e: int| 0 <= e < 32 implies #[trigger] scores[e] == score(
        file,
        layer,
        x,
        e,
    ) by {}
    let keys = Seq::new(
        32,
        |i: int|
            score(file, layer, x, i).add_spec(
                decoded::<T>(file, layer_name(layer, "exp_probs_b.bias"@))[i],
            ).key_spec(),
    );
    assert(keys =~= route_keys(scores, bias));
    top_ranks_first(keys, 4);
    assert forall|e: int| 0 <= e < 32 implies #[trigger] is_routed(file, layer, x, e)
        == sel.contains(e as usize) by {
        top_is_outranked_by_few(keys, 4, e as usize);
    }
    let total = Seq::new(
        32,
        |e: int|
            if is_routed(file, layer, x, e) {
                score(file, layer, x, e)
            } else {
                T::zero_spec()
            },
    );
    let f = |e: int| scores[e];
    lemma_sum_by_index(sel, 32, f);
    assert(chosen_scores(scores, sel) =~= Seq::new(sel.len(), |i: int| f(sel[i] as int)));
    assert(total =~= Seq::new(
        32,
        |e: int|
            if sel.contains(e as usize) {
                f(e)
            } else {
                T::zero_spec()
            },
    ));
    let denom = score_total(file, layer, x);
    let g = |e: int| scores[e].div_spec(denom).mul_spec(expert_ffn(file, layer, x, e)[c]);
    lemma_mixed(file, layer, x, sel, w, 4, c);
    lemma_sum_by_index(sel, 32, g);
    assert(Seq::new(4, |i: int| w[i].mul_spec(expert_ffn(file, layer, x, sel[i] as int)[c]))
        =~= Seq::new(sel.len(), |i: int| g(sel[i] as int)));
    assert(Seq::new(
        32,
        |e: int|
            if is_routed(file, layer, x, e) {
                score(file, layer, x, e).div_spec(score_total(file, layer, x)).mul_spec(
                    expert_ffn(file, layer, x, e)[c],
                )
            } else {
                T::zero_spec()
            },
    ) =~= Seq::new(
        32,
        |e: int|
            if sel.contains(e as usize) {
                g(e)
            } else {
                T::zero_spec()
            },
    ));
}

/// Where all other experts that the token is routed to give nothing, the mixture is the one
/// expert, scaled by its score over the total.
pub proof fn a_lone_expert_counts_by_its_score<T: Scalar>(
    file: GgufFile,
    layer: int,
    x: Seq<T>,
    c: int,
    e: int,
)
    requires
        adds_freely::<T>(),
        keeps_units::<T>(),
        0 <= c < 2048,
        0 <= e < 32,
        is_routed(file, layer, x, e),
        forall|i: int|
            0 <= i < 32 && i != e && is_routed(file, layer, x, i) ==> #[trigger] expert_ffn(
                file,
                layer,
                x,
                i,
            )[c] == T::zero_spec(),
    ensures
        moe_token_spec(file, layer, x)[c] == score(file, layer, x, e).div_spec(
            score_total(file, layer, x),
        ).mul_spec(expert_ffn(file, layer, x, e)[c]),
{
    experts_are_weighed_by_their_own_scores(file, layer, x, c);
    let s = Seq::new(
        32,
        |e: int|
            if is_routed(file, layer, x, e) {
                score(file, layer, x, e).div_spec(score_total(file, layer, x)).mul_spec(
                    expert_ffn(file, layer, x, e)[c],
                )
            } else {
                T::zero_spec()
            },
    );
    reveal(keeps_units);
    assert forall|i: int| 0 <= i < 32 && i != e implies s[i] == T::zero_spec() by {
        if is_routed(file, layer, x, i) {
            assert(expert_ffn(file, layer, x, i)[c] == T::zero_spec());
        }
    }
    lemma_lone_summand(s, e);
}

/// A token is routed by itself: the mixture of a position is that of its token alone.
pub proof fn tokens_are_mixed_one_by_one<T: Scalar>(
    file: GgufFile,
    layer: int,
    x: Seq<T>,
    seq: int,
    t: int,
    c: int,
)
    requires
        0 <= t < seq,
        0 <= c < 2048,
    ensures
        moe_ffn_spec(file, layer, x, seq)[t * 2048 + c] == moe_token_spec(
            file,
            layer,
            x.subrange(t * 2048, t * 2048 + 2048),
        )[c],
{
    lemma_flat_index(seq, 2048, t, c);
    assert((t + 1) * 2048 == t * 2048 + 2048);
}

/// The experts of a stack are its rows one after another: row `o` of expert `e` is row
/// `e·n_out + o` of the stack.
pub proof fn experts_own_consecutive_rows<T: Scalar>(
    file: GgufFile,
    name: Seq<char>,
    n_in: u64,
    n_out: u64,
    x: Seq<T>,
    e: int,
    o: int,
)
    requires
        provides(file, name, seq![n_in, n_out, N_EXPERTS as u64]),
        x.len() == n_in,
        0 <= e < N_EXPERTS,
        0 <= o < n_out,
    ensures
        expert(file, name, x, n_out as int, e).len() == n_out,
        expert(file, name, x, n_out as int, e)[o] == matvec_at(
            file.lookup(name).unwrap().ggml_type,
            file.bytes_of(&file.lookup(name).unwrap()),
            x,
            e * n_out + o,
        ),
{
    let t = file.lookup(name).unwrap();
    let bytes = file.bytes_of(&t);
    let d = seq![n_in, n_out, N_EXPERTS as u64];
    assert(t.dims@ == d);
    reveal_with_fuel(dims_product, 4);
    assert(dims_product(d, 2) == N_EXPERTS * 1);
    assert(dims_product(d, 1) == n_out * N_EXPERTS);
    lemma_row_bytes(t.ggml_type, n_in as int);
    let rb = row_bytes(t.ggml_type, n_in as int);
    let n = n_out as int;
    let stride = expert_stride(t.ggml_type, n_in as int, n);
    assert(bytes.len() == (n * N_EXPERTS) * rb);
    let part = row(bytes, stride, e);
    assert(0 <= rb);
    assert((e * n + o) * rb == e * stride + o * rb && (e * n + o + 1) * rb == e * stride + (o + 1)
        * rb && 0 <= o * rb && (o + 1) * rb <= stride && (o + 1) * rb == o * rb + rb && 0 <= e
        * stride && (e + 1) * stride == e * stride + stride && (e + 1) * stride <= (n * N_EXPERTS)
        * rb) by (nonlinear_arith)
        requires
            stride == n * rb,
            0 <= rb,
            0 <= o < n,
            0 <= e < N_EXPERTS,
    ;
    assert(part.len() == stride);
    assert(row(part, rb, o) =~= row(bytes, rb, e * n + o));
}

/// One expert, channel by channel: its gate rows switch what its up rows give, and its down
/// rows project.
pub proof fn an_expert_by_channel<T: Scalar>(
    file: GgufFile,
    layer: int,
    x: Seq<T>,
    e: int,
    y: Seq<T>,
    c: int,
)
    requires
        provides(
            file,
            layer_name(layer, "ffn_gate_exps.weight"@),
            seq![2048u64, 1792u64, N_EXPERTS as u64],
        ),
        provides(
            file,
            layer_name(layer, "ffn_up_exps.weight"@),
            seq![2048u64, 1792u64, N_EXPERTS as u64],
        ),
        provides(
            file,
            layer_name(layer, "ffn_down_exps.weight"@),
            seq![1792u64, 2048u64, N_EXPERTS as u64],
        ),
        x.len() == 2048,
        0 <= e < N_EXPERTS,
        0 <= c < 2048,
        y.len() == 1792,
        forall|i: int|
            0 <= i < 1792 ==> #[trigger] y[i] == switched(
                stack_row(file, layer_name(layer, "ffn_gate_exps.weight"@), x, e * 1792 + i),
                stack_row(file, layer_name(layer, "ffn_up_exps.weight"@), x, e * 1792 + i),
            ),
    ensures
        expert_ffn(file, layer, x, e)[c] == stack_row(
            file,
            layer_name(layer, "ffn_down_exps.weight"@),
            y,
            e * 2048 + c,
        ),
{
    let gn = layer_name(layer, "ffn_gate_exps.weight"@);
    let un = layer_name(layer, "ffn_up_exps.weight"@);
    let dn = layer_name(layer, "ffn_down_exps.weight"@);
    let gate = expert(file, gn, x, 1792, e);
    let up = expert(file, un, x, 1792, e);
    let act = swiglu_spec(gate, up);
    assert forall|i: int| 0 <= i < 1792 implies #[trigger] act[i] == y[i] by {
        experts_own_consecutive_rows(file, gn, 2048, 1792, x, e, i);
        experts_own_consecutive_rows(file, un, 2048, 1792, x, e, i);
    }
    assert(act =~= y);
    experts_own_consecutive_rows(file, dn, 1792, 2048, y, e, c);
}

/// The product of row `r` of a named stack with `x`.
pub open spec fn stack_row<T: Scalar>(file: GgufFile, name: Seq<char>, x: Seq<T>, r: int) -> T {
    let t = file.lookup(name).unwrap();
    row_product(t.ggml_type, row(file.bytes_of(&t), row_bytes(t.ggml_type, x.len() as int), r), x)
}

/// The chosen come largest first, and of equal keys the one further left.
pub proof fn top_lists_the_largest_first(keys: Seq<i64>, k: nat, a: int, b: int)
    requires
        k <= keys.len() <= usize::MAX,
        0 <= a < b < k,
    ensures
        keys[top(keys, k)[a] as int] > keys[top(keys, k)[b] as int] || (keys[top(keys, k)[a] as int]
            == keys[top(keys, k)[b] as int] && top(keys, k)[a] < top(keys, k)[b]),
{
    top_ranks_first(keys, k);
}

} // verus!
