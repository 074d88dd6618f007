//! Decode-time state: the keys and values of attention layers, and the columns that the
//! short convolutions look back at.
//!
//! Everything is indexed by layer number; only the slots of the layer's kind are used. The
//! keys and values grow by one position per token; a convolution keeps the last
//! `CONV_L_CACHE − 1` columns.
use crate::config::{attention_layer, CONV_L_CACHE, HIDDEN, KV_DIM, N_LAYERS};
use crate::kernels::conv::state_before;
use crate::scalar::{filled, Scalar};
use vstd::prelude::*;

verus! {

/// The state of one conversation.
pub struct Cache<T> {
    /// Per attention layer: the keys so far, `KV_DIM` values per position.
    pub k: Vec<Vec<T>>,
    /// Per attention layer: the values so far.
    pub v: Vec<Vec<T>>,
    /// Per convolution layer: the last `CONV_L_CACHE − 1` columns, oldest first, `HIDDEN`
    /// values each.
    pub conv: Vec<Vec<T>>,
    /// Number of tokens processed so far (the next token's position).
    pub pos: usize,
}

/// The columns before the first position: all zero.
pub open spec fn no_columns<T: Scalar>() -> Seq<T> {
    Seq::new((HIDDEN * (CONV_L_CACHE - 1)) as nat, |i: int| T::zero_spec())
}

impl<T: Scalar> Cache<T> {
    /// Every layer has its slots, and they have the size that the position asks for.
    pub open spec fn well_formed(&self) -> bool {
        &&& self.k@.len() == N_LAYERS
        &&& self.v@.len() == N_LAYERS
        &&& self.conv@.len() == N_LAYERS
        &&& forall|l: int|
            0 <= l < N_LAYERS && attention_layer(l) ==> (#[trigger] self.k@[l])@.len() == self.pos
                * KV_DIM
        &&& forall|l: int|
            0 <= l < N_LAYERS && attention_layer(l) ==> (#[trigger] self.v@[l])@.len() == self.pos
                * KV_DIM
        &&& forall|l: int|
            0 <= l < N_LAYERS ==> (#[trigger] self.conv@[l])@.len() == HIDDEN * (CONV_L_CACHE - 1)
    }

    /// No token has been processed: no keys, no values, zero columns.
    pub open spec fn is_new(&self) -> bool {
        &&& self.pos == 0
        &&& self.k@.len() == N_LAYERS
        &&& self.v@.len() == N_LAYERS
        &&& self.conv@.len() == N_LAYERS
        &&& forall|l: int| 0 <= l < N_LAYERS ==> (#[trigger] self.k@[l])@ == Seq::<T>::empty()
        &&& forall|l: int| 0 <= l < N_LAYERS ==> (#[trigger] self.v@[l])@ == Seq::<T>::empty()
        &&& forall|l: int| 0 <= l < N_LAYERS ==> (#[trigger] self.conv@[l])@ == no_columns::<T>()
    }

    /// The state before the first token.
    pub fn new() -> (r: Self)
        ensures
            r.is_new(),
            r.well_formed(),
    {
        let mut k: Vec<Vec<T>> = Vec::new();
        let mut v: Vec<Vec<T>> = Vec::new();
        let mut conv: Vec<Vec<T>> = Vec::new();
        while k.len() < N_LAYERS
            invariant
                k@.len() <= N_LAYERS,
                v@.len() == k@.len(),
                conv@.len() == k@.len(),
                forall|l: int| 0 <= l < k@.len() ==> (#[trigger] k@[l])@ == Seq::<T>::empty(),
                forall|l: int| 0 <= l < v@.len() ==> (#[trigger] v@[l])@ == Seq::<T>::empty(),
                forall|l: int| 0 <= l < conv@.len() ==> (#[trigger] conv@[l])@ == no_columns::<T>(),
            decreases N_LAYERS - k@.len(),
        {
            k.push(Vec::new());
            v.push(Vec::new());
            let zeros: Vec<T> = filled(T::zero(), HIDDEN * (CONV_L_CACHE - 1));
            assert(zeros@ =~= no_columns::<T>());
            conv.push(zeros);
        }
        let r = Cache { k, v, conv, pos: 0 };
        assert(0 * KV_DIM == 0);
        r
    }
}

impl<T: Scalar> Default for Cache<T> {
    fn default() -> (r: Self)
        ensures
            r.is_new(),
            r.well_formed(),
    {
        Self::new()
    }
}

/// The columns of a new cache are those that a decode step at the first position looks back
/// at, whatever the sequence.
pub proof fn new_columns_precede_the_sequence<T: Scalar>(cache: Cache<T>, bx: Seq<T>, l: int)
    requires
        cache.is_new(),
        0 <= l < N_LAYERS,
    ensures
        cache.conv@[l]@ == state_before(bx, HIDDEN as int, CONV_L_CACHE as int, 0),
{
    let s = state_before(bx, HIDDEN as int, CONV_L_CACHE as int, 0);
    assert((CONV_L_CACHE - 1) * HIDDEN == 4096 && HIDDEN * (CONV_L_CACHE - 1) == 4096)
        by (nonlinear_arith)
        requires
            CONV_L_CACHE == 3,
            HIDDEN == 2048,
    ;
    assert forall|i: int| 0 <= i < s.len() implies #[trigger] s[i] == T::zero_spec() by {
        assert(i / 2048 < 2);
    }
    assert(cache.conv@[l]@ =~= s);
}

} // verus!
