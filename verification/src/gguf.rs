//! The weights file: its tensors and where their bytes are.
//!
//! Reading the file is not done here; a [`GgufFile`] holds what was read.
use crate::tensor::{block_bytes, block_elems, row_bytes, supported, GgmlType};
use vstd::prelude::*;

verus! {

/// Name, shape, storage type and place of one tensor.
pub struct TensorInfo {
    /// The tensor's name.
    pub name: String,
    /// Its dims, fastest first.
    pub dims: Vec<u64>,
    /// How its weights are stored.
    pub ggml_type: GgmlType,
    /// Where its bytes start in the data of the file.
    pub offset: u64,
}

/// An opened weights file: what its metadata say of the model, its tensor table, and the
/// data that the tensors point into.
pub struct GgufFile<'a> {
    /// The architecture's name, in bytes, if the metadata have it.
    pub architecture: Option<Vec<u8>>,
    /// The number of key/value heads per layer, zero for layers without attention, if the
    /// metadata have it.
    pub head_count_kv: Option<Vec<u32>>,
    /// The tensors in file order.
    pub tensors: Vec<TensorInfo>,
    /// The data part of the file.
    pub data: &'a [u8],
}

/// The product of the dims from `from` on.
pub open spec fn dims_product(dims: Seq<u64>, from: int) -> int
    decreases dims.len() - from,
{
    if from < 0 || from >= dims.len() {
        1
    } else {
        dims[from] * dims_product(dims, from + 1)
    }
}

/// The bytes of a tensor: one row of `dims[0]` weights per index of the other dims.
pub open spec fn tensor_bytes(dtype: GgmlType, dims: Seq<u64>) -> int {
    dims_product(dims, 1) * row_bytes(dtype, dims[0] as int)
}

proof fn lemma_dims_product(dims: Seq<u64>, from: int)
    ensures
        dims_product(dims, from) >= 0,
        (exists|i: int| from <= i < dims.len() && 0 <= from && dims[i] == 0) ==> dims_product(
            dims,
            from,
        ) == 0,
        (forall|i: int| from <= i < dims.len() ==> dims[i] != 0) ==> dims_product(dims, from) >= 1,
    decreases dims.len() - from,
{
    if 0 <= from < dims.len() {
        lemma_dims_product(dims, from + 1);
        let d = dims[from] as int;
        let p = dims_product(dims, from + 1);
        assert(p >= 0 && d >= 0 ==> d * p >= 0) by (nonlinear_arith);
        assert(p >= 1 && d >= 1 ==> d * p >= 1) by (nonlinear_arith);
        assert(p == 0 || d == 0 ==> d * p == 0) by (nonlinear_arith);
        if exists|i: int| from <= i < dims.len() && dims[i] == 0 {
            let i = choose|i: int| from <= i < dims.len() && dims[i] == 0;
            if i > from {
                assert(from + 1 <= i < dims.len() && dims[i] == 0);
            }
        }
    }
}

/// `a` times the product of the dims from `from` on, unless that exceeds `u64`.
fn times_dims(a: u64, dims: &[u64], from: usize) -> (r: Option<u64>)
    ensures
        r is Some <==> a * dims_product(dims@, from as int) <= u64::MAX,
        r matches Some(v) ==> v == a * dims_product(dims@, from as int),
{
    let n: usize = dims.len();
    let mut j: usize = from;
    let mut zero: bool = a == 0;
    while j < n
        invariant
            n == dims@.len(),
            from <= j,
            zero ==> a == 0 || exists|i: int| from <= i < dims@.len() && dims@[i] == 0,
            !zero ==> a != 0 && forall|i: int| from <= i < j && i < n ==> dims@[i] != 0,
        decreases n - j,
    {
        if dims[j] == 0 {
            assert(dims@[j as int] == 0);
            zero = true;
        }
        j += 1;
    }
    if zero {
        proof {
            lemma_dims_product(dims@, from as int);
            assert(a * dims_product(dims@, from as int) == 0) by (nonlinear_arith)
                requires
                    a == 0 || dims_product(dims@, from as int) == 0,
            ;
        }
        return Some(0);
    }
    let mut acc: u64 = a;
    j = from;
    while j < n
        invariant
            n == dims@.len(),
            from <= j,
            acc != 0,
            forall|i: int| from <= i < n ==> dims@[i] != 0,
            acc * dims_product(dims@, j as int) == a * dims_product(dims@, from as int),
        decreases n - j,
    {
        proof {
            lemma_dims_product(dims@, j + 1);
            let p = dims_product(dims@, j + 1);
            let d = dims@[j as int];
            assert(acc * (d * p) == (acc * d) * p && (acc * d) * p >= acc * d && acc * d != 0)
                by (nonlinear_arith)
                requires
                    acc > 0,
                    d > 0,
                    p >= 1,
            ;
        }
        match acc.checked_mul(dims[j]) {
            Some(v) => {
                acc = v;
            },
            None => {
                return None;
            },
        }
        j += 1;
    }
    assert(acc * 1 == acc);
    Some(acc)
}

impl TensorInfo {
    /// The storage type is supported and rows are whole blocks.
    pub open spec fn well_formed(&self) -> bool {
        &&& supported(self.ggml_type)
        &&& self.dims@.len() > 0
        &&& self.dims@[0] as int % block_elems(self.ggml_type) == 0
    }

    /// The number of weights.
    pub open spec fn elements(&self) -> int {
        dims_product(self.dims@, 0)
    }

    /// The number of bytes the tensor takes.
    pub open spec fn bytes(&self) -> int {
        tensor_bytes(self.ggml_type, self.dims@)
    }

    /// The number of weights, unless it exceeds `u64`.
    pub fn n_elements(&self) -> (r: Option<u64>)
        ensures
            r is Some <==> self.elements() <= u64::MAX,
            r matches Some(v) ==> v == self.elements(),
    {
        assert(1 * dims_product(self.dims@, 0) == dims_product(self.dims@, 0));
        times_dims(1, self.dims.as_slice(), 0)
    }

    /// The number of bytes the tensor takes, where it is well formed and that fits `u64`.
    pub fn byte_len(&self) -> (r: Option<u64>)
        ensures
            r is Some <==> self.well_formed() && self.bytes() <= u64::MAX,
            r matches Some(v) ==> v == self.bytes(),
    {
        if self.dims.len() == 0 {
            return None;
        }
        match self.ggml_type.block() {
            None => None,
            Some((elems, bytes)) => {
                let d: u64 = self.dims[0];
                if d % elems != 0 {
                    return None;
                }
                let rest = times_dims(1, self.dims.as_slice(), 1);
                let ghost p = dims_product(self.dims@, 1);
                let ghost rb = row_bytes(self.ggml_type, d as int);
                proof {
                    lemma_dims_product(self.dims@, 1);
                    assert(1 * p == p);
                    assert(p * rb == (p * (d / elems)) * bytes) by (nonlinear_arith)
                        requires
                            rb == (d / elems) * bytes,
                    ;
                }
                if d / elems == 0 {
                    assert(p * rb == 0) by (nonlinear_arith)
                        requires
                            rb == 0,
                    ;
                    return Some(0);
                }
                assert(p * rb >= p) by (nonlinear_arith)
                    requires
                        p >= 0,
                        rb >= 1,
                ;
                match rest {
                    None => None,
                    Some(n) => {
                        assert(n * (d / elems) <= p * rb) by (nonlinear_arith)
                            requires
                                n == p,
                                p >= 0,
                                rb >= d / elems,
                        ;
                        match n.checked_mul(d / elems) {
                            None => None,
                            Some(blocks) => blocks.checked_mul(bytes),
                        }
                    },
                }
            },
        }
    }
}

/// The last tensor among the first `n` with the given name.
pub open spec fn find_last(tensors: Seq<TensorInfo>, name: Seq<char>, n: nat) -> Option<TensorInfo>
    decreases n,
{
    if n == 0 {
        None
    } else if tensors[n - 1].name@ == name {
        Some(tensors[n - 1])
    } else {
        find_last(tensors, name, (n - 1) as nat)
    }
}

impl<'a> GgufFile<'a> {
    /// The tensor of a name; where the table names it twice, the later entry.
    pub open spec fn lookup(&self, name: Seq<char>) -> Option<TensorInfo> {
        find_last(self.tensors@, name, self.tensors@.len())
    }

    /// The tensor's bytes lie inside the data.
    pub open spec fn holds(&self, t: &TensorInfo) -> bool {
        &&& t.well_formed()
        &&& t.offset + t.bytes() <= self.data@.len()
    }

    /// The bytes of a tensor that the data holds.
    pub open spec fn bytes_of(&self, t: &TensorInfo) -> Seq<u8> {
        self.data@.subrange(t.offset as int, t.offset + t.bytes())
    }

    /// The tensor of a name; where the table names it twice, the later entry.
    pub fn find(&self, name: &str) -> (r: Option<&TensorInfo>)
        ensures
            r is Some <==> self.lookup(name@) is Some,
            r matches Some(t) ==> *t == self.lookup(name@).unwrap(),
    {
        let wanted: String = name.to_owned();
        let mut i: usize = self.tensors.len();
        while i > 0
            invariant
                wanted@ == name@,
                i <= self.tensors@.len(),
                self.lookup(name@) == find_last(self.tensors@, name@, i as nat),
            decreases i,
        {
            if self.tensors[i - 1].name == wanted {
                return Some(&self.tensors[i - 1]);
            }
            i -= 1;
        }
        None
    }

    /// Whether the tensor's bytes lie inside the data.
    pub fn is_held(&self, t: &TensorInfo) -> (r: bool)
        ensures
            r == self.holds(t),
    {
        let have: u64 = self.data.len() as u64;
        match t.byte_len() {
            None => false,
            Some(n) => t.offset <= have && n <= have - t.offset,
        }
    }

    /// The bytes of a tensor that the data holds.
    pub fn tensor_data(&self, t: &TensorInfo) -> (r: &'a [u8])
        requires
            self.holds(t),
        ensures
            r@ == self.bytes_of(t),
    {
        let have: usize = self.data.len();
        let n: u64 = match t.byte_len() {
            Some(n) => n,
            None => 0,
        };
        proof {
            lemma_bytes_nonnegative(t);
        }
        let at: usize = t.offset as usize;
        &self.data[at..at + n as usize]
    }
}

proof fn lemma_bytes_nonnegative(t: &TensorInfo)
    requires
        t.well_formed(),
    ensures
        t.bytes() >= 0,
{
    lemma_dims_product(t.dims@, 1);
    let rb = row_bytes(t.ggml_type, t.dims@[0] as int);
    assert(rb >= 0) by (nonlinear_arith)
        requires
            rb == (t.dims@[0] as int / block_elems(t.ggml_type)) * block_bytes(t.ggml_type),
            t.dims@[0] as int / block_elems(t.ggml_type) >= 0,
            block_bytes(t.ggml_type) >= 0,
    ;
    assert(dims_product(t.dims@, 1) * rb >= 0) by (nonlinear_arith)
        requires
            dims_product(t.dims@, 1) >= 0,
            rb >= 0,
    ;
}

proof fn lemma_find_last(tensors: Seq<TensorInfo>, name: Seq<char>, n: nat, i: int)
    requires
        i < n <= tensors.len(),
        forall|j: int| i < j < n ==> (#[trigger] tensors[j]).name@ != name,
        0 <= i ==> tensors[i].name@ == name,
        -1 <= i,
    ensures
        find_last(tensors, name, n) == if i < 0 {
            None
        } else {
            Some(tensors[i])
        },
    decreases n,
{
    if i < n - 1 {
        assert(tensors[n - 1].name@ != name);
        if n > 1 {
            lemma_find_last(tensors, name, (n - 1) as nat, i);
        } else {
            reveal_with_fuel(find_last, 2);
        }
    }
}

/// A name finds the last tensor that has it: entry `i`, if it has the name and none after it
/// does.
pub proof fn a_name_finds_its_last_entry(file: GgufFile, name: Seq<char>, i: int)
    requires
        0 <= i < file.tensors@.len(),
        file.tensors@[i].name@ == name,
        forall|j: int|
            i < j < file.tensors@.len() ==> (#[trigger] file.tensors@[j]).name@ != name,
    ensures
        file.lookup(name) == Some(file.tensors@[i]),
{
    lemma_find_last(file.tensors@, name, file.tensors@.len(), i);
}

/// A name that no tensor has finds nothing.
pub proof fn an_unknown_name_finds_nothing(file: GgufFile, name: Seq<char>)
    requires
        forall|j: int|
            0 <= j < file.tensors@.len() ==> (#[trigger] file.tensors@[j]).name@ != name,
    ensures
        file.lookup(name) is None,
{
    if file.tensors@.len() > 0 {
        lemma_find_last(file.tensors@, name, file.tensors@.len(), -1);
    }
}

} // verus!
