//! The model: its weights, checked at loading, and the forward pass over them.
pub mod causal;
pub mod continuation;
pub mod dataflow;
pub mod forward;
pub mod generate;
pub mod layers;
pub mod mixture;
pub mod moe;
pub mod stream;
pub mod tensors;

pub use crate::model::tensors::expected_tensors;

use crate::config::{matches_constants, mismatch, validate, ConfigError};
use crate::gguf::{GgufFile, TensorInfo};
use crate::model::tensors::{entries, expected};
use crate::text::{list_text, push_list};
use vstd::prelude::*;
use vstd::string::StringExecFns;

verus! {

/// A loaded model: a weights file that has every tensor the forward pass needs.
pub struct Model<'a> {
    gguf: GgufFile<'a>,
}

/// Why a weights file was not accepted.
pub enum LoadError {
    /// The metadata do not match the constants of the model.
    Config(ConfigError),
    /// A tensor is missing.
    Missing {
        /// Its name.
        name: String,
    },
    /// A tensor has the wrong shape.
    Shape {
        /// Its name.
        name: String,
        /// The shape in the file.
        found: Vec<u64>,
        /// The shape that was expected.
        expected: Vec<u64>,
    },
}

/// The file has a tensor of the given name and shape.
pub open spec fn has_tensor(file: GgufFile, e: (Seq<char>, Seq<u64>)) -> bool {
    file.lookup(e.0) is Some && file.lookup(e.0).unwrap().dims@ == e.1
}

/// The first expected tensor from index `i` on that the file does not have.
pub open spec fn first_misfit(file: GgufFile, i: int) -> Option<int>
    decreases expected().len() - i,
{
    if i >= expected().len() {
        None
    } else if !has_tensor(file, expected()[i]) {
        Some(i)
    } else {
        first_misfit(file, i + 1)
    }
}

/// The file has a tensor of the given name and shape, and its bytes.
pub open spec fn provides(file: GgufFile, name: Seq<char>, dims: Seq<u64>) -> bool {
    &&& has_tensor(file, (name, dims))
    &&& file.holds(&file.lookup(name).unwrap())
}

/// The file provides every expected tensor, so the forward pass can run.
pub open spec fn runnable(file: GgufFile) -> bool {
    forall|i: int|
        0 <= i < expected().len() ==> provides(
            file,
            (#[trigger] expected()[i]).0,
            expected()[i].1,
        )
}

impl LoadError {
    /// The error says what is wrong with the expected tensor `e`.
    pub open spec fn reports(&self, file: GgufFile, e: (Seq<char>, Seq<u64>)) -> bool {
        match self {
            LoadError::Config(_) => false,
            LoadError::Missing { name } => name@ == e.0 && file.lookup(e.0) is None,
            LoadError::Shape { name, found, expected } => {
                &&& name@ == e.0
                &&& expected@ == e.1
                &&& file.lookup(e.0) is Some
                &&& found@ == file.lookup(e.0).unwrap().dims@
                &&& found@ != expected@
            },
        }
    }

    /// The error in words.
    pub open spec fn text(&self) -> Seq<char> {
        match self {
            LoadError::Config(e) => e.text(),
            LoadError::Missing { name } => "missing tensor "@ + name@,
            LoadError::Shape { name, found, expected } => "tensor "@ + name@ + ": shape "@
                + list_text(found@) + " != expected "@ + list_text(expected@),
        }
    }

    /// The error in words.
    pub fn message(&self) -> (r: String)
        ensures
            r@ == self.text(),
    {
        let mut s: String = String::new();
        match self {
            LoadError::Config(e) => {
                return e.message();
            },
            LoadError::Missing { name } => {
                s.append("missing tensor ");
                s.append(name.as_str());
            },
            LoadError::Shape { name, found, expected } => {
                s.append("tensor ");
                s.append(name.as_str());
                s.append(": shape ");
                push_list(&mut s, found.as_slice());
                s.append(" != expected ");
                push_list(&mut s, expected.as_slice());
            },
        }
        assert(s@ =~= self.text());
        s
    }
}

/// Whether two shapes are the same.
fn same_dims(a: &[u64], b: &[u64]) -> (r: bool)
    ensures
        r == (a@ == b@),
{
    if a.len() != b.len() {
        return false;
    }
    let mut i: usize = 0;
    while i < a.len()
        invariant
            a@.len() == b@.len(),
            i <= a@.len(),
            forall|j: int| 0 <= j < i ==> a@[j] == b@[j],
        decreases a@.len() - i,
    {
        if a[i] != b[i] {
            assert(a@[i as int] != b@[i as int]);
            return false;
        }
        i += 1;
    }
    assert(a@ =~= b@);
    true
}

impl<'a> Model<'a> {
    /// The weights file.
    pub closed spec fn file(&self) -> GgufFile<'a> {
        self.gguf
    }

    /// Checks that the metadata match the constants, and then that every expected tensor is
    /// present with its shape; the first failure is reported.
    pub fn load(gguf: GgufFile<'a>) -> (r: Result<Model<'a>, LoadError>)
        ensures
            r is Ok <==> matches_constants(gguf) && first_misfit(gguf, 0) is None,
            r matches Ok(m) ==> m.file() == gguf,
            r matches Err(e) ==> if matches_constants(gguf) {
                e.reports(gguf, expected()[first_misfit(gguf, 0).unwrap()])
            } else {
                e == LoadError::Config(mismatch(gguf))
            },
    {
        if let Err(e) = validate(&gguf) {
            return Err(LoadError::Config(e));
        }
        let model = Model { gguf };
        match model.check_tensors() {
            Ok(_) => Ok(model),
            Err(e) => Err(e),
        }
    }

    /// A tensor's metadata by name.
    pub fn tensor(&self, name: &str) -> (r: Option<&TensorInfo>)
        ensures
            r is Some <==> self.file().lookup(name@) is Some,
            r matches Some(t) ==> *t == self.file().lookup(name@).unwrap(),
    {
        self.gguf.find(name)
    }

    /// The raw (still quantized) bytes of a tensor.
    pub fn data(&self, t: &TensorInfo) -> (r: &'a [u8])
        requires
            self.file().holds(t),
        ensures
            r@ == self.file().bytes_of(t),
    {
        self.gguf.tensor_data(t)
    }

    /// Whether the forward pass can run: the bytes of every expected tensor are there, in a
    /// storage type that can be decoded.
    pub fn is_runnable(&self) -> (r: bool)
        ensures
            r == runnable(self.file()),
    {
        let want: Vec<(String, Vec<u64>)> = expected_tensors();
        let mut i: usize = 0;
        while i < want.len()
            invariant
                entries(want@) == expected(),
                i <= want@.len(),
                forall|j: int|
                    0 <= j < i ==> provides(
                        self.file(),
                        (#[trigger] expected()[j]).0,
                        expected()[j].1,
                    ),
            decreases want@.len() - i,
        {
            assert(entries(want@)[i as int] == expected()[i as int]);
            match self.tensor(want[i].0.as_str()) {
                None => {
                    return false;
                },
                Some(t) => {
                    if !same_dims(t.dims.as_slice(), want[i].1.as_slice())
                        || !self.gguf.is_held(t) {
                        return false;
                    }
                },
            }
            i += 1;
        }
        assert(want@.len() == entries(want@).len());
        true
    }

    /// Checks that every tensor the forward pass will need exists with the expected shape.
    fn check_tensors(&self) -> (r: Result<(), LoadError>)
        ensures
            r is Ok <==> first_misfit(self.file(), 0) is None,
            r matches Err(e) ==> e.reports(
                self.file(),
                expected()[first_misfit(self.file(), 0).unwrap()],
            ),
    {
        let want: Vec<(String, Vec<u64>)> = expected_tensors();
        let mut i: usize = 0;
        while i < want.len()
            invariant
                entries(want@) == expected(),
                i <= want@.len(),
                first_misfit(self.file(), 0) == first_misfit(self.file(), i as int),
            decreases want@.len() - i,
        {
            assert(entries(want@)[i as int] == expected()[i as int]);
            assert(want@.len() == entries(want@).len());
            let name: &String = &want[i].0;
            let dims: &Vec<u64> = &want[i].1;
            match self.tensor(name.as_str()) {
                None => {
                    return Err(LoadError::Missing { name: name.clone() });
                },
                Some(t) => {
                    if !same_dims(t.dims.as_slice(), dims.as_slice()) {
                        let found: Vec<u64> = t.dims.clone();
                        let expected: Vec<u64> = dims.clone();
                        assert(found@ =~= t.dims@);
                        assert(expected@ =~= dims@);
                        return Err(LoadError::Shape { name: name.clone(), found, expected });
                    }
                },
            }
            i += 1;
        }
        assert(want@.len() == entries(want@).len());
        Ok(())
    }
}

/// A file with matching metadata is accepted if and only if it has every expected tensor.
pub proof fn accepted_means_complete(file: GgufFile)
    ensures
        first_misfit(file, 0) is None <==> forall|i: int|
            0 <= i < expected().len() ==> has_tensor(file, #[trigger] expected()[i]),
{
    lemma_misfit(file, 0);
}

proof fn lemma_misfit(file: GgufFile, i: int)
    requires
        0 <= i,
    ensures
        first_misfit(file, i) is None <==> forall|j: int|
            i <= j < expected().len() ==> has_tensor(file, #[trigger] expected()[j]),
        first_misfit(file, i) matches Some(m) ==> i <= m < expected().len() && !has_tensor(
            file,
            expected()[m],
        ),
    decreases expected().len() - i,
{
    if i < expected().len() {
        lemma_misfit(file, i + 1);
    }
}

/// The tensor that is reported is the first that does not fit: all expected before it are
/// there.
pub proof fn the_first_misfit_comes_first(file: GgufFile, m: int)
    requires
        first_misfit(file, 0) == Some(m),
    ensures
        0 <= m < expected().len(),
        !has_tensor(file, expected()[m]),
        forall|j: int| 0 <= j < m ==> has_tensor(file, #[trigger] expected()[j]),
{
    lemma_misfit(file, 0);
    lemma_fits_before(file, 0, m);
}

proof fn lemma_fits_before(file: GgufFile, i: int, m: int)
    requires
        0 <= i,
        first_misfit(file, i) == Some(m),
    ensures
        forall|j: int| i <= j < m ==> has_tensor(file, #[trigger] expected()[j]),
    decreases expected().len() - i,
{
    if i < expected().len() && has_tensor(file, expected()[i]) {
        lemma_fits_before(file, i + 1, m);
    }
}

} // verus!
