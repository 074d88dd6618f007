//! Reading the container of a weights file.
//!
//! A file starts with the magic `GGUF`, a version, the number of tensors and the number of
//! metadata entries. The metadata follow, each a key, a type and a value; the alignment, the
//! architecture and the key/value heads per layer are kept, the others are skipped. Then
//! comes the tensor table,
//! and after padding to the alignment the data that the table points into. Numbers are
//! little-endian; a string is its length in bytes and its bytes.
use crate::gguf::{GgufFile, TensorInfo};
use crate::kernels::dequant::{le32, read_le32};
use crate::tensor::GgmlType;
use crate::text::{ascii, spells};
use vstd::prelude::*;
use vstd::utf8::{decode_utf8, valid_utf8};

verus! {

/// Why a container could not be read.
#[derive(Clone, Copy, Debug, PartialEq, Eq, Structural)]
pub enum ReadError {
    /// The file does not start with the magic.
    Magic,
    /// The version is not one of the two that have this layout.
    Version(u32),
    /// The file ends too early.
    Truncated,
    /// A metadata value has a type that does not exist.
    Type(u32),
    /// The alignment is zero.
    Alignment,
    /// The name of a tensor is not UTF-8.
    Name,
}

/// The little-endian number of eight bytes.
pub open spec fn le64(b: Seq<u8>, at: int) -> u64 {
    (le32(b, at) + 0x1_0000_0000 * le32(b, at + 4)) as u64
}

/// The end of the string at `at`.
pub open spec fn string_end(b: Seq<u8>, at: int) -> Result<int, ReadError> {
    if at + 8 > b.len() || at + 8 + le64(b, at) > b.len() {
        Err(ReadError::Truncated)
    } else {
        Ok(at + 8 + le64(b, at))
    }
}

/// The bytes of the string at `at`.
pub open spec fn string_bytes(b: Seq<u8>, at: int) -> Seq<u8> {
    b.subrange(at + 8, at + 8 + le64(b, at))
}

/// The end of the `n` strings from `at` on.
pub open spec fn strings_end(b: Seq<u8>, at: int, n: nat) -> Result<int, ReadError>
    decreases n,
{
    if n == 0 {
        Ok(at)
    } else {
        match strings_end(b, at, (n - 1) as nat) {
            Ok(p) => string_end(b, p),
            Err(e) => Err(e),
        }
    }
}

/// The size of a metadata value of a fixed size.
pub open spec fn fixed_size(ty: u32) -> Option<int> {
    if ty == 0 || ty == 1 || ty == 7 {
        Some(1)
    } else if ty == 2 || ty == 3 {
        Some(2)
    } else if ty == 4 || ty == 5 || ty == 6 {
        Some(4)
    } else if ty == 10 || ty == 11 || ty == 12 {
        Some(8)
    } else {
        None
    }
}

/// `at + n`, unless that is past the end.
pub open spec fn skip(b: Seq<u8>, at: int, n: int) -> Result<int, ReadError> {
    if at + n > b.len() {
        Err(ReadError::Truncated)
    } else {
        Ok(at + n)
    }
}

/// The end of the array at `at`: the type of its elements, their number, the elements.
pub open spec fn array_end(b: Seq<u8>, at: int) -> Result<int, ReadError> {
    if at + 12 > b.len() {
        Err(ReadError::Truncated)
    } else if fixed_size(le32(b, at)) is Some {
        skip(b, at + 12, le64(b, at + 4) * fixed_size(le32(b, at)).unwrap())
    } else if le32(b, at) == 8 {
        strings_end(b, at + 12, le64(b, at + 4) as nat)
    } else {
        Err(ReadError::Type(le32(b, at)))
    }
}

/// The end of the metadata value of type `ty` at `at`.
pub open spec fn value_end(b: Seq<u8>, at: int, ty: u32) -> Result<int, ReadError> {
    if fixed_size(ty) is Some {
        skip(b, at, fixed_size(ty).unwrap())
    } else if ty == 8 {
        string_end(b, at)
    } else if ty == 9 {
        array_end(b, at)
    } else {
        Err(ReadError::Type(ty))
    }
}

/// What is kept of the metadata.
pub struct Metadata {
    /// What the data are aligned to.
    pub alignment: u32,
    /// The architecture's name, in bytes.
    pub architecture: Option<Seq<u8>>,
    /// The number of key/value heads per layer.
    pub head_count_kv: Option<Seq<u32>>,
}

/// The 32-bit numbers of the array at `at`.
pub open spec fn numbers(b: Seq<u8>, at: int) -> Seq<u32> {
    Seq::new(le64(b, at + 4) as nat, |i: int| le32(b, at + 12 + 4 * i))
}

/// What is kept after an entry with the given key, and a value of type `ty` at `at`.
pub open spec fn kept_of(m: Metadata, b: Seq<u8>, key: Seq<u8>, ty: u32, at: int) -> Metadata {
    if key == ascii("general.alignment"@) && ty == 4 {
        Metadata { alignment: le32(b, at), ..m }
    } else if key == ascii("general.architecture"@) && ty == 8 {
        Metadata { architecture: Some(string_bytes(b, at)), ..m }
    } else if key == ascii("lfm2moe.attention.head_count_kv"@) && ty == 9 && (le32(b, at) == 4
        || le32(b, at) == 5) {
        Metadata { head_count_kv: Some(numbers(b, at)), ..m }
    } else {
        m
    }
}

/// The end of the metadata entry at `at`, and what is kept after it.
pub open spec fn entry(b: Seq<u8>, at: int, m: Metadata) -> Result<(int, Metadata), ReadError> {
    match string_end(b, at) {
        Err(e) => Err(e),
        Ok(k) => if k + 4 > b.len() {
            Err(ReadError::Truncated)
        } else {
            match value_end(b, k + 4, le32(b, k)) {
                Err(e) => Err(e),
                Ok(p) => Ok((p, kept_of(m, b, string_bytes(b, at), le32(b, k), k + 4))),
            }
        },
    }
}

/// The end of the first `n` metadata entries, and what is kept of them.
pub open spec fn metadata(b: Seq<u8>, n: nat) -> Result<(int, Metadata), ReadError>
    decreases n,
{
    if n == 0 {
        Ok((24, Metadata { alignment: 32, architecture: None, head_count_kv: None }))
    } else {
        match metadata(b, (n - 1) as nat) {
            Err(e) => Err(e),
            Ok((p, m)) => entry(b, p, m),
        }
    }
}

/// One entry of the tensor table.
pub struct Entry {
    /// The name.
    pub name: Seq<char>,
    /// The dims.
    pub dims: Seq<u64>,
    /// The storage type, by its number.
    pub kind: u32,
    /// Where the bytes start in the data.
    pub offset: u64,
}

/// The storage type of a number.
pub open spec fn kind_spec(kind: u32) -> GgmlType {
    if kind == 0 {
        GgmlType::F32
    } else if kind == 1 {
        GgmlType::F16
    } else if kind == 12 {
        GgmlType::Q4_K
    } else if kind == 14 {
        GgmlType::Q6_K
    } else {
        GgmlType::Other(kind)
    }
}

/// The table entry at `at`, and where it ends: name, number of dims, dims, storage type,
/// offset.
pub open spec fn tensor_entry(b: Seq<u8>, at: int) -> Result<(Entry, int), ReadError> {
    match string_end(b, at) {
        Err(e) => Err(e),
        Ok(s) => if !valid_utf8(string_bytes(b, at)) {
            Err(ReadError::Name)
        } else if s + 4 > b.len() || s + 4 + 8 * le32(b, s) + 12 > b.len() {
            Err(ReadError::Truncated)
        } else {
            let n = le32(b, s) as int;
            Ok(
                (
                    Entry {
                        name: decode_utf8(string_bytes(b, at)),
                        dims: Seq::new(n as nat, |i: int| le64(b, s + 4 + 8 * i)),
                        kind: le32(b, s + 4 + 8 * n),
                        offset: le64(b, s + 4 + 8 * n + 4),
                    },
                    s + 4 + 8 * n + 12,
                ),
            )
        },
    }
}

/// The first `n` table entries from `at` on, and where they end.
pub open spec fn tensor_table(b: Seq<u8>, at: int, n: nat) -> Result<(Seq<Entry>, int), ReadError>
    decreases n,
{
    if n == 0 {
        Ok((Seq::empty(), at))
    } else {
        match tensor_table(b, at, (n - 1) as nat) {
            Err(e) => Err(e),
            Ok((v, p)) => match tensor_entry(b, p) {
                Err(e) => Err(e),
                Ok((t, q)) => Ok((v.push(t), q)),
            },
        }
    }
}

/// `p` rounded up to a multiple of `a`.
pub open spec fn aligned(p: int, a: int) -> int {
    if p % a == 0 {
        p
    } else {
        p - p % a + a
    }
}

/// What a container holds.
pub struct Container {
    /// What is kept of the metadata.
    pub meta: Metadata,
    /// The tensor table.
    pub table: Seq<Entry>,
    /// Where the data start.
    pub start: int,
}

/// What the container in `b` holds.
pub open spec fn container(b: Seq<u8>) -> Result<Container, ReadError> {
    if b.len() < 4 || b.subrange(0, 4) != ascii("GGUF"@) {
        Err(ReadError::Magic)
    } else if b.len() < 24 {
        Err(ReadError::Truncated)
    } else if le32(b, 4) != 2 && le32(b, 4) != 3 {
        Err(ReadError::Version(le32(b, 4)))
    } else {
        match metadata(b, le64(b, 16) as nat) {
            Err(e) => Err(e),
            Ok((p, meta)) => if meta.alignment == 0 {
                Err(ReadError::Alignment)
            } else {
                match tensor_table(b, p, le64(b, 8) as nat) {
                    Err(e) => Err(e),
                    Ok((table, q)) => {
                        let start = aligned(q, meta.alignment as int);
                        if start > b.len() {
                            Err(ReadError::Truncated)
                        } else {
                            Ok(Container { meta, table, start })
                        }
                    },
                }
            },
        }
    }
}

/// The tensor is the one that a table entry describes.
pub open spec fn described(t: TensorInfo, e: Entry) -> bool {
    &&& t.name@ == e.name
    &&& t.dims@ == e.dims
    &&& t.ggml_type == kind_spec(e.kind)
    &&& t.offset == e.offset
}

/// The text of UTF-8 bytes, where they are valid.
///
/// Wraps `String::from_utf8`. What is claimed of it: it succeeds exactly on valid UTF-8,
/// and the string holds the characters that the bytes encode.
#[verifier::external_body]
fn text_of(bytes: Vec<u8>) -> (r: Option<String>)
    ensures
        r is Some <==> valid_utf8(bytes@),
        r matches Some(s) ==> s@ == decode_utf8(bytes@),
{
    String::from_utf8(bytes).ok()
}

/// The little-endian number of eight bytes.
fn read_le64(b: &[u8], at: usize) -> (r: u64)
    requires
        at + 8 <= b@.len(),
    ensures
        r == le64(b@, at as int),
{
    assert(b.len() == b@.len());
    let low: u64 = read_le32(b, at) as u64;
    let high: u64 = read_le32(b, at + 4) as u64;
    low + 0x1_0000_0000 * high
}

/// The end of the string at `at`.
fn read_string_end(b: &[u8], at: usize) -> (r: Result<usize, ReadError>)
    requires
        at <= b@.len(),
    ensures
        r is Ok <==> string_end(b@, at as int) is Ok,
        r matches Ok(p) ==> string_end(b@, at as int) == Ok::<int, ReadError>(p as int) && at + 8
            <= p <= b@.len(),
        r matches Err(e) ==> string_end(b@, at as int) == Err::<int, ReadError>(e),
{
    let len: usize = b.len();
    if len - at < 8 {
        return Err(ReadError::Truncated);
    }
    let n: u64 = read_le64(b, at);
    if n > (len - at - 8) as u64 {
        Err(ReadError::Truncated)
    } else {
        Ok(at + 8 + n as usize)
    }
}

proof fn lemma_strings_fail(b: Seq<u8>, at: int, i: nat, n: nat, e: ReadError)
    requires
        i <= n,
        strings_end(b, at, i) == Err::<int, ReadError>(e),
    ensures
        strings_end(b, at, n) == Err::<int, ReadError>(e),
    decreases n,
{
    if i < n {
        lemma_strings_fail(b, at, i, (n - 1) as nat, e);
    }
}

/// The end of the `n` strings from `at` on.
fn read_strings_end(b: &[u8], at: usize, n: u64) -> (r: Result<usize, ReadError>)
    requires
        at <= b@.len(),
    ensures
        r is Ok <==> strings_end(b@, at as int, n as nat) is Ok,
        r matches Ok(p) ==> strings_end(b@, at as int, n as nat) == Ok::<int, ReadError>(
            p as int,
        ) && at <= p <= b@.len(),
        r matches Err(e) ==> strings_end(b@, at as int, n as nat) == Err::<int, ReadError>(e),
{
    let mut i: u64 = 0;
    let mut p: usize = at;
    while i < n
        invariant
            i <= n,
            at <= p <= b@.len(),
            strings_end(b@, at as int, i as nat) == Ok::<int, ReadError>(p as int),
        decreases n - i,
    {
        match read_string_end(b, p) {
            Err(e) => {
                proof {
                    lemma_strings_fail(b@, at as int, (i + 1) as nat, n as nat, e);
                }
                return Err(e);
            },
            Ok(q) => {
                p = q;
            },
        }
        i += 1;
    }
    Ok(p)
}

/// The size of a metadata value of a fixed size; zero where there is none.
fn size_of_type(ty: u32) -> (r: u64)
    ensures
        fixed_size(ty) is Some <==> r > 0,
        r > 0 ==> fixed_size(ty) == Some(r as int),
        r <= 8,
{
    if ty == 0 || ty == 1 || ty == 7 {
        1
    } else if ty == 2 || ty == 3 {
        2
    } else if ty == 4 || ty == 5 || ty == 6 {
        4
    } else if ty == 10 || ty == 11 || ty == 12 {
        8
    } else {
        0
    }
}

/// The end of the array at `at`.
fn read_array_end(b: &[u8], at: usize) -> (r: Result<usize, ReadError>)
    requires
        at <= b@.len(),
    ensures
        r is Ok <==> array_end(b@, at as int) is Ok,
        r matches Ok(p) ==> array_end(b@, at as int) == Ok::<int, ReadError>(p as int) && at <= p
            <= b@.len(),
        r matches Err(e) ==> array_end(b@, at as int) == Err::<int, ReadError>(e),
{
    let len: usize = b.len();
    if len - at < 12 {
        return Err(ReadError::Truncated);
    }
    let ty: u32 = read_le32(b, at);
    let n: u64 = read_le64(b, at + 4);
    let size: u64 = size_of_type(ty);
    let left: u64 = (len - at - 12) as u64;
    if size > 0 {
        if n > left / size {
            assert(n * size > left) by (nonlinear_arith)
                requires
                    n > left / size,
                    size > 0,
            ;
            Err(ReadError::Truncated)
        } else {
            assert(0 <= n * size <= left) by (nonlinear_arith)
                requires
                    n <= left / size,
                    size > 0,
            ;
            Ok(at + 12 + (n * size) as usize)
        }
    } else if ty == 8 {
        read_strings_end(b, at + 12, n)
    } else {
        Err(ReadError::Type(ty))
    }
}

/// The end of the metadata value of type `ty` at `at`.
fn read_value_end(b: &[u8], at: usize, ty: u32) -> (r: Result<usize, ReadError>)
    requires
        at <= b@.len(),
    ensures
        r is Ok <==> value_end(b@, at as int, ty) is Ok,
        r matches Ok(p) ==> value_end(b@, at as int, ty) == Ok::<int, ReadError>(p as int) && at
            <= p <= b@.len(),
        r matches Err(e) ==> value_end(b@, at as int, ty) == Err::<int, ReadError>(e),
{
    let len: usize = b.len();
    let size: u64 = size_of_type(ty);
    if size > 0 {
        if (len - at) < size as usize {
            Err(ReadError::Truncated)
        } else {
            Ok(at + size as usize)
        }
    } else if ty == 8 {
        read_string_end(b, at)
    } else if ty == 9 {
        read_array_end(b, at)
    } else {
        Err(ReadError::Type(ty))
    }
}

/// What is kept of the metadata.
struct Kept {
    alignment: u32,
    architecture: Option<Vec<u8>>,
    head_count_kv: Option<Vec<u32>>,
}

/// The contents of an optional list.
pub open spec fn contents<A>(o: Option<Vec<A>>) -> Option<Seq<A>> {
    match o {
        Some(v) => Some(v@),
        None => None,
    }
}

impl Kept {
    spec fn meta(self) -> Metadata {
        Metadata {
            alignment: self.alignment,
            architecture: contents(self.architecture),
            head_count_kv: contents(self.head_count_kv),
        }
    }
}

/// The 32-bit numbers of the array at `at`.
fn read_numbers(b: &[u8], at: usize) -> (r: Vec<u32>)
    requires
        at + 12 <= b@.len(),
        at + 12 + 4 * le64(b@, at + 4) <= b@.len(),
    ensures
        r@ == numbers(b@, at as int),
{
    assert(b.len() == b@.len());
    let n: usize = read_le64(b, at + 4) as usize;
    let mut r: Vec<u32> = Vec::new();
    while r.len() < n
        invariant
            at + 12 + 4 * n <= b@.len(),
            b@.len() <= usize::MAX,
            n == le64(b@, at + 4),
            r@.len() <= n,
            forall|i: int| 0 <= i < r@.len() ==> r@[i] == le32(b@, at + 12 + 4 * i),
        decreases n - r@.len(),
    {
        let i: usize = r.len();
        r.push(read_le32(b, at + 12 + 4 * i));
    }
    assert(r@ =~= numbers(b@, at as int));
    r
}

/// Reads the metadata entry at `at`: its end, and what is kept after it.
fn read_entry(b: &[u8], at: usize, m: Kept) -> (r: Result<(usize, Kept), ReadError>)
    requires
        at <= b@.len(),
    ensures
        r is Ok <==> entry(b@, at as int, m.meta()) is Ok,
        r matches Ok((p, k)) ==> entry(b@, at as int, m.meta()) == Ok::<(int, Metadata), ReadError>(
            (p as int, k.meta()),
        ) && at <= p <= b@.len(),
        r matches Err(e) ==> entry(b@, at as int, m.meta()) == Err::<(int, Metadata), ReadError>(e),
{
    let k: usize = match read_string_end(b, at) {
        Err(e) => {
            return Err(e);
        },
        Ok(k) => k,
    };
    if b.len() - k < 4 {
        return Err(ReadError::Truncated);
    }
    let ty: u32 = read_le32(b, k);
    let v: usize = k + 4;
    let p: usize = match read_value_end(b, v, ty) {
        Err(e) => {
            return Err(e);
        },
        Ok(p) => p,
    };
    let key: &[u8] = &b[at + 8..k];
    if ty == 4 && spells(key, "general.alignment") {
        Ok((p, Kept { alignment: read_le32(b, v), ..m }))
    } else if ty == 8 && spells(key, "general.architecture") {
        Ok((p, Kept { architecture: Some(copied(b, v + 8, p)), ..m }))
    } else if ty == 9 && spells(key, "lfm2moe.attention.head_count_kv") && (read_le32(b, v) == 4
        || read_le32(b, v) == 5) {
        proof {
            let n = le64(b@, v + 4);
            assert(fixed_size(le32(b@, v as int)) == Some(4int));
            assert(skip(b@, v + 12, n * 4) == Ok::<int, ReadError>(p as int));
            assert(n * 4 == 4 * n);
        }
        Ok((p, Kept { head_count_kv: Some(read_numbers(b, v)), ..m }))
    } else {
        Ok((p, m))
    }
}

proof fn lemma_metadata_fails(b: Seq<u8>, i: nat, n: nat, e: ReadError)
    requires
        i <= n,
        metadata(b, i) == Err::<(int, Metadata), ReadError>(e),
    ensures
        metadata(b, n) == Err::<(int, Metadata), ReadError>(e),
    decreases n,
{
    if i < n {
        lemma_metadata_fails(b, i, (n - 1) as nat, e);
    }
}

/// Reads the metadata: their end, and what is kept of them.
fn read_metadata(b: &[u8], n: u64) -> (r: Result<(usize, Kept), ReadError>)
    requires
        b@.len() >= 24,
    ensures
        r is Ok <==> metadata(b@, n as nat) is Ok,
        r matches Ok((p, k)) ==> metadata(b@, n as nat) == Ok::<(int, Metadata), ReadError>(
            (p as int, k.meta()),
        ) && p <= b@.len(),
        r matches Err(e) ==> metadata(b@, n as nat) == Err::<(int, Metadata), ReadError>(e),
{
    let mut i: u64 = 0;
    let mut p: usize = 24;
    let mut m: Kept = Kept { alignment: 32, architecture: None, head_count_kv: None };
    while i < n
        invariant
            i <= n,
            p <= b@.len(),
            metadata(b@, i as nat) == Ok::<(int, Metadata), ReadError>((p as int, m.meta())),
        decreases n - i,
    {
        match read_entry(b, p, m) {
            Err(e) => {
                proof {
                    lemma_metadata_fails(b@, (i + 1) as nat, n as nat, e);
                }
                return Err(e);
            },
            Ok((q, k)) => {
                p = q;
                m = k;
            },
        }
        i += 1;
    }
    Ok((p, m))
}

/// The storage type of a number.
fn kind_of(kind: u32) -> (r: GgmlType)
    ensures
        r == kind_spec(kind),
{
    match kind {
        0 => GgmlType::F32,
        1 => GgmlType::F16,
        12 => GgmlType::Q4_K,
        14 => GgmlType::Q6_K,
        _ => GgmlType::Other(kind),
    }
}

/// The bytes from `from` to `to`.
fn copied(b: &[u8], from: usize, to: usize) -> (r: Vec<u8>)
    requires
        from <= to <= b@.len(),
    ensures
        r@ == b@.subrange(from as int, to as int),
{
    let mut r: Vec<u8> = Vec::new();
    let mut i: usize = from;
    while i < to
        invariant
            from <= i <= to <= b@.len(),
            r@ == b@.subrange(from as int, i as int),
        decreases to - i,
    {
        r.push(b[i]);
        i += 1;
    }
    r
}

/// The table entry at `at`, and where it ends.
fn read_tensor(b: &[u8], at: usize) -> (r: Result<(TensorInfo, usize), ReadError>)
    requires
        at <= b@.len(),
    ensures
        r is Ok <==> tensor_entry(b@, at as int) is Ok,
        r matches Ok((t, p)) ==> tensor_entry(b@, at as int) matches Ok((e, q)) && described(t, e)
            && q == p && at <= p <= b@.len(),
        r matches Err(e) ==> tensor_entry(b@, at as int) == Err::<(Entry, int), ReadError>(e),
{
    let len: usize = b.len();
    let s: usize = match read_string_end(b, at) {
        Err(e) => {
            return Err(e);
        },
        Ok(s) => s,
    };
    let name: String = match text_of(copied(b, at + 8, s)) {
        None => {
            return Err(ReadError::Name);
        },
        Some(name) => name,
    };
    if len - s < 4 {
        return Err(ReadError::Truncated);
    }
    let n: u32 = read_le32(b, s);
    let from: usize = s + 4;
    if len - from < 12 || n as u64 > ((len - from - 12) / 8) as u64 {
        return Err(ReadError::Truncated);
    }
    let count: usize = n as usize;
    let mut dims: Vec<u64> = Vec::new();
    while dims.len() < count
        invariant
            count == n,
            from + 8 * count + 12 <= b@.len(),
            b@.len() <= usize::MAX,
            dims@.len() <= count,
            forall|i: int| 0 <= i < dims@.len() ==> dims@[i] == le64(b@, from + 8 * i),
        decreases count - dims@.len(),
    {
        let i: usize = dims.len();
        dims.push(read_le64(b, from + 8 * i));
    }
    let end: usize = from + 8 * count;
    let kind: u32 = read_le32(b, end);
    let offset: u64 = read_le64(b, end + 4);
    let t = TensorInfo { name, dims, ggml_type: kind_of(kind), offset };
    proof {
        let e = tensor_entry(b@, at as int).unwrap().0;
        assert(t.dims@ =~= e.dims);
    }
    Ok((t, end + 12))
}

proof fn lemma_table_fails(b: Seq<u8>, at: int, i: nat, n: nat, e: ReadError)
    requires
        i <= n,
        tensor_table(b, at, i) == Err::<(Seq<Entry>, int), ReadError>(e),
    ensures
        tensor_table(b, at, n) == Err::<(Seq<Entry>, int), ReadError>(e),
    decreases n,
{
    if i < n {
        lemma_table_fails(b, at, i, (n - 1) as nat, e);
    }
}

/// The tensors are those that the table entries describe.
pub open spec fn all_described(tensors: Seq<TensorInfo>, entries: Seq<Entry>) -> bool {
    &&& tensors.len() == entries.len()
    &&& forall|i: int| 0 <= i < tensors.len() ==> described(#[trigger] tensors[i], entries[i])
}

/// The tensor table at `at`, and where it ends.
fn read_table(b: &[u8], at: usize, n: u64) -> (r: Result<(Vec<TensorInfo>, usize), ReadError>)
    requires
        at <= b@.len(),
    ensures
        r is Ok <==> tensor_table(b@, at as int, n as nat) is Ok,
        r matches Ok((t, p)) ==> tensor_table(b@, at as int, n as nat) matches Ok((e, q))
            && all_described(t@, e) && q == p && p <= b@.len(),
        r matches Err(e) ==> tensor_table(b@, at as int, n as nat) == Err::<
            (Seq<Entry>, int),
            ReadError,
        >(e),
{
    let mut i: u64 = 0;
    let mut p: usize = at;
    let mut tensors: Vec<TensorInfo> = Vec::new();
    while i < n
        invariant
            i <= n,
            p <= b@.len(),
            tensor_table(b@, at as int, i as nat) matches Ok((e, q)) && all_described(
                tensors@,
                e,
            ) && q == p,
        decreases n - i,
    {
        match read_tensor(b, p) {
            Err(e) => {
                proof {
                    lemma_table_fails(b@, at as int, (i + 1) as nat, n as nat, e);
                }
                return Err(e);
            },
            Ok((t, q)) => {
                p = q;
                tensors.push(t);
            },
        }
        i += 1;
    }
    Ok((tensors, p))
}

/// Reads the container of a weights file.
pub fn read_container<'a>(b: &'a [u8]) -> (r: Result<GgufFile<'a>, ReadError>)
    ensures
        r is Ok <==> container(b@) is Ok,
        r matches Ok(file) ==> container(b@) matches Ok(c) && all_described(file.tensors@, c.table)
            && contents(file.architecture) == c.meta.architecture && contents(file.head_count_kv)
            == c.meta.head_count_kv && file.data@ == b@.subrange(c.start, b@.len() as int),
        r matches Err(e) ==> container(b@) == Err::<Container, ReadError>(e),
{
    let len: usize = b.len();
    if len < 4 || !spells(&b[0..4], "GGUF") {
        return Err(ReadError::Magic);
    }
    if len < 24 {
        return Err(ReadError::Truncated);
    }
    let version: u32 = read_le32(b, 4);
    if version != 2 && version != 3 {
        return Err(ReadError::Version(version));
    }
    let n_tensors: u64 = read_le64(b, 8);
    let n_entries: u64 = read_le64(b, 16);
    match read_metadata(b, n_entries) {
        Err(e) => Err(e),
        Ok((p, m)) => {
            let a: u32 = m.alignment;
            if a == 0 {
                return Err(ReadError::Alignment);
            }
            match read_table(b, p, n_tensors) {
                Err(e) => Err(e),
                Ok((tensors, q)) => {
                    let over: u64 = q as u64 % a as u64;
                    let pad: u64 = if over == 0 {
                        0
                    } else {
                        a as u64 - over
                    };
                    if pad > (len - q) as u64 {
                        return Err(ReadError::Truncated);
                    }
                    Ok(
                        GgufFile {
                            architecture: m.architecture,
                            head_count_kv: m.head_count_kv,
                            tensors,
                            data: &b[q + pad as usize..len],
                        },
                    )
                },
            }
        },
    }
}

/// The data start at the first multiple of the alignment that is not before the end of the
/// table.
pub proof fn data_start_at_the_next_multiple(p: int, a: int)
    requires
        0 <= p,
        0 < a,
    ensures
        aligned(p, a) % a == 0,
        p <= aligned(p, a) < p + a,
{
    vstd::arithmetic::div_mod::lemma_fundamental_div_mod(p, a);
    let q = p / a;
    let r = p % a;
    if r == 0 {
    } else {
        assert(p - r + a == a * (q + 1)) by (nonlinear_arith)
            requires
                p == a * q + r,
        ;
        vstd::arithmetic::div_mod::lemma_fundamental_div_mod_converse(
            p - r + a,
            a,
            q + 1,
            0,
        );
        assert((q + 1) * a == a * (q + 1)) by (nonlinear_arith);
    }
}

/// The table describes its tensors one after another: a table of `n + 1` entries is the table
/// of the first `n`, and the entry that starts where they end.
pub proof fn table_entries_follow_one_another(b: Seq<u8>, at: int, n: nat)
    requires
        tensor_table(b, at, n + 1) is Ok,
    ensures
        tensor_table(b, at, n) is Ok,
        tensor_entry(b, tensor_table(b, at, n)->Ok_0.1) is Ok,
        tensor_table(b, at, n + 1)->Ok_0.0 == tensor_table(b, at, n)->Ok_0.0.push(
            tensor_entry(b, tensor_table(b, at, n)->Ok_0.1)->Ok_0.0,
        ),
        tensor_table(b, at, n + 1)->Ok_0.1 == tensor_entry(
            b,
            tensor_table(b, at, n)->Ok_0.1,
        )->Ok_0.1,
{
}

/// The values of fixed size have the size of their type: `u8`, `i8` and `bool` one byte, `u16`
/// and `i16` two, `u32`, `i32` and `f32` four, `u64`, `i64` and `f64` eight. Types past the
/// last do not exist.
pub proof fn values_have_the_size_of_their_type(b: Seq<u8>, at: int, ty: u32)
    requires
        0 <= at,
        at + 8 <= b.len(),
    ensures
        ty == 0 || ty == 1 || ty == 7 ==> value_end(b, at, ty) == Ok::<int, ReadError>(at + 1),
        ty == 2 || ty == 3 ==> value_end(b, at, ty) == Ok::<int, ReadError>(at + 2),
        ty == 4 || ty == 5 || ty == 6 ==> value_end(b, at, ty) == Ok::<int, ReadError>(at + 4),
        ty == 10 || ty == 11 || ty == 12 ==> value_end(b, at, ty) == Ok::<int, ReadError>(at + 8),
        ty > 12 ==> value_end(b, at, ty) == Err::<int, ReadError>(ReadError::Type(ty)),
{
}

/// The strings of an array follow one another: one more string takes its length and its bytes.
pub proof fn strings_follow_one_another(b: Seq<u8>, at: int, n: nat, p: int)
    requires
        strings_end(b, at, n) == Ok::<int, ReadError>(p),
        p + 8 <= b.len(),
        p + 8 + le64(b, p) <= b.len(),
    ensures
        strings_end(b, at, n + 1) == Ok::<int, ReadError>(p + 8 + le64(b, p)),
{
}

/// Of several entries with one key the last counts: what an entry sets does not depend on
/// what was kept before, and it leaves the rest as it was.
pub proof fn later_entries_win(
    m: Metadata,
    other: Metadata,
    b: Seq<u8>,
    key: Seq<u8>,
    ty: u32,
    at: int,
)
    ensures
        key == ascii("general.alignment"@) && ty == 4 ==> kept_of(m, b, key, ty, at).alignment
            == le32(b, at),
        kept_of(m, b, key, ty, at).alignment != m.alignment ==> kept_of(m, b, key, ty, at)
            == (Metadata { alignment: kept_of(m, b, key, ty, at).alignment, ..m }),
        kept_of(m, b, key, ty, at).architecture != m.architecture ==> kept_of(m, b, key, ty, at)
            == (Metadata { architecture: Some(b.subrange(at + 8, at + 8 + le64(b, at))), ..m }),
        kept_of(m, b, key, ty, at).alignment != m.alignment ==> kept_of(
            other,
            b,
            key,
            ty,
            at,
        ).alignment == kept_of(m, b, key, ty, at).alignment,
        kept_of(m, b, key, ty, at).architecture != m.architecture ==> kept_of(
            other,
            b,
            key,
            ty,
            at,
        ).architecture == kept_of(m, b, key, ty, at).architecture,
        kept_of(m, b, key, ty, at).head_count_kv != m.head_count_kv ==> kept_of(
            other,
            b,
            key,
            ty,
            at,
        ).head_count_kv == kept_of(m, b, key, ty, at).head_count_kv,
{
}

} // verus!
