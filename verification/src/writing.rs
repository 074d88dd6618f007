//! How the container of a weights file is written.
//!
//! Reading is the inverse of writing: what is written here byte by byte, front to back, is what
//! the reader finds.
use crate::kernels::dequant::le32;
use crate::reader::{
    aligned, array_end, container, entry, fixed_size, le64, metadata, numbers, string_bytes, string_end, tensor_entry,
    tensor_table, value_end, Container, Entry, Metadata, ReadError,
};
use crate::text::ascii;
use vstd::prelude::*;
use vstd::utf8::{decode_utf8, valid_utf8};

verus! {

/// A number in four bytes, lowest first.
pub open spec fn bytes32(n: u32) -> Seq<u8> {
    seq![
        (n % 256) as u8,
        ((n / 256) % 256) as u8,
        ((n / 65536) % 256) as u8,
        (n / 16777216) as u8,
    ]
}

/// A number in eight bytes, lowest first.
pub open spec fn bytes64(n: u64) -> Seq<u8> {
    bytes32((n % 0x1_0000_0000) as u32) + bytes32((n / 0x1_0000_0000) as u32)
}

/// A string: its length, then its bytes.
pub open spec fn written_string(s: Seq<u8>) -> Seq<u8> {
    bytes64(s.len() as u64) + s
}

/// Dims, one after another.
pub open spec fn written_dims(dims: Seq<u64>) -> Seq<u8>
    decreases dims.len(),
{
    if dims.len() == 0 {
        Seq::empty()
    } else {
        written_dims(dims.drop_last()) + bytes64(dims.last())
    }
}

/// What is written of a tensor.
pub struct Line {
    /// The name, in UTF-8.
    pub name: Seq<u8>,
    /// The dims.
    pub dims: Seq<u64>,
    /// The storage type, by its number.
    pub kind: u32,
    /// Where the bytes start in the data.
    pub offset: u64,
}

impl Line {
    /// The line can be written: the name is UTF-8, and the lengths fit their fields.
    pub open spec fn writable(self) -> bool {
        &&& valid_utf8(self.name)
        &&& self.name.len() <= u64::MAX
        &&& self.dims.len() <= u32::MAX
    }

    /// The line in bytes: name, number of dims, dims, storage type, offset.
    pub open spec fn written(self) -> Seq<u8> {
        written_string(self.name) + bytes32(self.dims.len() as u32) + written_dims(self.dims)
            + bytes32(self.kind) + bytes64(self.offset)
    }

    /// The table entry that the line stands for.
    pub open spec fn entry(self) -> Entry {
        Entry {
            name: decode_utf8(self.name),
            dims: self.dims,
            kind: self.kind,
            offset: self.offset,
        }
    }
}

/// Lines, one after another.
pub open spec fn written_table(lines: Seq<Line>) -> Seq<u8>
    decreases lines.len(),
{
    if lines.len() == 0 {
        Seq::empty()
    } else {
        written_table(lines.drop_last()) + lines.last().written()
    }
}

/// `part` stands in `b` from `at` on.
#[verifier::opaque]
pub open spec fn stands(b: Seq<u8>, at: int, part: Seq<u8>) -> bool {
    &&& 0 <= at
    &&& at + part.len() <= b.len()
    &&& forall|i: int| 0 <= i < part.len() ==> #[trigger] b[at + i] == part[i]
}

proof fn lemma_stands_split(b: Seq<u8>, at: int, x: Seq<u8>, y: Seq<u8>)
    requires
        stands(b, at, x + y),
    ensures
        stands(b, at, x),
        stands(b, at + x.len(), y),
        0 <= at,
        at + x.len() + y.len() <= b.len(),
{
    reveal(stands);
    let xy = x + y;
    assert forall|i: int| 0 <= i < x.len() implies #[trigger] b[at + i] == x[i] by {
        assert(b[at + i] == xy[i]);
    }
    assert forall|i: int| 0 <= i < y.len() implies #[trigger] b[at + x.len() + i] == y[i] by {
        assert(b[at + (x.len() + i)] == xy[x.len() + i]);
    }
}

proof fn lemma_stands_inside(b: Seq<u8>, at: int, x: Seq<u8>)
    requires
        stands(b, at, x),
    ensures
        0 <= at,
        at + x.len() <= b.len(),
{
    reveal(stands);
}

/// A number written in four bytes reads back.
pub proof fn four_bytes_read_back(b: Seq<u8>, at: int, n: u32)
    requires
        stands(b, at, bytes32(n)),
    ensures
        le32(b, at) == n,
{
    reveal(stands);
    let w = bytes32(n);
    assert(b[at + 0] == w[0] && b[at + 1] == w[1] && b[at + 2] == w[2] && b[at + 3] == w[3]);
    assert(n == n % 256 + 256 * ((n / 256) % 256) + 65536 * ((n / 65536) % 256) + 16777216 * (n
        / 16777216));
}

/// A number written in eight bytes reads back.
pub proof fn eight_bytes_read_back(b: Seq<u8>, at: int, n: u64)
    requires
        stands(b, at, bytes64(n)),
    ensures
        le64(b, at) == n,
{
    let low = (n % 0x1_0000_0000) as u32;
    let high = (n / 0x1_0000_0000) as u32;
    lemma_stands_split(b, at, bytes32(low), bytes32(high));
    four_bytes_read_back(b, at, low);
    four_bytes_read_back(b, at + 4, high);
}

proof fn lemma_dims(b: Seq<u8>, at: int, dims: Seq<u64>)
    requires
        stands(b, at, written_dims(dims)),
    ensures
        written_dims(dims).len() == 8 * dims.len(),
        forall|i: int| 0 <= i < dims.len() ==> le64(b, at + 8 * i) == #[trigger] dims[i],
    decreases dims.len(),
{
    if dims.len() > 0 {
        let r = dims.drop_last();
        lemma_stands_split(b, at, written_dims(r), bytes64(dims.last()));
        lemma_dims(b, at, r);
        eight_bytes_read_back(b, at + 8 * r.len(), dims.last());
        assert forall|i: int| 0 <= i < dims.len() implies le64(b, at + 8 * i) == #[trigger] dims[i]
            by {
            if i < r.len() {
                assert(r[i] == dims[i]);
            }
        }
    }
}

/// A tensor written into the table is found there: its name, its dims in order, its storage
/// type and its offset, and the next entry starts where its bytes end.
pub proof fn a_written_tensor_reads_back(b: Seq<u8>, at: int, line: Line)
    requires
        line.writable(),
        stands(b, at, line.written()),
    ensures
        tensor_entry(b, at) == Ok::<(Entry, int), ReadError>(
            (line.entry(), at + line.written().len()),
        ),
{
    let s1 = bytes64(line.name.len() as u64);
    let s2 = line.name;
    let s3 = bytes32(line.dims.len() as u32);
    let s4 = written_dims(line.dims);
    let s5 = bytes32(line.kind);
    let s6 = bytes64(line.offset);
    lemma_stands_split(b, at, s1 + s2 + s3 + s4 + s5, s6);
    lemma_stands_split(b, at, s1 + s2 + s3 + s4, s5);
    lemma_stands_split(b, at, s1 + s2 + s3, s4);
    lemma_stands_split(b, at, s1 + s2, s3);
    lemma_stands_split(b, at, s1, s2);
    a_written_string_reads_back(b, at, line.name);
    eight_bytes_read_back(b, at, line.name.len() as u64);
    let s = at + 8 + line.name.len();
    four_bytes_read_back(b, s, line.dims.len() as u32);
    lemma_dims(b, s + 4, line.dims);
    let n = line.dims.len() as int;
    four_bytes_read_back(b, s + 4 + 8 * n, line.kind);
    eight_bytes_read_back(b, s + 4 + 8 * n + 4, line.offset);
    assert(Seq::new(n as nat, |i: int| le64(b, s + 4 + 8 * i)) =~= line.dims);
}

/// A written table reads back: its tensors in the order in which they were written.
pub proof fn a_written_table_reads_back(b: Seq<u8>, at: int, lines: Seq<Line>)
    requires
        forall|i: int| 0 <= i < lines.len() ==> (#[trigger] lines[i]).writable(),
        stands(b, at, written_table(lines)),
    ensures
        tensor_table(b, at, lines.len()) is Ok,
        tensor_table(b, at, lines.len())->Ok_0.0 == Seq::new(
            lines.len(),
            |i: int| lines[i].entry(),
        ),
        tensor_table(b, at, lines.len())->Ok_0.1 == at + written_table(lines).len(),
    decreases lines.len(),
{
    if lines.len() > 0 {
        let r = lines.drop_last();
        lemma_stands_split(b, at, written_table(r), lines.last().written());
        assert forall|i: int| 0 <= i < r.len() implies (#[trigger] r[i]).writable() by {
            assert(lines[i].writable());
        }
        a_written_table_reads_back(b, at, r);
        a_written_tensor_reads_back(b, at + written_table(r).len(), lines.last());
    }
    let want = Seq::new(lines.len(), |i: int| lines[i].entry());
    assert(tensor_table(b, at, lines.len())->Ok_0.0 =~= want);
}

/// Numbers of four bytes, one after another.
pub open spec fn written_numbers(v: Seq<u32>) -> Seq<u8>
    decreases v.len(),
{
    if v.len() == 0 {
        Seq::empty()
    } else {
        written_numbers(v.drop_last()) + bytes32(v.last())
    }
}

/// A metadata value that is kept.
pub enum Value {
    /// A number.
    Number(u32),
    /// A string.
    Text(Seq<u8>),
    /// An array of numbers, signed or not.
    Numbers(bool, Seq<u32>),
}

impl Value {
    /// The lengths fit their fields.
    pub open spec fn writable(self) -> bool {
        match self {
            Value::Number(_) => true,
            Value::Text(s) => s.len() <= u64::MAX,
            Value::Numbers(_, v) => v.len() <= u64::MAX,
        }
    }

    /// The number of the value's type.
    pub open spec fn kind(self) -> u32 {
        match self {
            Value::Number(_) => 4,
            Value::Text(_) => 8,
            Value::Numbers(_, _) => 9,
        }
    }

    /// The value in bytes; of an array the type and the number of its elements come first.
    pub open spec fn written(self) -> Seq<u8> {
        match self {
            Value::Number(n) => bytes32(n),
            Value::Text(s) => written_string(s),
            Value::Numbers(signed, v) => bytes32(
                if signed {
                    5
                } else {
                    4
                },
            ) + bytes64(v.len() as u64) + written_numbers(v),
        }
    }
}

/// A metadata entry: its key, the type of its value, its value.
pub open spec fn written_setting(key: Seq<u8>, value: Value) -> Seq<u8> {
    written_string(key) + bytes32(value.kind()) + value.written()
}

proof fn lemma_numbers(b: Seq<u8>, at: int, v: Seq<u32>)
    requires
        stands(b, at, written_numbers(v)),
    ensures
        written_numbers(v).len() == 4 * v.len(),
        forall|i: int| 0 <= i < v.len() ==> le32(b, at + 4 * i) == #[trigger] v[i],
    decreases v.len(),
{
    if v.len() > 0 {
        let r = v.drop_last();
        lemma_stands_split(b, at, written_numbers(r), bytes32(v.last()));
        lemma_numbers(b, at, r);
        four_bytes_read_back(b, at + 4 * r.len(), v.last());
        assert forall|i: int| 0 <= i < v.len() implies le32(b, at + 4 * i) == #[trigger] v[i] by {
            if i < r.len() {
                assert(r[i] == v[i]);
            }
        }
    }
}

/// A written string is found whole.
pub proof fn a_written_string_reads_back(b: Seq<u8>, at: int, s: Seq<u8>)
    requires
        s.len() <= u64::MAX,
        stands(b, at, written_string(s)),
    ensures
        string_end(b, at) == Ok::<int, ReadError>(at + written_string(s).len()),
        string_bytes(b, at) == s,
{
    lemma_stands_split(b, at, bytes64(s.len() as u64), s);
    eight_bytes_read_back(b, at, s.len() as u64);
    reveal(stands);
    assert forall|i: int| 0 <= i < s.len() implies #[trigger] string_bytes(b, at)[i] == s[i] by {
        assert(b[at + 8 + i] == s[i]);
    }
    assert(string_bytes(b, at) =~= s);
}

/// A written value ends where its bytes end, and holds what was written.
pub proof fn a_written_value_reads_back(b: Seq<u8>, at: int, value: Value)
    requires
        value.writable(),
        stands(b, at, value.written()),
    ensures
        value_end(b, at, value.kind()) == Ok::<int, ReadError>(at + value.written().len()),
        value matches Value::Number(n) ==> le32(b, at) == n,
        value matches Value::Text(s) ==> string_bytes(b, at) == s,
        value matches Value::Numbers(signed, v) ==> numbers(b, at) == v && (le32(b, at) == 4
            || le32(b, at) == 5),
{
    match value {
        Value::Number(n) => {
            four_bytes_read_back(b, at, n);
            lemma_stands_inside(b, at, bytes32(n));
        },
        Value::Text(s) => {
            a_written_string_reads_back(b, at, s);
        },
        Value::Numbers(signed, v) => {
            lemma_array(b, at, signed, v);
        },
    }
}

proof fn lemma_array(b: Seq<u8>, at: int, signed: bool, v: Seq<u32>)
    requires
        v.len() <= u64::MAX,
        stands(b, at, Value::Numbers(signed, v).written()),
    ensures
        value_end(b, at, 9) == Ok::<int, ReadError>(at + 12 + 4 * v.len()),
        Value::Numbers(signed, v).written().len() == 12 + 4 * v.len(),
        numbers(b, at) == v,
        le32(b, at) == 4 || le32(b, at) == 5,
{
    let ty: u32 = if signed {
        5
    } else {
        4
    };
    let w1 = bytes32(ty);
    let w2 = bytes64(v.len() as u64);
    lemma_stands_split(b, at, w1 + w2, written_numbers(v));
    lemma_stands_split(b, at, w1, w2);
    four_bytes_read_back(b, at, ty);
    eight_bytes_read_back(b, at + 4, v.len() as u64);
    assert((w1 + w2).len() == 12);
    lemma_numbers(b, at + 12, v);
    assert(numbers(b, at) =~= v);
    assert(fixed_size(le32(b, at)) == Some(4int));
    assert(array_end(b, at) == Ok::<int, ReadError>(at + 12 + le64(b, at + 4) * 4));
}

proof fn lemma_setting(b: Seq<u8>, at: int, key: Seq<u8>, value: Value, m: Metadata)
    requires
        key.len() <= u64::MAX,
        value.writable(),
        stands(b, at, written_setting(key, value)),
    ensures
        entry(b, at, m) is Ok,
        entry(b, at, m)->Ok_0.0 == at + written_setting(key, value).len(),
        value matches Value::Number(n) ==> key == ascii("general.alignment"@) ==> entry(
            b,
            at,
            m,
        )->Ok_0.1 == (Metadata { alignment: n, ..m }),
        value matches Value::Text(s) ==> key == ascii("general.architecture"@) ==> entry(
            b,
            at,
            m,
        )->Ok_0.1 == (Metadata { architecture: Some(s), ..m }),
        value matches Value::Numbers(_, v) ==> key == ascii("lfm2moe.attention.head_count_kv"@)
            ==> entry(b, at, m)->Ok_0.1 == (Metadata { head_count_kv: Some(v), ..m }),
{
    let w1 = written_string(key);
    let w2 = bytes32(value.kind());
    lemma_stands_split(b, at, w1 + w2, value.written());
    lemma_stands_split(b, at, w1, w2);
    a_written_string_reads_back(b, at, key);
    four_bytes_read_back(b, at + w1.len(), value.kind());
    a_written_value_reads_back(b, at + w1.len() + 4, value);
}

/// What comes before the data of a file with three metadata entries: the magic, the version,
/// the number of tensors, the number of entries, the entries, and the table.
pub open spec fn written_front(
    version: u32,
    alignment: u32,
    architecture: Seq<u8>,
    signed: bool,
    heads: Seq<u32>,
    lines: Seq<Line>,
) -> Seq<u8> {
    ascii("GGUF"@) + bytes32(version) + bytes64(lines.len() as u64) + bytes64(3) + written_setting(
        ascii("general.architecture"@),
        Value::Text(architecture),
    ) + written_setting(ascii("general.alignment"@), Value::Number(alignment)) + written_setting(
        ascii("lfm2moe.attention.head_count_kv"@),
        Value::Numbers(signed, heads),
    ) + written_table(lines)
}

/// A written file reads back: the architecture, the alignment, the heads of every layer and
/// the tensors are those that were written, and the data start at the first multiple of the
/// alignment after the table.
pub proof fn a_written_file_reads_back(
    b: Seq<u8>,
    version: u32,
    alignment: u32,
    architecture: Seq<u8>,
    signed: bool,
    heads: Seq<u32>,
    lines: Seq<Line>,
    start: int,
)
    requires
        version == 2 || version == 3,
        alignment > 0,
        architecture.len() <= u64::MAX,
        heads.len() <= u64::MAX,
        lines.len() <= u64::MAX,
        forall|i: int| 0 <= i < lines.len() ==> (#[trigger] lines[i]).writable(),
        stands(b, 0, written_front(version, alignment, architecture, signed, heads, lines)),
        start % alignment as int == 0,
        written_front(version, alignment, architecture, signed, heads, lines).len() <= start
            < written_front(version, alignment, architecture, signed, heads, lines).len()
            + alignment,
        start <= b.len(),
    ensures
        container(b) is Ok,
        container(b)->Ok_0.meta == (Metadata {
            alignment,
            architecture: Some(architecture),
            head_count_kv: Some(heads),
        }),
        container(b)->Ok_0.table == Seq::new(lines.len(), |i: int| lines[i].entry()),
        container(b)->Ok_0.start == start,
{
    let n = lines.len() as u64;
    let h = ascii("GGUF"@) + bytes32(version) + bytes64(n) + bytes64(3);
    let s1 = written_setting(ascii("general.architecture"@), Value::Text(architecture));
    let s2 = written_setting(ascii("general.alignment"@), Value::Number(alignment));
    let s3 = written_setting(
        ascii("lfm2moe.attention.head_count_kv"@),
        Value::Numbers(signed, heads),
    );
    let t = written_table(lines);
    lemma_five_parts(b, h, s1, s2, s3, t);
    lemma_header(b, version, n);
    lemma_three_settings(b, alignment, architecture, signed, heads);
    a_written_table_reads_back(b, 24int + s1.len() + s2.len() + s3.len(), lines);
    lemma_only_multiple(24int + s1.len() + s2.len() + s3.len() + t.len(), alignment as int, start);
}

proof fn lemma_five_parts(
    b: Seq<u8>,
    h: Seq<u8>,
    s1: Seq<u8>,
    s2: Seq<u8>,
    s3: Seq<u8>,
    t: Seq<u8>,
)
    requires
        stands(b, 0, h + s1 + s2 + s3 + t),
    ensures
        stands(b, 0, h),
        stands(b, h.len() as int, s1),
        stands(b, h.len() + s1.len() as int, s2),
        stands(b, h.len() + s1.len() + s2.len() as int, s3),
        stands(b, h.len() + s1.len() + s2.len() + s3.len() as int, t),
{
    lemma_stands_split(b, 0, h + s1 + s2 + s3, t);
    lemma_stands_split(b, 0, h + s1 + s2, s3);
    lemma_stands_split(b, 0, h + s1, s2);
    lemma_stands_split(b, 0, h, s1);
}

proof fn lemma_header(b: Seq<u8>, version: u32, n: u64)
    requires
        stands(b, 0, ascii("GGUF"@) + bytes32(version) + bytes64(n) + bytes64(3)),
    ensures
        (ascii("GGUF"@) + bytes32(version) + bytes64(n) + bytes64(3)).len() == 24,
        b.len() >= 24,
        b.subrange(0, 4) == ascii("GGUF"@),
        le32(b, 4) == version,
        le64(b, 8) == n,
        le64(b, 16) == 3,
{
    reveal_strlit("GGUF");
    let w1 = ascii("GGUF"@);
    let w2 = bytes32(version);
    let w3 = bytes64(n);
    let w4 = bytes64(3);
    lemma_stands_split(b, 0, w1 + w2 + w3, w4);
    lemma_stands_split(b, 0, w1 + w2, w3);
    lemma_stands_split(b, 0, w1, w2);
    assert(b.subrange(0, 4) =~= w1) by {
        reveal(stands);
        assert forall|i: int| 0 <= i < 4 implies #[trigger] b.subrange(0, 4)[i] == w1[i] by {
            assert(b[0 + i] == w1[i]);
        }
    }
    four_bytes_read_back(b, 4, version);
    eight_bytes_read_back(b, 8, n);
    eight_bytes_read_back(b, 16, 3);
}

proof fn lemma_three_settings(
    b: Seq<u8>,
    alignment: u32,
    architecture: Seq<u8>,
    signed: bool,
    heads: Seq<u32>,
)
    requires
        architecture.len() <= u64::MAX,
        heads.len() <= u64::MAX,
        ({
            let s1 = written_setting(ascii("general.architecture"@), Value::Text(architecture));
            let s2 = written_setting(ascii("general.alignment"@), Value::Number(alignment));
            let s3 = written_setting(
                ascii("lfm2moe.attention.head_count_kv"@),
                Value::Numbers(signed, heads),
            );
            &&& stands(b, 24, s1)
            &&& stands(b, 24int + s1.len(), s2)
            &&& stands(b, 24int + s1.len() + s2.len(), s3)
        }),
    ensures
        ({
            let s1 = written_setting(ascii("general.architecture"@), Value::Text(architecture));
            let s2 = written_setting(ascii("general.alignment"@), Value::Number(alignment));
            let s3 = written_setting(
                ascii("lfm2moe.attention.head_count_kv"@),
                Value::Numbers(signed, heads),
            );
            metadata(b, 3) == Ok::<(int, Metadata), ReadError>(
                (
                    24int + s1.len() + s2.len() + s3.len(),
                    Metadata {
                        alignment,
                        architecture: Some(architecture),
                        head_count_kv: Some(heads),
                    },
                ),
            )
        }),
{
    let a1 = ascii("general.architecture"@);
    let a2 = ascii("general.alignment"@);
    let a3 = ascii("lfm2moe.attention.head_count_kv"@);
    assert(a1.len() <= u64::MAX && a2.len() <= u64::MAX && a3.len() <= u64::MAX) by {
        reveal_strlit("general.architecture");
        reveal_strlit("general.alignment");
        reveal_strlit("lfm2moe.attention.head_count_kv");
    }
    let v1 = Value::Text(architecture);
    let v2 = Value::Number(alignment);
    let v3 = Value::Numbers(signed, heads);
    let p1 = 24 + written_setting(a1, v1).len() as int;
    let p2 = p1 + written_setting(a2, v2).len();
    let m0 = Metadata { alignment: 32, architecture: None, head_count_kv: None };
    let m1 = Metadata { architecture: Some(architecture), ..m0 };
    let m2 = Metadata { alignment, ..m1 };
    lemma_setting(b, 24, a1, v1, m0);
    lemma_setting(b, p1, a2, v2, m1);
    lemma_setting(b, p2, a3, v3, m2);
    reveal_with_fuel(metadata, 4);
}

/// There is one multiple of `a` from `p` on and before `p + a`.
proof fn lemma_only_multiple(p: int, a: int, start: int)
    requires
        0 <= p,
        0 < a,
        start % a == 0,
        p <= start < p + a,
    ensures
        aligned(p, a) == start,
{
    crate::reader::data_start_at_the_next_multiple(p, a);
    let other = aligned(p, a);
    vstd::arithmetic::div_mod::lemma_fundamental_div_mod(start, a);
    vstd::arithmetic::div_mod::lemma_fundamental_div_mod(other, a);
    let x = start / a;
    let y = other / a;
    assert(x == y) by (nonlinear_arith)
        requires
            start == a * x,
            other == a * y,
            0 < a,
            p <= start < p + a,
            p <= other < p + a,
    ;
}

} // verus!
