//! The GGUF container format: a fixed header (magic, version, two counts),
//! a list of typed metadata key/value pairs, and a table of tensor
//! descriptors. This module reads that table of contents out of the raw
//! bytes at the start of a GGUF file; it never touches the weights.
use vstd::prelude::*;
use vstd::utf8::*;

verus! {

/// A GGUF metadata value. The type id stored in the file selects the variant.
/// Floating-point values are carried as their IEEE-754 bit patterns: `F32`
/// holds the `u32` bits of an `f32`, `F64` the `u64` bits of an `f64`.
#[derive(Debug)]
pub enum GgufValue {
    U8(u8),
    I8(i8),
    U16(u16),
    I16(i16),
    U32(u32),
    I32(i32),
    F32(u32),
    Bool(bool),
    String(String),
    Array(Vec<GgufValue>),
    U64(u64),
    I64(i64),
    F64(u64),
}

/// The mathematical model of a [`GgufValue`]: strings become character sequences.
pub enum SpecValue {
    U8(u8),
    I8(i8),
    U16(u16),
    I16(i16),
    U32(u32),
    I32(i32),
    F32(u32),
    Bool(bool),
    Str(Seq<char>),
    Array(Seq<SpecValue>),
    U64(u64),
    I64(i64),
    F64(u64),
}

impl GgufValue {
    /// The value as a mathematical value.
    pub open spec fn spec_view(&self) -> SpecValue
        decreases self,
    {
        match self {
            GgufValue::U8(x) => SpecValue::U8(*x),
            GgufValue::I8(x) => SpecValue::I8(*x),
            GgufValue::U16(x) => SpecValue::U16(*x),
            GgufValue::I16(x) => SpecValue::I16(*x),
            GgufValue::U32(x) => SpecValue::U32(*x),
            GgufValue::I32(x) => SpecValue::I32(*x),
            GgufValue::F32(x) => SpecValue::F32(*x),
            GgufValue::Bool(x) => SpecValue::Bool(*x),
            GgufValue::String(s) => SpecValue::Str(s@),
            GgufValue::Array(items) => SpecValue::Array(
                Seq::new(
                    items@.len(),
                    |i: int|
                        if 0 <= i < items@.len() {
                            items@[i].spec_view()
                        } else {
                            SpecValue::Bool(false)
                        },
                ),
            ),
            GgufValue::U64(x) => SpecValue::U64(*x),
            GgufValue::I64(x) => SpecValue::I64(*x),
            GgufValue::F64(x) => SpecValue::F64(*x),
        }
    }
}

impl View for GgufValue {
    type V = SpecValue;

    open spec fn view(&self) -> SpecValue {
        self.spec_view()
    }
}

/// The models of a sequence of values.
pub open spec fn values_view(items: Seq<GgufValue>) -> Seq<SpecValue> {
    Seq::new(items.len(), |i: int| items[i]@)
}

/// One tensor descriptor: name, shape, GGML type id and byte offset into the
/// tensor-data section.
#[derive(Debug)]
pub struct TensorInfo {
    pub name: String,
    pub dims: Vec<u64>,
    pub dtype: u32,
    pub offset: u64,
}

/// The model of a [`TensorInfo`].
pub struct SpecTensorInfo {
    pub name: Seq<char>,
    pub dims: Seq<u64>,
    pub dtype: u32,
    pub offset: u64,
}

impl View for TensorInfo {
    type V = SpecTensorInfo;

    open spec fn view(&self) -> SpecTensorInfo {
        SpecTensorInfo { name: self.name@, dims: self.dims@, dtype: self.dtype, offset: self.offset }
    }
}

/// The table of contents of a GGUF file.
#[derive(Debug)]
pub struct GgufFile {
    pub version: u32,
    pub metadata: Vec<(String, GgufValue)>,
    pub tensors: Vec<TensorInfo>,
    /// Absolute byte offset in the file where the tensor data begins.
    pub tensor_data_offset: u64,
}

/// The model of a [`GgufFile`].
pub struct SpecGgufFile {
    pub version: u32,
    pub metadata: Seq<(Seq<char>, SpecValue)>,
    pub tensors: Seq<SpecTensorInfo>,
    pub tensor_data_offset: u64,
}

/// Metadata entries with keys and values as mathematical values.
pub open spec fn metadata_view(md: Seq<(String, GgufValue)>) -> Seq<(Seq<char>, SpecValue)> {
    Seq::new(md.len(), |i: int| (md[i].0@, md[i].1@))
}

/// Tensor descriptors as mathematical values.
pub open spec fn tensors_view(ts: Seq<TensorInfo>) -> Seq<SpecTensorInfo> {
    Seq::new(ts.len(), |i: int| ts[i]@)
}

impl View for GgufFile {
    type V = SpecGgufFile;

    open spec fn view(&self) -> SpecGgufFile {
        SpecGgufFile {
            version: self.version,
            metadata: metadata_view(self.metadata@),
            tensors: tensors_view(self.tensors@),
            tensor_data_offset: self.tensor_data_offset,
        }
    }
}

/// Why a byte sequence is not a readable GGUF header.
#[derive(Debug, Clone, Copy, PartialEq, Eq, Structural)]
pub enum GgufError {
    /// The bytes end before the header does.
    UnexpectedEof,
    /// The first four bytes are not `GGUF`.
    BadMagic,
    /// A metadata value carries a type id outside 0..=12.
    UnknownValueType(u32),
    /// A string's bytes are not valid UTF-8.
    InvalidUtf8,
    /// The `general.alignment` metadata value is zero.
    ZeroAlignment,
}

// ---------------------------------------------------------------------------
// The format, stated over byte sequences.
// Every number is little-endian. Each reader takes a position and returns the
// value read together with the position just past it.
// ---------------------------------------------------------------------------

/// The little-endian number in the bytes at `p`.
pub open spec fn le_u16(b: Seq<u8>, p: int) -> u16 {
    (b[p] as int + b[p + 1] as int * 0x100) as u16
}

/// The little-endian number in the bytes at `p`.
pub open spec fn le_u32(b: Seq<u8>, p: int) -> u32 {
    (b[p] as int + b[p + 1] as int * 0x100 + b[p + 2] as int * 0x1_0000 + b[p + 3] as int
        * 0x100_0000) as u32
}

/// The little-endian number in the bytes at `p`.
pub open spec fn le_u64(b: Seq<u8>, p: int) -> u64 {
    (le_u32(b, p) as int + le_u32(b, p + 4) as int * 0x1_0000_0000) as u64
}

/// One byte at `p`, or `UnexpectedEof` past the end.
pub open spec fn spec_read_u8(b: Seq<u8>, p: int) -> Result<(u8, int), GgufError> {
    if p + 1 <= b.len() {
        Ok((b[p], p + 1))
    } else {
        Err(GgufError::UnexpectedEof)
    }
}

/// A little-endian `u16` at `p`, or `UnexpectedEof` past the end.
pub open spec fn spec_read_u16(b: Seq<u8>, p: int) -> Result<(u16, int), GgufError> {
    if p + 2 <= b.len() {
        Ok((le_u16(b, p), p + 2))
    } else {
        Err(GgufError::UnexpectedEof)
    }
}

/// A little-endian `u32` at `p`, or `UnexpectedEof` past the end.
pub open spec fn spec_read_u32(b: Seq<u8>, p: int) -> Result<(u32, int), GgufError> {
    if p + 4 <= b.len() {
        Ok((le_u32(b, p), p + 4))
    } else {
        Err(GgufError::UnexpectedEof)
    }
}

/// A little-endian `u64` at `p`, or `UnexpectedEof` past the end.
pub open spec fn spec_read_u64(b: Seq<u8>, p: int) -> Result<(u64, int), GgufError> {
    if p + 8 <= b.len() {
        Ok((le_u64(b, p), p + 8))
    } else {
        Err(GgufError::UnexpectedEof)
    }
}

/// A string is a `u64` byte length followed by that many bytes of UTF-8.
pub open spec fn spec_read_string(b: Seq<u8>, p: int) -> Result<(Seq<char>, int), GgufError> {
    if p + 8 <= b.len() {
        let n = le_u64(b, p) as int;
        if p + 8 + n <= b.len() {
            let bytes = b.subrange(p + 8, p + 8 + n);
            if valid_utf8(bytes) {
                Ok((decode_utf8(bytes), p + 8 + n))
            } else {
                Err(GgufError::InvalidUtf8)
            }
        } else {
            Err(GgufError::UnexpectedEof)
        }
    } else {
        Err(GgufError::UnexpectedEof)
    }
}

/// One metadata value of type `ty` at position `p`. An array is an element
/// type id (`u32`), a count (`u64`) and that many values of the element type.
pub open spec fn spec_read_value(b: Seq<u8>, p: int, ty: u32) -> Result<(SpecValue, int), GgufError>
    decreases b.len() - p, 0int,
{
    if ty == 0 {
        match spec_read_u8(b, p) {
            Ok((x, q)) => Ok((SpecValue::U8(x), q)),
            Err(e) => Err(e),
        }
    } else if ty == 1 {
        match spec_read_u8(b, p) {
            Ok((x, q)) => Ok((SpecValue::I8(x as i8), q)),
            Err(e) => Err(e),
        }
    } else if ty == 2 {
        match spec_read_u16(b, p) {
            Ok((x, q)) => Ok((SpecValue::U16(x), q)),
            Err(e) => Err(e),
        }
    } else if ty == 3 {
        match spec_read_u16(b, p) {
            Ok((x, q)) => Ok((SpecValue::I16(x as i16), q)),
            Err(e) => Err(e),
        }
    } else if ty == 4 {
        match spec_read_u32(b, p) {
            Ok((x, q)) => Ok((SpecValue::U32(x), q)),
            Err(e) => Err(e),
        }
    } else if ty == 5 {
        match spec_read_u32(b, p) {
            Ok((x, q)) => Ok((SpecValue::I32(x as i32), q)),
            Err(e) => Err(e),
        }
    } else if ty == 6 {
        match spec_read_u32(b, p) {
            Ok((x, q)) => Ok((SpecValue::F32(x), q)),
            Err(e) => Err(e),
        }
    } else if ty == 7 {
        match spec_read_u8(b, p) {
            Ok((x, q)) => Ok((SpecValue::Bool(x != 0), q)),
            Err(e) => Err(e),
        }
    } else if ty == 8 {
        match spec_read_string(b, p) {
            Ok((s, q)) => Ok((SpecValue::Str(s), q)),
            Err(e) => Err(e),
        }
    } else if ty == 9 {
        if p + 12 <= b.len() {
            match spec_read_elements(b, p + 12, le_u32(b, p), le_u64(b, p + 4) as nat, seq![]) {
                Ok((items, q)) => Ok((SpecValue::Array(items), q)),
                Err(e) => Err(e),
            }
        } else {
            Err(GgufError::UnexpectedEof)
        }
    } else if ty == 10 {
        match spec_read_u64(b, p) {
            Ok((x, q)) => Ok((SpecValue::U64(x), q)),
            Err(e) => Err(e),
        }
    } else if ty == 11 {
        match spec_read_u64(b, p) {
            Ok((x, q)) => Ok((SpecValue::I64(x as i64), q)),
            Err(e) => Err(e),
        }
    } else if ty == 12 {
        match spec_read_u64(b, p) {
            Ok((x, q)) => Ok((SpecValue::F64(x), q)),
            Err(e) => Err(e),
        }
    } else {
        Err(GgufError::UnknownValueType(ty))
    }
}

/// `n` further array elements of type `ty`, appended to `acc`.
pub open spec fn spec_read_elements(b: Seq<u8>, p: int, ty: u32, n: nat, acc: Seq<SpecValue>) -> Result<
    (Seq<SpecValue>, int),
    GgufError,
>
    decreases b.len() - p, 1int,
{
    if n == 0 {
        Ok((acc, p))
    } else {
        match spec_read_value(b, p, ty) {
            Ok((v, q)) => if p < q <= b.len() {
                spec_read_elements(b, q, ty, (n - 1) as nat, acc.push(v))
            } else {
                Err(GgufError::UnexpectedEof)
            },
            Err(e) => Err(e),
        }
    }
}

/// `n` further metadata entries (key string, value type id, value), appended to `acc`.
pub open spec fn spec_read_metadata(
    b: Seq<u8>,
    p: int,
    n: nat,
    acc: Seq<(Seq<char>, SpecValue)>,
) -> Result<(Seq<(Seq<char>, SpecValue)>, int), GgufError>
    decreases n,
{
    if n == 0 {
        Ok((acc, p))
    } else {
        match spec_read_string(b, p) {
            Err(e) => Err(e),
            Ok((key, q1)) => match spec_read_u32(b, q1) {
                Err(e) => Err(e),
                Ok((ty, q2)) => match spec_read_value(b, q2, ty) {
                    Err(e) => Err(e),
                    Ok((v, q3)) => spec_read_metadata(b, q3, (n - 1) as nat, acc.push((key, v))),
                },
            },
        }
    }
}

/// `n` further `u64` dimensions, appended to `acc`.
pub open spec fn spec_read_dims(b: Seq<u8>, p: int, n: nat, acc: Seq<u64>) -> Result<
    (Seq<u64>, int),
    GgufError,
>
    decreases n,
{
    if n == 0 {
        Ok((acc, p))
    } else {
        match spec_read_u64(b, p) {
            Err(e) => Err(e),
            Ok((d, q)) => spec_read_dims(b, q, (n - 1) as nat, acc.push(d)),
        }
    }
}

/// One tensor descriptor: name, `u32` rank, the dimensions, `u32` type id, `u64` offset.
pub open spec fn spec_read_tensor_info(b: Seq<u8>, p: int) -> Result<(SpecTensorInfo, int), GgufError> {
    match spec_read_string(b, p) {
        Err(e) => Err(e),
        Ok((name, q1)) => match spec_read_u32(b, q1) {
            Err(e) => Err(e),
            Ok((n_dims, q2)) => match spec_read_dims(b, q2, n_dims as nat, seq![]) {
                Err(e) => Err(e),
                Ok((dims, q3)) => match spec_read_u32(b, q3) {
                    Err(e) => Err(e),
                    Ok((dtype, q4)) => match spec_read_u64(b, q4) {
                        Err(e) => Err(e),
                        Ok((offset, q5)) => Ok(
                            (SpecTensorInfo { name, dims, dtype, offset }, q5),
                        ),
                    },
                },
            },
        },
    }
}

/// `n` further tensor descriptors, appended to `acc`.
pub open spec fn spec_read_tensors(b: Seq<u8>, p: int, n: nat, acc: Seq<SpecTensorInfo>) -> Result<
    (Seq<SpecTensorInfo>, int),
    GgufError,
>
    decreases n,
{
    if n == 0 {
        Ok((acc, p))
    } else {
        match spec_read_tensor_info(b, p) {
            Err(e) => Err(e),
            Ok((t, q)) => spec_read_tensors(b, q, (n - 1) as nat, acc.push(t)),
        }
    }
}

/// The value of the first metadata entry whose key is `key`, if any.
pub open spec fn metadata_lookup(md: Seq<(Seq<char>, SpecValue)>, key: Seq<char>) -> Option<
    SpecValue,
>
    decreases md.len(),
{
    if md.len() == 0 {
        None
    } else if md[0].0 == key {
        Some(md[0].1)
    } else {
        metadata_lookup(md.drop_first(), key)
    }
}

/// The metadata key of the tensor-data alignment.
pub open spec fn alignment_key() -> Seq<char> {
    seq!['g', 'e', 'n', 'e', 'r', 'a', 'l', '.', 'a', 'l', 'i', 'g', 'n', 'm', 'e', 'n', 't']
}

/// The alignment of the tensor-data section: the `general.alignment` value
/// when the first entry with that key is a `u32`, else 32.
pub open spec fn spec_alignment(md: Seq<(Seq<char>, SpecValue)>) -> u64 {
    match metadata_lookup(md, alignment_key()) {
        Some(SpecValue::U32(n)) => n as u64,
        _ => 32,
    }
}

/// The smallest multiple of `a` that is at least `x`.
pub open spec fn round_up(x: int, a: int) -> int {
    ((x + a - 1) / a) * a
}

/// The four bytes every GGUF file starts with: `GGUF`.
pub open spec fn gguf_magic() -> Seq<u8> {
    seq![0x47u8, 0x47u8, 0x55u8, 0x46u8]
}

/// The header of a GGUF file: `GGUF`, `u32` version, `u64` tensor count,
/// `u64` metadata count, the metadata entries, the tensor descriptors; the
/// tensor data starts at the next multiple of the alignment.
pub open spec fn spec_parse(b: Seq<u8>) -> Result<SpecGgufFile, GgufError> {
    if b.len() < 4 {
        Err(GgufError::UnexpectedEof)
    } else if b.subrange(0, 4) != gguf_magic() {
        Err(GgufError::BadMagic)
    } else if b.len() < 24 {
        Err(GgufError::UnexpectedEof)
    } else {
        let version = le_u32(b, 4);
        let tensor_count = le_u64(b, 8);
        let metadata_count = le_u64(b, 16);
        match spec_read_metadata(b, 24, metadata_count as nat, seq![]) {
            Err(e) => Err(e),
            Ok((metadata, q1)) => match spec_read_tensors(b, q1, tensor_count as nat, seq![]) {
                Err(e) => Err(e),
                Ok((tensors, q2)) => {
                    let a = spec_alignment(metadata);
                    if a == 0 {
                        Err(GgufError::ZeroAlignment)
                    } else {
                        Ok(
                            SpecGgufFile {
                                version,
                                metadata,
                                tensors,
                                tensor_data_offset: round_up(q2, a as int) as u64,
                            },
                        )
                    }
                },
            },
        }
    }
}

// ---------------------------------------------------------------------------
// The reader.
// ---------------------------------------------------------------------------

/// Decodes UTF-8 through `String::from_utf8`.
///
/// Claims what std documents: the result is `Some` exactly when the bytes
/// are valid UTF-8, and then holds the characters they encode.
#[verifier::external_body]
fn string_from_utf8(bytes: Vec<u8>) -> (r: Option<String>)
    ensures
        r is Some <==> valid_utf8(bytes@),
        r matches Some(s) ==> s@ == decode_utf8(bytes@),
{
    String::from_utf8(bytes).ok()
}

fn read_u8(data: &[u8], p: usize) -> (r: Result<(u8, usize), GgufError>)
    requires
        p <= data@.len(),
    ensures
        r matches Ok((x, q)) ==> spec_read_u8(data@, p as int) == Ok::<(u8, int), GgufError>(
            (x, q as int),
        ) && q <= data@.len(),
        r matches Err(e) ==> spec_read_u8(data@, p as int) == Err::<(u8, int), GgufError>(e),
{
    if data.len() - p < 1 {
        Err(GgufError::UnexpectedEof)
    } else {
        Ok((data[p], p + 1))
    }
}

fn read_u16(data: &[u8], p: usize) -> (r: Result<(u16, usize), GgufError>)
    requires
        p <= data@.len(),
    ensures
        r matches Ok((x, q)) ==> spec_read_u16(data@, p as int) == Ok::<(u16, int), GgufError>(
            (x, q as int),
        ) && q <= data@.len(),
        r matches Err(e) ==> spec_read_u16(data@, p as int) == Err::<(u16, int), GgufError>(e),
{
    if data.len() - p < 2 {
        Err(GgufError::UnexpectedEof)
    } else {
        let x: u16 = data[p] as u16 + (data[p + 1] as u16) * 0x100;
        Ok((x, p + 2))
    }
}

fn read_u32(data: &[u8], p: usize) -> (r: Result<(u32, usize), GgufError>)
    requires
        p <= data@.len(),
    ensures
        r matches Ok((x, q)) ==> spec_read_u32(data@, p as int) == Ok::<(u32, int), GgufError>(
            (x, q as int),
        ) && q <= data@.len(),
        r matches Err(e) ==> spec_read_u32(data@, p as int) == Err::<(u32, int), GgufError>(e),
{
    if data.len() - p < 4 {
        Err(GgufError::UnexpectedEof)
    } else {
        let x: u32 = data[p] as u32 + (data[p + 1] as u32) * 0x100 + (data[p + 2] as u32)
            * 0x1_0000 + (data[p + 3] as u32) * 0x100_0000;
        Ok((x, p + 4))
    }
}

fn read_u64(data: &[u8], p: usize) -> (r: Result<(u64, usize), GgufError>)
    requires
        p <= data@.len(),
    ensures
        r matches Ok((x, q)) ==> spec_read_u64(data@, p as int) == Ok::<(u64, int), GgufError>(
            (x, q as int),
        ) && q <= data@.len(),
        r matches Err(e) ==> spec_read_u64(data@, p as int) == Err::<(u64, int), GgufError>(e),
{
    if data.len() - p < 8 {
        Err(GgufError::UnexpectedEof)
    } else {
        let lo = match read_u32(data, p) {
            Ok((x, _)) => x,
            Err(e) => { return Err(e); },
        };
        let hi = match read_u32(data, p + 4) {
            Ok((x, _)) => x,
            Err(e) => { return Err(e); },
        };
        let x: u64 = lo as u64 + (hi as u64) * 0x1_0000_0000;
        Ok((x, p + 8))
    }
}

fn read_string(data: &[u8], p: usize) -> (r: Result<(String, usize), GgufError>)
    requires
        p <= data@.len(),
    ensures
        r matches Ok((s, q)) ==> spec_read_string(data@, p as int) == Ok::<(Seq<char>, int), GgufError>(
            (s@, q as int),
        ) && q <= data@.len(),
        r matches Err(e) ==> spec_read_string(data@, p as int) == Err::<(Seq<char>, int), GgufError>(e),
{
    let (n, q) = match read_u64(data, p) {
        Ok(x) => x,
        Err(e) => { return Err(e); },
    };
    if n > (data.len() - q) as u64 {
        return Err(GgufError::UnexpectedEof);
    }
    let n = n as usize;
    let mut bytes: Vec<u8> = Vec::with_capacity(n);
    let mut i: usize = 0;
    while i < n
        invariant
            q + n <= data.len(),
            i <= n,
            bytes@ =~= data@.subrange(q as int, q + i),
        decreases n - i,
    {
        bytes.push(data[q + i]);
        i = i + 1;
    }
    match string_from_utf8(bytes) {
        Some(s) => Ok((s, q + n)),
        None => Err(GgufError::InvalidUtf8),
    }
}


fn read_value(data: &[u8], p: usize, ty: u32) -> (r: Result<(GgufValue, usize), GgufError>)
    requires
        p <= data@.len(),
    ensures
        r matches Ok((v, q)) ==> spec_read_value(data@, p as int, ty) == Ok::<
            (SpecValue, int),
            GgufError,
        >((v@, q as int)) && p < q <= data@.len(),
        r matches Err(e) ==> spec_read_value(data@, p as int, ty) == Err::<(SpecValue, int), GgufError>(
            e,
        ),
    decreases data@.len() - p, 0int,
{
    if ty == 0 {
        match read_u8(data, p) {
            Ok((x, q)) => Ok((GgufValue::U8(x), q)),
            Err(e) => Err(e),
        }
    } else if ty == 1 {
        match read_u8(data, p) {
            Ok((x, q)) => Ok((GgufValue::I8(x as i8), q)),
            Err(e) => Err(e),
        }
    } else if ty == 2 {
        match read_u16(data, p) {
            Ok((x, q)) => Ok((GgufValue::U16(x), q)),
            Err(e) => Err(e),
        }
    } else if ty == 3 {
        match read_u16(data, p) {
            Ok((x, q)) => Ok((GgufValue::I16(x as i16), q)),
            Err(e) => Err(e),
        }
    } else if ty == 4 {
        match read_u32(data, p) {
            Ok((x, q)) => Ok((GgufValue::U32(x), q)),
            Err(e) => Err(e),
        }
    } else if ty == 5 {
        match read_u32(data, p) {
            Ok((x, q)) => Ok((GgufValue::I32(x as i32), q)),
            Err(e) => Err(e),
        }
    } else if ty == 6 {
        match read_u32(data, p) {
            Ok((x, q)) => Ok((GgufValue::F32(x), q)),
            Err(e) => Err(e),
        }
    } else if ty == 7 {
        match read_u8(data, p) {
            Ok((x, q)) => Ok((GgufValue::Bool(x != 0), q)),
            Err(e) => Err(e),
        }
    } else if ty == 8 {
        match read_string(data, p) {
            Ok((s, q)) => {
                proof {
                    assert(q > p);
                }
                Ok((GgufValue::String(s), q))
            },
            Err(e) => Err(e),
        }
    } else if ty == 9 {
        read_array(data, p)
    } else if ty == 10 {
        match read_u64(data, p) {
            Ok((x, q)) => Ok((GgufValue::U64(x), q)),
            Err(e) => Err(e),
        }
    } else if ty == 11 {
        match read_u64(data, p) {
            Ok((x, q)) => Ok((GgufValue::I64(x as i64), q)),
            Err(e) => Err(e),
        }
    } else if ty == 12 {
        match read_u64(data, p) {
            Ok((x, q)) => Ok((GgufValue::F64(x), q)),
            Err(e) => Err(e),
        }
    } else {
        Err(GgufError::UnknownValueType(ty))
    }
}

/// Reads an array value: element type, count, then the elements.
fn read_array(data: &[u8], p: usize) -> (r: Result<(GgufValue, usize), GgufError>)
    requires
        p <= data@.len(),
    ensures
        r matches Ok((v, q)) ==> spec_read_value(data@, p as int, 9) == Ok::<
            (SpecValue, int),
            GgufError,
        >((v@, q as int)) && p < q <= data@.len(),
        r matches Err(e) ==> spec_read_value(data@, p as int, 9) == Err::<(SpecValue, int), GgufError>(
            e,
        ),
    decreases data@.len() - p, 0int, 1int,
{
    if data.len() - p < 12 {
        return Err(GgufError::UnexpectedEof);
    }
    let elem_type = match read_u32(data, p) {
        Ok((x, _)) => x,
        Err(e) => { return Err(e); },
    };
    let count = match read_u64(data, p + 4) {
        Ok((x, _)) => x,
        Err(e) => { return Err(e); },
    };
    let ghost start = (p + 12) as int;
    let mut items: Vec<GgufValue> = Vec::new();
    let mut q: usize = p + 12;
    let mut i: u64 = 0;
    proof {
        assert(values_view(items@) =~= seq![]);
    }
    while i < count
        invariant
            p + 12 <= q <= data@.len(),
            i <= count,
            elem_type == le_u32(data@, p as int),
            count == le_u64(data@, p + 4),
            start == p + 12,
            spec_read_elements(data@, start, elem_type, count as nat, seq![])
                == spec_read_elements(
                data@,
                q as int,
                elem_type,
                (count - i) as nat,
                values_view(items@),
            ),
        decreases count - i,
    {
        let (v, q2) = match read_value(data, q, elem_type) {
            Ok(x) => x,
            Err(e) => { return Err(e); },
        };
        proof {
            assert(values_view(items@.push(v)) =~= values_view(items@).push(v@));
        }
        items.push(v);
        q = q2;
        i = i + 1;
    }
    let ghost items_view = values_view(items@);
    let value = GgufValue::Array(items);
    proof {
        assert(value@ == SpecValue::Array(items_view)) by {
            if let SpecValue::Array(s) = value@ {
                assert(s =~= items_view);
            }
        }
    }
    Ok((value, q))
}

/// The value of the first entry of `metadata` whose key is `key`.
fn lookup_metadata<'a>(metadata: &'a Vec<(String, GgufValue)>, key: &str) -> (r: Option<
    &'a GgufValue,
>)
    ensures
        r matches Some(v) ==> metadata_lookup(metadata_view(metadata@), key@) == Some(v@),
        r is None ==> metadata_lookup(metadata_view(metadata@), key@) is None,
{
    let target: String = key.to_owned();
    let ghost md = metadata_view(metadata@);
    let mut i: usize = 0;
    proof {
        assert(md.subrange(0, md.len() as int) =~= md);
    }
    while i < metadata.len()
        invariant
            i <= metadata@.len(),
            md == metadata_view(metadata@),
            target@ == key@,
            metadata_lookup(md, key@) == metadata_lookup(md.subrange(i as int, md.len() as int), key@),
        decreases metadata.len() - i,
    {
        proof {
            let rest = md.subrange(i as int, md.len() as int);
            assert(rest[0] == md[i as int]);
            assert(rest.drop_first() =~= md.subrange(i + 1, md.len() as int));
        }
        if metadata[i].0 == target {
            return Some(&metadata[i].1);
        }
        i = i + 1;
    }
    None
}

impl GgufFile {
    /// The value of the first metadata entry whose key is `key`.
    pub fn find_metadata(&self, key: &str) -> (r: Option<&GgufValue>)
        ensures
            r matches Some(v) ==> metadata_lookup(self@.metadata, key@) == Some(v@),
            r is None ==> metadata_lookup(self@.metadata, key@) is None,
    {
        lookup_metadata(&self.metadata, key)
    }
}

fn read_tensor_info(data: &[u8], p: usize) -> (r: Result<(TensorInfo, usize), GgufError>)
    requires
        p <= data@.len(),
    ensures
        r matches Ok((t, q)) ==> spec_read_tensor_info(data@, p as int) == Ok::<
            (SpecTensorInfo, int),
            GgufError,
        >((t@, q as int)) && q <= data@.len(),
        r matches Err(e) ==> spec_read_tensor_info(data@, p as int) == Err::<
            (SpecTensorInfo, int),
            GgufError,
        >(e),
{
    let (name, q1) = match read_string(data, p) {
        Ok(x) => x,
        Err(e) => { return Err(e); },
    };
    let (n_dims, q2) = match read_u32(data, q1) {
        Ok(x) => x,
        Err(e) => { return Err(e); },
    };
    let mut dims: Vec<u64> = Vec::new();
    let mut q: usize = q2;
    let mut i: u32 = 0;
    while i < n_dims
        invariant
            q <= data@.len(),
            i <= n_dims,
            spec_read_string(data@, p as int) == Ok::<(Seq<char>, int), GgufError>((name@, q1 as int)),
            spec_read_u32(data@, q1 as int) == Ok::<(u32, int), GgufError>((n_dims, q2 as int)),
            spec_read_dims(data@, q2 as int, n_dims as nat, seq![]) == spec_read_dims(
                data@,
                q as int,
                (n_dims - i) as nat,
                dims@,
            ),
        decreases n_dims - i,
    {
        let (d, q3) = match read_u64(data, q) {
            Ok(x) => x,
            Err(e) => { return Err(e); },
        };
        dims.push(d);
        q = q3;
        i = i + 1;
    }
    let (dtype, q4) = match read_u32(data, q) {
        Ok(x) => x,
        Err(e) => { return Err(e); },
    };
    let (offset, q5) = match read_u64(data, q4) {
        Ok(x) => x,
        Err(e) => { return Err(e); },
    };
    Ok((TensorInfo { name, dims, dtype, offset }, q5))
}

/// The metadata entries that start right after the fixed header.
fn read_metadata(data: &[u8], count: u64) -> (r: Result<(Vec<(String, GgufValue)>, usize), GgufError>)
    requires
        24 <= data@.len(),
    ensures
        r matches Ok((md, q)) ==> spec_read_metadata(data@, 24, count as nat, seq![]) == Ok::<
            (Seq<(Seq<char>, SpecValue)>, int),
            GgufError,
        >((metadata_view(md@), q as int)) && q <= data@.len(),
        r matches Err(e) ==> spec_read_metadata(data@, 24, count as nat, seq![]) == Err::<
            (Seq<(Seq<char>, SpecValue)>, int),
            GgufError,
        >(e),
{
    let mut metadata: Vec<(String, GgufValue)> = Vec::new();
    let mut q: usize = 24;
    let mut i: u64 = 0;
    proof {
        assert(metadata_view(metadata@) =~= seq![]);
    }
    while i < count
        invariant
            q <= data@.len(),
            i <= count,
            spec_read_metadata(data@, 24, count as nat, seq![]) == spec_read_metadata(
                data@,
                q as int,
                (count - i) as nat,
                metadata_view(metadata@),
            ),
        decreases count - i,
    {
        let (key, q1) = match read_string(data, q) {
            Ok(x) => x,
            Err(e) => { return Err(e); },
        };
        let (value_type, q2) = match read_u32(data, q1) {
            Ok(x) => x,
            Err(e) => { return Err(e); },
        };
        let (value, q3) = match read_value(data, q2, value_type) {
            Ok(x) => x,
            Err(e) => { return Err(e); },
        };
        let ghost entry = (key@, value@);
        let ghost old_md = metadata@;
        metadata.push((key, value));
        proof {
            assert(metadata_view(metadata@) =~= metadata_view(old_md).push(entry));
        }
        q = q3;
        i = i + 1;
    }
    Ok((metadata, q))
}

/// The `count` tensor descriptors that start at `start`.
fn read_tensor_infos(data: &[u8], start: usize, count: u64) -> (r: Result<
    (Vec<TensorInfo>, usize),
    GgufError,
>)
    requires
        start <= data@.len(),
    ensures
        r matches Ok((ts, q)) ==> spec_read_tensors(data@, start as int, count as nat, seq![])
            == Ok::<(Seq<SpecTensorInfo>, int), GgufError>((tensors_view(ts@), q as int)) && q
            <= data@.len(),
        r matches Err(e) ==> spec_read_tensors(data@, start as int, count as nat, seq![]) == Err::<
            (Seq<SpecTensorInfo>, int),
            GgufError,
        >(e),
{
    let mut tensors: Vec<TensorInfo> = Vec::new();
    let mut q: usize = start;
    let mut j: u64 = 0;
    proof {
        assert(tensors_view(tensors@) =~= seq![]);
    }
    while j < count
        invariant
            q <= data@.len(),
            j <= count,
            spec_read_tensors(data@, start as int, count as nat, seq![]) == spec_read_tensors(
                data@,
                q as int,
                (count - j) as nat,
                tensors_view(tensors@),
            ),
        decreases count - j,
    {
        let (t, q1) = match read_tensor_info(data, q) {
            Ok(x) => x,
            Err(e) => { return Err(e); },
        };
        let ghost tv = t@;
        let ghost old_ts = tensors@;
        tensors.push(t);
        proof {
            assert(tensors_view(tensors@) =~= tensors_view(old_ts).push(tv));
        }
        q = q1;
        j = j + 1;
    }
    Ok((tensors, q))
}

/// Reads the table of contents of a GGUF file from the bytes at its start
/// ([`spec_parse`]). The bytes may end too early, which is reported as
/// [`GgufError::UnexpectedEof`], but what they hold must be a GGUF header:
/// no other error may be met reading them ([`try_parse`] checks it).
pub fn parse(data: &[u8]) -> (r: Result<GgufFile, GgufError>)
    requires
        data@.len() <= isize::MAX,
        spec_parse(data@) matches Err(e) ==> e == GgufError::UnexpectedEof,
    ensures
        r matches Ok(f) ==> spec_parse(data@) == Ok::<SpecGgufFile, GgufError>(f@),
        r matches Err(e) ==> spec_parse(data@) == Err::<SpecGgufFile, GgufError>(e),
{
    try_parse(data)
}

/// Reads the table of contents of a GGUF file from the bytes at its start:
/// the check for [`parse`].
///
/// The result is exactly what [`spec_parse`] gives for these bytes: the
/// header fields, every metadata entry and tensor descriptor in file order,
/// and the tensor-data offset, or the first error met reading them in order.
/// Bytes after the header are never read.
#[verifier::spinoff_prover]
#[verifier::rlimit(40)]
pub fn try_parse(data: &[u8]) -> (r: Result<GgufFile, GgufError>)
    requires
        data@.len() <= isize::MAX,
    ensures
        r matches Ok(f) ==> spec_parse(data@) == Ok::<SpecGgufFile, GgufError>(f@),
        r matches Err(e) ==> spec_parse(data@) == Err::<SpecGgufFile, GgufError>(e),
{
    if data.len() < 4 {
        return Err(GgufError::UnexpectedEof);
    }
    if !(data[0] == 0x47 && data[1] == 0x47 && data[2] == 0x55 && data[3] == 0x46) {
        proof {
            if data@.subrange(0, 4) == gguf_magic() {
                assert(data@.subrange(0, 4)[0] == data@[0]);
                assert(data@.subrange(0, 4)[1] == data@[1]);
                assert(data@.subrange(0, 4)[2] == data@[2]);
                assert(data@.subrange(0, 4)[3] == data@[3]);
            }
        }
        return Err(GgufError::BadMagic);
    }
    proof {
        assert(data@.subrange(0, 4) =~= gguf_magic());
    }
    if data.len() < 24 {
        return Err(GgufError::UnexpectedEof);
    }
    let (version, _) = match read_u32(data, 4) {
        Ok(x) => x,
        Err(e) => { return Err(e); },
    };
    let (tensor_count, _) = match read_u64(data, 8) {
        Ok(x) => x,
        Err(e) => { return Err(e); },
    };
    let (metadata_count, _) = match read_u64(data, 16) {
        Ok(x) => x,
        Err(e) => { return Err(e); },
    };

    let (metadata, q1) = match read_metadata(data, metadata_count) {
        Ok(x) => x,
        Err(e) => { return Err(e); },
    };
    let (tensors, q) = match read_tensor_infos(data, q1, tensor_count) {
        Ok(x) => x,
        Err(e) => { return Err(e); },
    };

    let alignment: u64 = match lookup_metadata(&metadata, "general.alignment") {
        Some(GgufValue::U32(n)) => *n as u64,
        _ => 32,
    };
    proof {
        reveal_strlit("general.alignment");
        assert("general.alignment"@ =~= alignment_key());
    }
    if alignment == 0 {
        return Err(GgufError::ZeroAlignment);
    }
    let pos: u64 = q as u64;
    let t: u64 = pos + (alignment - 1);
    proof {
        assert((t / alignment) * alignment <= t) by (nonlinear_arith)
            requires
                alignment > 0,
        ;
    }
    let tensor_data_offset: u64 = (t / alignment) * alignment;
    Ok(GgufFile { version, metadata, tensors, tensor_data_offset })
}

// ---------------------------------------------------------------------------
// Laws of the format.
// ---------------------------------------------------------------------------

proof fn lemma_subrange_of_extended(b: Seq<u8>, e: Seq<u8>, lo: int, hi: int)
    requires
        0 <= lo <= hi <= b.len(),
    ensures
        (b + e).subrange(lo, hi) == b.subrange(lo, hi),
{
    assert((b + e).subrange(lo, hi) =~= b.subrange(lo, hi));
}

proof fn lemma_string_extended(b: Seq<u8>, e: Seq<u8>, p: int)
    requires
        0 <= p,
        spec_read_string(b, p) is Ok,
    ensures
        spec_read_string(b + e, p) == spec_read_string(b, p),
        spec_read_string(b, p)->Ok_0.1 <= b.len(),
{
    let n = le_u64(b, p) as int;
    assert(le_u64(b + e, p) == le_u64(b, p));
    lemma_subrange_of_extended(b, e, p + 8, p + 8 + n);
}

proof fn lemma_value_extended(b: Seq<u8>, e: Seq<u8>, p: int, ty: u32)
    requires
        0 <= p,
        spec_read_value(b, p, ty) is Ok,
    ensures
        spec_read_value(b + e, p, ty) == spec_read_value(b, p, ty),
        spec_read_value(b, p, ty)->Ok_0.1 <= b.len(),
    decreases b.len() - p, 0int,
{
    if ty == 8 {
        lemma_string_extended(b, e, p);
    } else if ty == 9 {
        assert(le_u32(b + e, p) == le_u32(b, p));
        assert(le_u64(b + e, p + 4) == le_u64(b, p + 4));
        lemma_elements_extended(b, e, p + 12, le_u32(b, p), le_u64(b, p + 4) as nat, seq![]);
    } else if ty == 2 || ty == 3 {
        assert(le_u16(b + e, p) == le_u16(b, p));
    } else if ty == 4 || ty == 5 || ty == 6 {
        assert(le_u32(b + e, p) == le_u32(b, p));
    } else if ty == 10 || ty == 11 || ty == 12 {
        assert(le_u64(b + e, p) == le_u64(b, p));
    }
}

proof fn lemma_elements_extended(
    b: Seq<u8>,
    e: Seq<u8>,
    p: int,
    ty: u32,
    n: nat,
    acc: Seq<SpecValue>,
)
    requires
        0 <= p,
        spec_read_elements(b, p, ty, n, acc) is Ok,
    ensures
        spec_read_elements(b + e, p, ty, n, acc) == spec_read_elements(b, p, ty, n, acc),
        spec_read_elements(b, p, ty, n, acc)->Ok_0.1 <= b.len() || (n == 0 && p > b.len()),
    decreases b.len() - p, 1int,
{
    if n > 0 {
        lemma_value_extended(b, e, p, ty);
        let (v, q) = spec_read_value(b, p, ty)->Ok_0;
        lemma_elements_extended(b, e, q, ty, (n - 1) as nat, acc.push(v));
    }
}

proof fn lemma_metadata_extended(
    b: Seq<u8>,
    e: Seq<u8>,
    p: int,
    n: nat,
    acc: Seq<(Seq<char>, SpecValue)>,
)
    requires
        0 <= p <= b.len(),
        spec_read_metadata(b, p, n, acc) is Ok,
    ensures
        spec_read_metadata(b + e, p, n, acc) == spec_read_metadata(b, p, n, acc),
        spec_read_metadata(b, p, n, acc)->Ok_0.1 <= b.len(),
    decreases n,
{
    if n > 0 {
        lemma_string_extended(b, e, p);
        let (key, q1) = spec_read_string(b, p)->Ok_0;
        assert(le_u32(b + e, q1) == le_u32(b, q1));
        let (ty, q2) = spec_read_u32(b, q1)->Ok_0;
        lemma_value_extended(b, e, q2, ty);
        lemma_value_positions(b, q2, ty);
        let (v, q3) = spec_read_value(b, q2, ty)->Ok_0;
        lemma_metadata_extended(b, e, q3, (n - 1) as nat, acc.push((key, v)));
    }
}

proof fn lemma_dims_extended(b: Seq<u8>, e: Seq<u8>, p: int, n: nat, acc: Seq<u64>)
    requires
        0 <= p <= b.len(),
        spec_read_dims(b, p, n, acc) is Ok,
    ensures
        spec_read_dims(b + e, p, n, acc) == spec_read_dims(b, p, n, acc),
        spec_read_dims(b, p, n, acc)->Ok_0.1 <= b.len(),
    decreases n,
{
    if n > 0 {
        assert(le_u64(b + e, p) == le_u64(b, p));
        lemma_dims_extended(b, e, p + 8, (n - 1) as nat, acc.push(le_u64(b, p)));
    }
}

proof fn lemma_tensor_info_extended(b: Seq<u8>, e: Seq<u8>, p: int)
    requires
        0 <= p <= b.len(),
        spec_read_tensor_info(b, p) is Ok,
    ensures
        spec_read_tensor_info(b + e, p) == spec_read_tensor_info(b, p),
        p <= spec_read_tensor_info(b, p)->Ok_0.1 <= b.len(),
{
    lemma_string_extended(b, e, p);
    let (name, q1) = spec_read_string(b, p)->Ok_0;
    assert(le_u32(b + e, q1) == le_u32(b, q1));
    let (n_dims, q2) = spec_read_u32(b, q1)->Ok_0;
    lemma_dims_extended(b, e, q2, n_dims as nat, seq![]);
    lemma_dims_positions(b, q2, n_dims as nat, seq![]);
    let (dims, q3) = spec_read_dims(b, q2, n_dims as nat, seq![])->Ok_0;
    assert(le_u32(b + e, q3) == le_u32(b, q3));
    assert(le_u64(b + e, q3 + 4) == le_u64(b, q3 + 4));
}

proof fn lemma_tensors_extended(b: Seq<u8>, e: Seq<u8>, p: int, n: nat, acc: Seq<SpecTensorInfo>)
    requires
        0 <= p <= b.len(),
        spec_read_tensors(b, p, n, acc) is Ok,
    ensures
        spec_read_tensors(b + e, p, n, acc) == spec_read_tensors(b, p, n, acc),
        spec_read_tensors(b, p, n, acc)->Ok_0.1 <= b.len(),
    decreases n,
{
    if n > 0 {
        lemma_tensor_info_extended(b, e, p);
        let (t, q) = spec_read_tensor_info(b, p)->Ok_0;
        lemma_tensors_extended(b, e, q, (n - 1) as nat, acc.push(t));
    }
}

/// Parsing reads nothing past the header: bytes appended after a readable
/// header (the tensor data, or any other bytes) do not change what is read.
pub proof fn lemma_parse_ignores_trailing_bytes(b: Seq<u8>, e: Seq<u8>)
    requires
        spec_parse(b) is Ok,
    ensures
        spec_parse(b + e) == spec_parse(b),
{
    lemma_subrange_of_extended(b, e, 0, 4);
    assert(le_u32(b + e, 4) == le_u32(b, 4));
    assert(le_u64(b + e, 8) == le_u64(b, 8));
    assert(le_u64(b + e, 16) == le_u64(b, 16));
    let mc = le_u64(b, 16) as nat;
    let tc = le_u64(b, 8) as nat;
    lemma_metadata_extended(b, e, 24, mc, seq![]);
    let (md, q1) = spec_read_metadata(b, 24, mc, seq![])->Ok_0;
    assert(q1 >= 0) by {
        lemma_metadata_positions(b, 24, mc, seq![]);
    }
    lemma_tensors_extended(b, e, q1, tc, seq![]);
}

proof fn lemma_metadata_positions(b: Seq<u8>, p: int, n: nat, acc: Seq<(Seq<char>, SpecValue)>)
    requires
        0 <= p,
        spec_read_metadata(b, p, n, acc) is Ok,
    ensures
        spec_read_metadata(b, p, n, acc)->Ok_0.1 >= p,
    decreases n,
{
    if n > 0 {
        let (key, q1) = spec_read_string(b, p)->Ok_0;
        let (ty, q2) = spec_read_u32(b, q1)->Ok_0;
        lemma_value_positions(b, q2, ty);
        let (v, q3) = spec_read_value(b, q2, ty)->Ok_0;
        lemma_metadata_positions(b, q3, (n - 1) as nat, acc.push((key, v)));
    }
}

proof fn lemma_value_positions(b: Seq<u8>, p: int, ty: u32)
    requires
        0 <= p,
        spec_read_value(b, p, ty) is Ok,
    ensures
        spec_read_value(b, p, ty)->Ok_0.1 > p,
    decreases b.len() - p, 0int,
{
    if ty == 9 {
        lemma_elements_positions(b, p + 12, le_u32(b, p), le_u64(b, p + 4) as nat, seq![]);
    }
}

proof fn lemma_elements_positions(b: Seq<u8>, p: int, ty: u32, n: nat, acc: Seq<SpecValue>)
    requires
        0 <= p,
        spec_read_elements(b, p, ty, n, acc) is Ok,
    ensures
        spec_read_elements(b, p, ty, n, acc)->Ok_0.1 >= p,
    decreases b.len() - p, 1int,
{
    if n > 0 {
        let (v, q) = spec_read_value(b, p, ty)->Ok_0;
        lemma_elements_positions(b, q, ty, (n - 1) as nat, acc.push(v));
    }
}

/// The tensor data starts at a multiple of the alignment, at most
/// `alignment - 1` bytes past the end of the header (returned), and the
/// header lies within the bytes read.
pub proof fn lemma_tensor_data_offset_aligned(b: Seq<u8>) -> (end: int)
    requires
        b.len() <= isize::MAX,
        spec_parse(b) is Ok,
    ensures
        ({
            let f = spec_parse(b)->Ok_0;
            let a = spec_alignment(f.metadata) as int;
            &&& a > 0
            &&& 24 <= end <= b.len()
            &&& end <= f.tensor_data_offset < end + a
            &&& f.tensor_data_offset as int % a == 0
        }),
{
    let mc = le_u64(b, 16) as nat;
    let tc = le_u64(b, 8) as nat;
    lemma_metadata_extended(b, Seq::<u8>::empty(), 24, mc, seq![]);
    lemma_metadata_positions(b, 24, mc, seq![]);
    let (md, q1) = spec_read_metadata(b, 24, mc, seq![])->Ok_0;
    lemma_tensors_extended(b, Seq::<u8>::empty(), q1, tc, seq![]);
    lemma_tensors_positions(b, q1, tc, seq![]);
    let (ts, q2) = spec_read_tensors(b, q1, tc, seq![])->Ok_0;
    let a = spec_alignment(md) as int;
    let f = spec_parse(b)->Ok_0;
    assert(q2 <= b.len());
    let off = round_up(q2, a);
    assert(q2 <= off < q2 + a && off % a == 0) by (nonlinear_arith)
        requires
            a > 0,
            q2 >= 0,
            off == ((q2 + a - 1) / a) * a,
    {
        let d = (q2 + a - 1) / a;
        let m = (q2 + a - 1) % a;
        assert(q2 + a - 1 == d * a + m);
    }
    assert(f.tensor_data_offset == off);
    q2
}

proof fn lemma_tensors_positions(b: Seq<u8>, p: int, n: nat, acc: Seq<SpecTensorInfo>)
    requires
        0 <= p,
        spec_read_tensors(b, p, n, acc) is Ok,
    ensures
        spec_read_tensors(b, p, n, acc)->Ok_0.1 >= p,
    decreases n,
{
    if n > 0 {
        let (t, q) = spec_read_tensor_info(b, p)->Ok_0;
        let (name, q1) = spec_read_string(b, p)->Ok_0;
        let (n_dims, q2) = spec_read_u32(b, q1)->Ok_0;
        lemma_dims_positions(b, q2, n_dims as nat, seq![]);
        lemma_tensors_positions(b, q, (n - 1) as nat, acc.push(t));
    }
}

proof fn lemma_dims_positions(b: Seq<u8>, p: int, n: nat, acc: Seq<u64>)
    requires
        0 <= p,
        spec_read_dims(b, p, n, acc) is Ok,
    ensures
        spec_read_dims(b, p, n, acc)->Ok_0.1 >= p,
    decreases n,
{
    if n > 0 {
        lemma_dims_positions(b, p + 8, (n - 1) as nat, acc.push(le_u64(b, p)));
    }
}
} // verus!
