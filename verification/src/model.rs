//! The integer side of a Llama-style transformer: reading the model's shape
//! out of GGUF metadata, finding weight tensors by name, the embedding-table
//! and column-major batch layouts, and the bookkeeping of autoregressive
//! generation (which token goes where, and when to stop).
use vstd::prelude::*;

use crate::gguf::{GgufFile, GgufValue, SpecTensorInfo, SpecValue, metadata_lookup};
use crate::kv_cache::BatchKvCache;
use crate::text::{str_chars, string_from_chars};
use crate::tokenizer::hex_digits;

verus! {

/// The model's shape. `rms_eps_bits` is the IEEE-754 bit pattern of the
/// RMSNorm epsilon (an `f32`).
pub struct Config {
    pub hidden_size: usize,
    pub n_heads: usize,
    pub n_kv_heads: usize,
    pub head_dim: usize,
    pub n_layers: usize,
    pub vocab_size: usize,
    pub rms_eps_bits: u32,
}

/// The metadata entries the model's shape is read from.
#[derive(Debug, Clone, Copy, PartialEq, Eq, Structural)]
pub enum ConfigKey {
    /// `llama.embedding_length`
    EmbeddingLength,
    /// `llama.attention.head_count`
    HeadCount,
    /// `llama.attention.head_count_kv`
    HeadCountKv,
    /// `llama.rope.dimension_count`
    RopeDimensionCount,
    /// `llama.block_count`
    BlockCount,
    /// `llama.attention.layer_norm_rms_epsilon`
    RmsEpsilon,
}

/// Why the model's shape cannot be read.
#[derive(Debug, Clone, Copy, PartialEq, Eq, Structural)]
pub enum ModelError {
    /// No tensor has the requested name.
    TensorNotFound,
    /// The tensor with the requested name does not have exactly two dimensions.
    NotMatrix,
    /// The first entry with this key is missing or has the wrong type
    /// (`u32`, or `f32` for the epsilon).
    MissingKey(ConfigKey),
}

/// The metadata key of a [`ConfigKey`].
pub open spec fn config_key_name(k: ConfigKey) -> Seq<char> {
    match k {
        ConfigKey::EmbeddingLength => "llama.embedding_length"@,
        ConfigKey::HeadCount => "llama.attention.head_count"@,
        ConfigKey::HeadCountKv => "llama.attention.head_count_kv"@,
        ConfigKey::RopeDimensionCount => "llama.rope.dimension_count"@,
        ConfigKey::BlockCount => "llama.block_count"@,
        ConfigKey::RmsEpsilon => "llama.attention.layer_norm_rms_epsilon"@,
    }
}

/// The index of the first tensor named `name`.
pub open spec fn tensor_index(ts: Seq<SpecTensorInfo>, name: Seq<char>) -> Option<int>
    decreases ts.len(),
{
    if ts.len() == 0 {
        None
    } else if ts[0].name == name {
        Some(0)
    } else {
        match tensor_index(ts.drop_first(), name) {
            Some(i) => Some(i + 1),
            None => None,
        }
    }
}

/// The (in, out) dimensions of the first tensor named `name`, which must be
/// two-dimensional. GGUF stores 2-D weights as `[in_features, out_features]`.
pub open spec fn spec_dims2(ts: Seq<SpecTensorInfo>, name: Seq<char>) -> Result<
    (usize, usize),
    ModelError,
> {
    match tensor_index(ts, name) {
        None => Err(ModelError::TensorNotFound),
        Some(i) => if ts[i].dims.len() == 2 {
            Ok((ts[i].dims[0] as usize, ts[i].dims[1] as usize))
        } else {
            Err(ModelError::NotMatrix)
        },
    }
}

/// The `u32` stored under a key (its first entry).
pub open spec fn spec_config_u32(md: Seq<(Seq<char>, SpecValue)>, k: ConfigKey) -> Result<
    u32,
    ModelError,
> {
    match metadata_lookup(md, config_key_name(k)) {
        Some(SpecValue::U32(n)) => Ok(n),
        _ => Err(ModelError::MissingKey(k)),
    }
}

/// The bits of the `f32` stored under a key (its first entry).
pub open spec fn spec_config_f32_bits(md: Seq<(Seq<char>, SpecValue)>, k: ConfigKey) -> Result<
    u32,
    ModelError,
> {
    match metadata_lookup(md, config_key_name(k)) {
        Some(SpecValue::F32(n)) => Ok(n),
        _ => Err(ModelError::MissingKey(k)),
    }
}

/// The name of the token-embedding table.
pub open spec fn token_embd_name() -> Seq<char> {
    "token_embd.weight"@
}

/// The model's shape as GGUF metadata gives it: the vocabulary size is the
/// second dimension of `token_embd.weight`, the rest are metadata entries;
/// the first problem met, in that order, otherwise.
pub open spec fn spec_load_config(f: crate::gguf::SpecGgufFile) -> Result<Config, ModelError> {
    match spec_dims2(f.tensors, token_embd_name()) {
        Err(e) => Err(e),
        Ok((_, vocab_size)) => match spec_config_u32(f.metadata, ConfigKey::EmbeddingLength) {
            Err(e) => Err(e),
            Ok(hidden) => match spec_config_u32(f.metadata, ConfigKey::HeadCount) {
                Err(e) => Err(e),
                Ok(heads) => match spec_config_u32(f.metadata, ConfigKey::HeadCountKv) {
                    Err(e) => Err(e),
                    Ok(kv_heads) => match spec_config_u32(f.metadata, ConfigKey::RopeDimensionCount) {
                        Err(e) => Err(e),
                        Ok(head_dim) => match spec_config_u32(f.metadata, ConfigKey::BlockCount) {
                            Err(e) => Err(e),
                            Ok(layers) => match spec_config_f32_bits(
                                f.metadata,
                                ConfigKey::RmsEpsilon,
                            ) {
                                Err(e) => Err(e),
                                Ok(eps) => Ok(
                                    Config {
                                        hidden_size: hidden as usize,
                                        n_heads: heads as usize,
                                        n_kv_heads: kv_heads as usize,
                                        head_dim: head_dim as usize,
                                        n_layers: layers as usize,
                                        vocab_size,
                                        rms_eps_bits: eps,
                                    },
                                ),
                            },
                        },
                    },
                },
            },
        },
    }
}

/// The decimal digits of `n`, most significant first (`"0"` for zero).
pub open spec fn decimal(n: nat) -> Seq<char>
    decreases n,
{
    if n < 10 {
        seq![hex_digits()[n as int]]
    } else {
        decimal(n / 10).push(hex_digits()[(n % 10) as int])
    }
}

/// Whether `c` is one of the digits `0` to `9`.
pub open spec fn is_decimal_digit(c: char) -> bool {
    '0' <= c && c <= '9'
}

/// The number a string of decimal digits spells, most significant digit
/// first, each digit worth its distance from `0`.
pub open spec fn decimal_value(s: Seq<char>) -> int
    decreases s.len(),
{
    if s.len() == 0 {
        0
    } else {
        decimal_value(s.drop_last()) * 10 + (s.last() as int - '0' as int)
    }
}

proof fn lemma_digit_char(d: int)
    requires
        0 <= d < 10,
    ensures
        is_decimal_digit(hex_digits()[d]),
        hex_digits()[d] as int - '0' as int == d,
{
    let h = hex_digits();
    assert(h[0] == '0' && h[1] == '1' && h[2] == '2' && h[3] == '3' && h[4] == '4');
    assert(h[5] == '5' && h[6] == '6' && h[7] == '7' && h[8] == '8' && h[9] == '9');
}

/// `decimal(n)` is the base-10 numeral of `n`: at least one character, every
/// character a digit `0` to `9`, the digits read in base 10 give `n` back,
/// and it has no leading zero unless `n` is zero. So different numbers get
/// different numerals, and a block's tensor names carry its own number.
pub proof fn lemma_decimal_is_numeral(n: nat)
    ensures
        decimal(n).len() >= 1,
        forall|i: int| 0 <= i < decimal(n).len() ==> is_decimal_digit(#[trigger] decimal(n)[i]),
        decimal_value(decimal(n)) == n,
        n > 0 ==> decimal(n)[0] != '0',
    decreases n,
{
    if n < 10 {
        lemma_digit_char(n as int);
        let s = decimal(n);
        assert(s.drop_last() =~= Seq::<char>::empty());
        assert(decimal_value(s.drop_last()) == 0);
        assert(s.last() == hex_digits()[n as int]);
        assert(decimal_value(s) == decimal_value(s.drop_last()) * 10 + (s.last() as int - '0' as int));
    } else {
        let q = (n / 10) as nat;
        let d = (n % 10) as int;
        lemma_decimal_is_numeral(q);
        lemma_digit_char(d);
        let s = decimal(n);
        assert(s == decimal(q).push(hex_digits()[d]));
        assert(s.drop_last() =~= decimal(q));
        assert(s.last() == hex_digits()[d]);
        assert forall|i: int| 0 <= i < s.len() implies is_decimal_digit(#[trigger] s[i]) by {
            if i < s.len() - 1 {
                assert(s[i] == decimal(q)[i]);
            }
        }
        assert(s[0] == decimal(q)[0]);
        assert(decimal_value(s) == decimal_value(s.drop_last()) * 10 + (s.last() as int - '0' as int));
        assert(decimal_value(s) == q * 10 + d);
        assert(n == q * 10 + d);
    }
}

/// Two blocks' numerals are equal only for the same block.
pub proof fn lemma_decimal_injective(a: nat, b: nat)
    ensures
        decimal(a) == decimal(b) ==> a == b,
{
    lemma_decimal_is_numeral(a);
    lemma_decimal_is_numeral(b);
}

fn push_decimal(out: &mut Vec<char>, n: usize)
    ensures
        final(out)@ == old(out)@ + decimal(n as nat),
    decreases n,
{
    let digits: [char; 10] = ['0', '1', '2', '3', '4', '5', '6', '7', '8', '9'];
    proof {
        assert(digits@ =~= hex_digits().subrange(0, 10));
    }
    if n >= 10 {
        push_decimal(out, n / 10);
    }
    out.push(digits[n % 10]);
    proof {
        assert(out@ =~= old(out)@ + decimal(n as nat));
    }
}

/// Different blocks' tensors get different names: the name of a block's
/// tensor determines the block.
pub proof fn lemma_layer_tensor_names_distinct(a: nat, b: nat, suffix: Seq<char>)
    ensures
        "blk."@ + decimal(a) + "."@ + suffix == "blk."@ + decimal(b) + "."@ + suffix ==> a == b,
{
    let x = "blk."@ + decimal(a) + "."@ + suffix;
    let y = "blk."@ + decimal(b) + "."@ + suffix;
    if x == y {
        let p = "blk."@;
        let dot = "."@;
        let la = decimal(a).len() as int;
        let lb = decimal(b).len() as int;
        assert(x.len() == y.len());
        assert(la == lb);
        assert(x.subrange(p.len() as int, p.len() + la) =~= decimal(a));
        assert(y.subrange(p.len() as int, p.len() + lb) =~= decimal(b));
        lemma_decimal_injective(a, b);
    }
}

/// The name of a weight tensor of transformer block `layer`: `blk.`, the
/// block number in decimal, `.`, then `suffix`, as in `blk.0.attn_q.weight`.
pub fn layer_tensor_name(layer: usize, suffix: &str) -> (r: String)
    ensures
        r@ == "blk."@ + decimal(layer as nat) + "."@ + suffix@,
{
    let mut out = str_chars("blk.");
    push_decimal(&mut out, layer);
    let mut dot = str_chars(".");
    out.append(&mut dot);
    let mut rest = str_chars(suffix);
    out.append(&mut rest);
    string_from_chars(&out)
}

/// The first tensor descriptor named `name`, which must exist
/// ([`try_find_tensor`] checks it).
pub fn find_tensor<'a>(file: &'a GgufFile, name: &str) -> (r: &'a crate::gguf::TensorInfo)
    requires
        tensor_index(file@.tensors, name@) is Some,
    ensures
        file@.tensors[tensor_index(file@.tensors, name@)->Some_0] == r@,
{
    match try_find_tensor(file, name) {
        Some(t) => t,
        None => &file.tensors[0],
    }
}

/// The first tensor descriptor named `name`, if any: the check for [`find_tensor`].
pub fn try_find_tensor<'a>(file: &'a GgufFile, name: &str) -> (r: Option<&'a crate::gguf::TensorInfo>)
    ensures
        match r {
            Some(t) => tensor_index(file@.tensors, name@) matches Some(i) && file@.tensors[i]
                == t@,
            None => tensor_index(file@.tensors, name@) is None,
        },
{
    let target: String = name.to_owned();
    let ghost ts = file@.tensors;
    let mut i: usize = 0;
    proof {
        assert(ts.subrange(0, ts.len() as int) =~= ts);
    }
    while i < file.tensors.len()
        invariant
            i <= file.tensors@.len(),
            ts == file@.tensors,
            ts.len() == file.tensors@.len(),
            target@ == name@,
            tensor_index(ts, name@) == (match tensor_index(
                ts.subrange(i as int, ts.len() as int),
                name@,
            ) {
                Some(j) => Some(j + i),
                None => None::<int>,
            }),
        decreases file.tensors.len() - i,
    {
        let ghost rest = ts.subrange(i as int, ts.len() as int);
        proof {
            assert(rest[0] == ts[i as int]);
            assert(rest.drop_first() =~= ts.subrange(i + 1, ts.len() as int));
            assert(ts[i as int] == file.tensors@[i as int]@);
        }
        if file.tensors[i].name == target {
            return Some(&file.tensors[i]);
        }
        i = i + 1;
    }
    None
}

/// The (in, out) dimensions of a two-dimensional weight tensor
/// ([`spec_dims2`]), which must exist and be two-dimensional
/// ([`try_dims2`] checks it).
pub fn dims2(file: &GgufFile, name: &str) -> (r: (usize, usize))
    requires
        spec_dims2(file@.tensors, name@) is Ok,
    ensures
        spec_dims2(file@.tensors, name@) == Ok::<(usize, usize), ModelError>(r),
{
    match try_dims2(file, name) {
        Ok(d) => d,
        Err(_) => (0, 0),
    }
}

/// The (in, out) dimensions of a two-dimensional weight tensor
/// ([`spec_dims2`]), or why there are none: the check for [`dims2`].
pub fn try_dims2(file: &GgufFile, name: &str) -> (r: Result<(usize, usize), ModelError>)
    ensures
        match r {
            Ok(d) => spec_dims2(file@.tensors, name@) == Ok::<(usize, usize), ModelError>(d),
            Err(e) => spec_dims2(file@.tensors, name@) == Err::<(usize, usize), ModelError>(e),
        },
{
    match try_find_tensor(file, name) {
        None => Err(ModelError::TensorNotFound),
        Some(info) => {
            if info.dims.len() != 2 {
                Err(ModelError::NotMatrix)
            } else {
                Ok((info.dims[0] as usize, info.dims[1] as usize))
            }
        },
    }
}

impl ConfigKey {
    /// The metadata key itself, e.g. `"llama.block_count"`.
    pub fn as_str(self) -> (r: &'static str)
        ensures
            r@ == config_key_name(self),
    {
        match self {
            ConfigKey::EmbeddingLength => "llama.embedding_length",
            ConfigKey::HeadCount => "llama.attention.head_count",
            ConfigKey::HeadCountKv => "llama.attention.head_count_kv",
            ConfigKey::RopeDimensionCount => "llama.rope.dimension_count",
            ConfigKey::BlockCount => "llama.block_count",
            ConfigKey::RmsEpsilon => "llama.attention.layer_norm_rms_epsilon",
        }
    }
}

fn config_u32(file: &GgufFile, k: ConfigKey) -> (r: Result<u32, ModelError>)
    ensures
        match r {
            Ok(n) => spec_config_u32(file@.metadata, k) == Ok::<u32, ModelError>(n),
            Err(e) => spec_config_u32(file@.metadata, k) == Err::<u32, ModelError>(e),
        },
{
    match file.find_metadata(k.as_str()) {
        Some(GgufValue::U32(n)) => Ok(*n),
        _ => Err(ModelError::MissingKey(k)),
    }
}

fn config_f32_bits(file: &GgufFile, k: ConfigKey) -> (r: Result<u32, ModelError>)
    ensures
        match r {
            Ok(n) => spec_config_f32_bits(file@.metadata, k) == Ok::<u32, ModelError>(n),
            Err(e) => spec_config_f32_bits(file@.metadata, k) == Err::<u32, ModelError>(e),
        },
{
    match file.find_metadata(k.as_str()) {
        Some(GgufValue::F32(n)) => Ok(*n),
        _ => Err(ModelError::MissingKey(k)),
    }
}

/// Reads the model's shape out of a GGUF file's table of contents
/// ([`spec_load_config`]), which must hold it ([`try_load_config`] checks it).
pub fn load_config(file: &GgufFile) -> (r: Config)
    requires
        spec_load_config(file@) is Ok,
    ensures
        spec_load_config(file@) == Ok::<Config, ModelError>(r),
{
    match try_load_config(file) {
        Ok(c) => c,
        Err(_) => Config {
            hidden_size: 0,
            n_heads: 0,
            n_kv_heads: 0,
            head_dim: 0,
            n_layers: 0,
            vocab_size: 0,
            rms_eps_bits: 0,
        },
    }
}

/// Reads the model's shape out of a GGUF file's table of contents
/// ([`spec_load_config`]), or the first problem met: the check for
/// [`load_config`].
pub fn try_load_config(file: &GgufFile) -> (r: Result<Config, ModelError>)
    ensures
        match r {
            Ok(c) => spec_load_config(file@) == Ok::<Config, ModelError>(c),
            Err(e) => spec_load_config(file@) == Err::<Config, ModelError>(e),
        },
{
    let (_, vocab_size) = match try_dims2(file, "token_embd.weight") {
        Ok(d) => d,
        Err(e) => {
            return Err(e);
        },
    };
    let hidden = match config_u32(file, ConfigKey::EmbeddingLength) {
        Ok(n) => n,
        Err(e) => {
            return Err(e);
        },
    };
    let heads = match config_u32(file, ConfigKey::HeadCount) {
        Ok(n) => n,
        Err(e) => {
            return Err(e);
        },
    };
    let kv_heads = match config_u32(file, ConfigKey::HeadCountKv) {
        Ok(n) => n,
        Err(e) => {
            return Err(e);
        },
    };
    let head_dim = match config_u32(file, ConfigKey::RopeDimensionCount) {
        Ok(n) => n,
        Err(e) => {
            return Err(e);
        },
    };
    let layers = match config_u32(file, ConfigKey::BlockCount) {
        Ok(n) => n,
        Err(e) => {
            return Err(e);
        },
    };
    let eps = match config_f32_bits(file, ConfigKey::RmsEpsilon) {
        Ok(n) => n,
        Err(e) => {
            return Err(e);
        },
    };
    Ok(
        Config {
            hidden_size: hidden as usize,
            n_heads: heads as usize,
            n_kv_heads: kv_heads as usize,
            head_dim: head_dim as usize,
            n_layers: layers as usize,
            vocab_size,
            rms_eps_bits: eps,
        },
    )
}

/// The embedding of a token: row `token_id` of a row-major table with
/// `hidden_size` columns.
pub fn embed_token<T: Copy>(table: &Vec<T>, hidden_size: usize, token_id: usize) -> (r: Vec<T>)
    requires
        (token_id + 1) * hidden_size <= table.len(),
    ensures
        r@ == table@.subrange(token_id * hidden_size, (token_id + 1) * hidden_size),
{
    proof {
        assert((token_id + 1) * hidden_size == token_id * hidden_size + hidden_size)
            by (nonlinear_arith);
        assert(0 <= token_id * hidden_size) by (nonlinear_arith);
    }
    let start = token_id * hidden_size;
    let end = start + hidden_size;
    let mut out: Vec<T> = Vec::new();
    let mut i: usize = start;
    while i < end
        invariant
            start <= i <= end,
            end <= table@.len(),
            out@ == table@.subrange(start as int, i as int),
        decreases end - i,
    {
        out.push(table[i]);
        proof {
            assert(table@.subrange(start as int, i + 1) =~= table@.subrange(start as int, i as int).push(
                table@[i as int],
            ));
        }
        i = i + 1;
    }
    out
}


/// The vector cut into `n_heads` consecutive slices of `head_dim` elements:
/// slice `h` is `v[h * head_dim .. (h + 1) * head_dim]`, the part of a
/// projection that belongs to head `h`.
pub fn split_heads<T: Copy>(v: &[T], n_heads: usize, head_dim: usize) -> (r: Vec<Vec<T>>)
    requires
        n_heads * head_dim <= v@.len(),
    ensures
        r@.len() == n_heads,
        forall|h: int|
            0 <= h < n_heads ==> #[trigger] r@[h]@ == v@.subrange(h * head_dim, (h + 1) * head_dim),
{
    let len = v.len();
    let mut out: Vec<Vec<T>> = Vec::new();
    let mut h: usize = 0;
    while h < n_heads
        invariant
            h <= n_heads,
            len == v@.len(),
            n_heads * head_dim <= v@.len(),
            out@.len() == h,
            forall|j: int|
                0 <= j < h ==> #[trigger] out@[j]@ == v@.subrange(j * head_dim, (j + 1) * head_dim),
        decreases n_heads - h,
    {
        proof {
            assert((h + 1) * head_dim == h * head_dim + head_dim) by (nonlinear_arith);
            assert((h + 1) * head_dim <= n_heads * head_dim) by (nonlinear_arith)
                requires
                    h < n_heads,
            ;
        }
        let start = h * head_dim;
        let mut piece: Vec<T> = Vec::new();
        let mut i: usize = 0;
        while i < head_dim
            invariant
                start == h * head_dim,
                len == v@.len(),
                start + head_dim <= v@.len(),
                i <= head_dim,
                piece@ == v@.subrange(start as int, start + i),
            decreases head_dim - i,
        {
            piece.push(v[start + i]);
            proof {
                assert(v@.subrange(start as int, start + i + 1) =~= v@.subrange(
                    start as int,
                    start + i,
                ).push(v@[start + i]));
            }
            i = i + 1;
        }
        out.push(piece);
        h = h + 1;
    }
    out
}

/// The KV head that query head `h` reads under grouped-query attention:
/// each run of `n_heads / n_kv_heads` consecutive query heads shares one KV
/// head. When the query heads split evenly, every query head maps to a KV
/// head that exists.
pub fn kv_head(h: usize, n_heads: usize, n_kv_heads: usize) -> (r: usize)
    requires
        n_kv_heads > 0,
        n_heads / n_kv_heads > 0,
    ensures
        r == h / (n_heads / n_kv_heads),
        h < n_heads && n_heads % n_kv_heads == 0 ==> r < n_kv_heads,
{
    let group_size = n_heads / n_kv_heads;
    proof {
        if h < n_heads && n_heads % n_kv_heads == 0 {
            assert(n_heads == group_size * n_kv_heads) by (nonlinear_arith)
                requires
                    group_size == n_heads / n_kv_heads,
                    n_heads % n_kv_heads == 0,
                    n_kv_heads > 0,
            ;
            assert(h / group_size < n_kv_heads) by (nonlinear_arith)
                requires
                    h < group_size * n_kv_heads,
                    group_size > 0,
            ;
        }
    }
    h / group_size
}

/// Writes `values` over `out[h * head_dim .. (h + 1) * head_dim]`, the slot
/// of head `h` in a concatenation of head outputs; every other element
/// stays as it was.
pub fn write_head<T: Copy>(out: &mut Vec<T>, h: usize, head_dim: usize, values: &[T])
    requires
        values@.len() == head_dim,
        (h + 1) * head_dim <= old(out)@.len(),
    ensures
        final(out)@ == old(out)@.subrange(0, h * head_dim) + values@ + old(out)@.subrange(
            (h + 1) * head_dim,
            old(out)@.len() as int,
        ),
{
    let ghost before = out@;
    let len = out.len();
    proof {
        assert((h + 1) * head_dim == h * head_dim + head_dim) by (nonlinear_arith);
    }
    let start = h * head_dim;
    let mut i: usize = 0;
    while i < head_dim
        invariant
            start == h * head_dim,
            start + head_dim <= before.len(),
            len == before.len(),
            values@.len() == head_dim,
            i <= head_dim,
            out@.len() == before.len(),
            forall|k: int|
                0 <= k < before.len() ==> #[trigger] out@[k] == (if start <= k < start + i {
                    values@[k - start]
                } else {
                    before[k]
                }),
        decreases head_dim - i,
    {
        out.set(start + i, values[i]);
        i = i + 1;
    }
    proof {
        assert(out@ =~= before.subrange(0, h * head_dim) + values@ + before.subrange(
            (h + 1) * head_dim,
            before.len() as int,
        ));
    }
}


/// A batch of hidden states stored column-major: the element at `row` of
/// sequence `seq` lives at `data[row * batch_size + seq]`, the layout a
/// matrix product expects for its right-hand operand.
pub struct BatchState<T> {
    pub data: Vec<T>,
    pub rows: usize,
    pub batch_size: usize,
}

proof fn lemma_index_in_range(row: int, seq: int, rows: int, bs: int)
    requires
        0 <= row < rows,
        0 <= seq < bs,
    ensures
        0 <= row * bs + seq < rows * bs,
{
    assert(row * bs + seq < rows * bs) by (nonlinear_arith)
        requires
            0 <= row < rows,
            0 <= seq < bs,
    ;
    assert(0 <= row * bs) by (nonlinear_arith)
        requires
            0 <= row,
            0 <= bs,
    ;
}

proof fn lemma_index_unique(r1: int, s1: int, r2: int, s2: int, bs: int)
    requires
        0 <= r1,
        0 <= r2,
        0 <= s1 < bs,
        0 <= s2 < bs,
        r1 * bs + s1 == r2 * bs + s2,
    ensures
        r1 == r2,
        s1 == s2,
{
    if r1 < r2 {
        assert(r1 * bs + s1 < r2 * bs + s2) by (nonlinear_arith)
            requires
                r1 < r2,
                0 <= s1 < bs,
                0 <= s2,
        ;
    } else if r2 < r1 {
        assert(r2 * bs + s2 < r1 * bs + s1) by (nonlinear_arith)
            requires
                r2 < r1,
                0 <= s2 < bs,
                0 <= s1,
        ;
    }
}

impl<T: Copy> BatchState<T> {
    /// The data holds exactly one element per (row, sequence).
    pub open spec fn wf(&self) -> bool {
        self.data@.len() == self.rows * self.batch_size
    }

    /// The element at `row` of sequence `seq`.
    pub open spec fn at(&self, row: int, seq: int) -> T {
        self.data@[row * self.batch_size + seq]
    }

    /// The column of sequence `seq`.
    pub open spec fn column_view(&self, seq: int) -> Seq<T> {
        Seq::new(self.rows as nat, |row: int| self.at(row, seq))
    }

    /// Packs one vector per sequence into columns. A vector shorter than the
    /// first leaves the rest of its column at `zero`.
    pub fn from_vectors(vectors: &[Vec<T>], zero: T) -> (r: Self)
        requires
            vectors@.len() > 0,
            forall|s: int| 0 <= s < vectors@.len() ==> #[trigger] vectors@[s]@.len() <= vectors@[0]@.len(),
            vectors@[0]@.len() * vectors@.len() <= usize::MAX,
        ensures
            r.wf(),
            r.rows == vectors@[0]@.len(),
            r.batch_size == vectors@.len(),
            forall|s: int|
                0 <= s < r.batch_size ==> #[trigger] r.column_view(s) == Seq::new(
                    r.rows as nat,
                    |row: int|
                        if row < vectors@[s]@.len() {
                            vectors@[s]@[row]
                        } else {
                            zero
                        },
                ),
    {
        let batch_size = vectors.len();
        let rows = vectors[0].len();
        let n = rows * batch_size;
        let mut data: Vec<T> = Vec::new();
        let mut k: usize = 0;
        while k < n
            invariant
                k <= n,
                data@.len() == k,
                forall|j: int| 0 <= j < k ==> #[trigger] data@[j] == zero,
            decreases n - k,
        {
            data.push(zero);
            k = k + 1;
        }
        proof {
            assert forall|row: int, s: int|
                0 <= row < rows && 0 <= s < batch_size implies #[trigger] data@[row * batch_size
                    + s] == zero by {
                lemma_index_in_range(row, s, rows as int, batch_size as int);
            }
        }
        let mut seq: usize = 0;
        while seq < batch_size
            invariant
                n == rows * batch_size,
                rows == vectors@[0]@.len(),
                batch_size == vectors@.len(),
                forall|s: int| 0 <= s < vectors@.len() ==> #[trigger] vectors@[s]@.len() <= vectors@[0]@.len(),
                seq <= batch_size,
                data@.len() == n,
                forall|row: int, s: int|
                    0 <= row < rows && 0 <= s < batch_size ==> #[trigger] data@[row * batch_size + s]
                        == (if s < seq && row < vectors@[s]@.len() {
                        vectors@[s]@[row]
                    } else {
                        zero
                    }),
            decreases batch_size - seq,
        {
            let v = &vectors[seq];
            let mut row: usize = 0;
            while row < v.len()
                invariant
                    n == rows * batch_size,
                    seq < batch_size,
                    v@.len() <= rows,
                    v == vectors@[seq as int],
                    row <= v@.len(),
                    data@.len() == n,
                    forall|r: int, s: int|
                        0 <= r < rows && 0 <= s < batch_size ==> #[trigger] data@[r * batch_size + s]
                            == (if (s < seq && r < vectors@[s]@.len()) || (s == seq && r < row) {
                            vectors@[s]@[r]
                        } else {
                            zero
                        }),
                decreases v.len() - row,
            {
                proof {
                    lemma_index_in_range(row as int, seq as int, rows as int, batch_size as int);
                }
                let idx = row * batch_size + seq;
                let ghost old_data = data@;
                data.set(idx, v[row]);
                proof {
                    assert forall|r: int, s: int|
                        0 <= r < rows && 0 <= s < batch_size implies #[trigger] data@[r * batch_size
                            + s] == (if (s < seq && r < vectors@[s]@.len()) || (s == seq && r < row
                            + 1) {
                            vectors@[s]@[r]
                        } else {
                            zero
                        }) by {
                        lemma_index_in_range(r, s, rows as int, batch_size as int);
                        if r * batch_size + s == idx {
                            lemma_index_unique(r, s, row as int, seq as int, batch_size as int);
                        } else {
                            assert(old_data[r * batch_size + s] == data@[r * batch_size + s]);
                            if s == seq && r == row {
                                assert(false);
                            }
                        }
                    }
                }
                row = row + 1;
            }
            seq = seq + 1;
        }
        let r = BatchState { data, rows, batch_size };
        proof {
            assert forall|s: int| 0 <= s < r.batch_size implies #[trigger] r.column_view(s) == Seq::new(
                r.rows as nat,
                |row: int|
                    if row < vectors@[s]@.len() {
                        vectors@[s]@[row]
                    } else {
                        zero
                    },
            ) by {
                assert(r.column_view(s) =~= Seq::new(
                    r.rows as nat,
                    |row: int|
                        if row < vectors@[s]@.len() {
                            vectors@[s]@[row]
                        } else {
                            zero
                        },
                ));
            }
        }
        r
    }

    /// The column of sequence `seq`.
    pub fn column(&self, seq: usize) -> (r: Vec<T>)
        requires
            self.wf(),
            seq < self.batch_size,
        ensures
            r@ == self.column_view(seq as int),
    {
        let mut out: Vec<T> = Vec::new();
        let mut row: usize = 0;
        while row < self.rows
            invariant
                self.wf(),
                seq < self.batch_size,
                row <= self.rows,
                out@.len() == row,
                forall|r: int| 0 <= r < row ==> #[trigger] out@[r] == self.at(r, seq as int),
            decreases self.rows - row,
        {
            proof {
                lemma_index_in_range(row as int, seq as int, self.rows as int, self.batch_size as int);
                assert(row * self.batch_size + seq < self.data.len());
            }
            out.push(self.data[row * self.batch_size + seq]);
            row = row + 1;
        }
        proof {
            assert(out@ =~= self.column_view(seq as int));
        }
        out
    }

    /// Overwrites the first `values.len()` rows of sequence `seq`'s column;
    /// every other element stays as it was.
    pub fn set_column(&mut self, seq: usize, values: &[T])
        requires
            old(self).wf(),
            seq < old(self).batch_size,
            values@.len() <= old(self).rows,
        ensures
            final(self).wf(),
            final(self).rows == old(self).rows,
            final(self).batch_size == old(self).batch_size,
            final(self).column_view(seq as int) == values@ + old(self).column_view(seq as int).subrange(
                values@.len() as int,
                old(self).rows as int,
            ),
            forall|s: int|
                0 <= s < old(self).batch_size && s != seq ==> #[trigger] final(self).column_view(s)
                    == old(self).column_view(s),
    {
        let ghost old_state = *self;
        let mut row: usize = 0;
        while row < values.len()
            invariant
                self.rows == old_state.rows,
                self.batch_size == old_state.batch_size,
                self.wf(),
                seq < self.batch_size,
                values@.len() <= self.rows,
                row <= values@.len(),
                forall|r: int, s: int|
                    0 <= r < self.rows && 0 <= s < self.batch_size ==> #[trigger] self.at(r, s) == (if s
                        == seq && r < row {
                        values@[r]
                    } else {
                        old_state.at(r, s)
                    }),
            decreases values.len() - row,
        {
            proof {
                lemma_index_in_range(row as int, seq as int, self.rows as int, self.batch_size as int);
                assert(row * self.batch_size + seq < self.data.len());
            }
            let idx = row * self.batch_size + seq;
            let ghost before = *self;
            self.data.set(idx, values[row]);
            proof {
                assert forall|r: int, s: int|
                    0 <= r < self.rows && 0 <= s < self.batch_size implies #[trigger] self.at(r, s)
                        == (if s == seq && r < row + 1 {
                        values@[r]
                    } else {
                        old_state.at(r, s)
                    }) by {
                    lemma_index_in_range(r, s, self.rows as int, self.batch_size as int);
                    if r * self.batch_size + s == idx {
                        lemma_index_unique(r, s, row as int, seq as int, self.batch_size as int);
                    } else {
                        assert(before.at(r, s) == self.at(r, s));
                        if s == seq && r == row {
                            assert(false);
                        }
                    }
                }
            }
            row = row + 1;
        }
        proof {
            assert(self.column_view(seq as int) =~= values@ + old_state.column_view(
                seq as int,
            ).subrange(values@.len() as int, old_state.rows as int));
            assert forall|s: int|
                0 <= s < old_state.batch_size && s != seq implies #[trigger] self.column_view(s)
                == old_state.column_view(s) by {
                assert(self.column_view(s) =~= old_state.column_view(s));
            }
        }
    }
}

/// One generated token's progress report: its 1-based step, its id, the time
/// since generation started, and the KV-cache footprint (0 without a cache).
pub struct TokenEvent {
    pub step: usize,
    pub token_id: usize,
    pub elapsed_ms: u128,
    pub cache_bytes: usize,
}

impl TokenEvent {
    /// The KV-cache footprint in whole kilobytes (1024 bytes), as reported to clients.
    pub fn cache_kb(&self) -> (r: usize)
        ensures
            r == self.cache_bytes / 1024,
    {
        self.cache_bytes / 1024
    }
}

/// The bookkeeping of autoregressive generation: the prompt, the tokens
/// generated so far, the limit on their number, and an optional stop token
/// (end of sequence) after which generation ends early.
pub struct Generation {
    tokens: Vec<usize>,
    prompt_len: usize,
    max_new_tokens: usize,
    stop_token: Option<usize>,
}

/// The model of a [`Generation`]: the prompt, the tokens generated after it,
/// the limit on their number and the stop token.
pub struct GenerationModel {
    pub prompt: Seq<usize>,
    pub generated: Seq<usize>,
    pub max_new_tokens: usize,
    pub stop_token: Option<usize>,
}

impl GenerationModel {
    /// Generation is over once the limit is reached or the last generated
    /// token is the stop token.
    pub open spec fn finished(&self) -> bool {
        ||| self.generated.len() >= self.max_new_tokens
        ||| (self.generated.len() > 0 && self.stop_token == Some(self.generated.last()))
    }

    /// What holds of every generation: at most the limit of tokens, and the
    /// stop token, if generated at all, only as the last one.
    pub open spec fn wf(&self) -> bool {
        &&& self.generated.len() <= self.max_new_tokens
        &&& forall|i: int|
            0 <= i < self.generated.len() - 1 ==> self.stop_token != Some(
                #[trigger] self.generated[i],
            )
    }

    /// Every token so far: the prompt, then the generated tokens.
    pub open spec fn all_tokens(&self) -> Seq<usize> {
        self.prompt + self.generated
    }
}

impl Generation {
    /// The generation as a [`GenerationModel`].
    pub closed spec fn model(&self) -> GenerationModel {
        GenerationModel {
            prompt: self.tokens@.subrange(0, self.prompt_len as int),
            generated: self.tokens@.subrange(self.prompt_len as int, self.tokens@.len() as int),
            max_new_tokens: self.max_new_tokens,
            stop_token: self.stop_token,
        }
    }

    /// The prompt lies within the tokens held.
    pub closed spec fn inv(&self) -> bool {
        self.prompt_len <= self.tokens@.len()
    }
}

impl View for Generation {
    type V = GenerationModel;

    open spec fn view(&self) -> GenerationModel {
        self.model()
    }
}

impl Generation {
    /// Starts generating after `prompt_ids`, for at most `max_new_tokens`
    /// tokens, stopping early after `stop_token` if one is given.
    pub fn start(prompt_ids: &[usize], max_new_tokens: usize, stop_token: Option<usize>) -> (r: Self)
        ensures
            r.inv(),
            r@.wf(),
            r@.prompt == prompt_ids@,
            r@.generated == Seq::<usize>::empty(),
            r@.max_new_tokens == max_new_tokens,
            r@.stop_token == stop_token,
    {
        let mut tokens: Vec<usize> = Vec::new();
        let mut i: usize = 0;
        while i < prompt_ids.len()
            invariant
                i <= prompt_ids@.len(),
                tokens@ == prompt_ids@.subrange(0, i as int),
            decreases prompt_ids.len() - i,
        {
            tokens.push(prompt_ids[i]);
            proof {
                assert(prompt_ids@.subrange(0, i + 1) =~= prompt_ids@.subrange(0, i as int).push(
                    prompt_ids@[i as int],
                ));
            }
            i = i + 1;
        }
        let r = Generation { tokens, prompt_len: prompt_ids.len(), max_new_tokens, stop_token };
        proof {
            assert(r@.prompt =~= prompt_ids@);
            assert(r@.generated =~= Seq::<usize>::empty());
        }
        r
    }

    /// Whether generation is over ([`GenerationModel::finished`]).
    pub fn is_finished(&self) -> (r: bool)
        requires
            self.inv(),
        ensures
            r == self@.finished(),
    {
        let n = self.tokens.len() - self.prompt_len;
        if n >= self.max_new_tokens {
            return true;
        }
        match self.stop_token {
            Some(stop) => n > 0 && self.tokens[self.tokens.len() - 1] == stop,
            None => false,
        }
    }

    /// Records the token the model picked next. Returns its 1-based step and
    /// the sequence position it occupies, which is where the model reads it
    /// on the next forward pass.
    pub fn accept(&mut self, token: usize) -> (r: (usize, usize))
        requires
            old(self).inv(),
            old(self)@.wf(),
            !old(self)@.finished(),
        ensures
            final(self).inv(),
            final(self)@.wf(),
            final(self)@.prompt == old(self)@.prompt,
            final(self)@.generated == old(self)@.generated.push(token),
            final(self)@.max_new_tokens == old(self)@.max_new_tokens,
            final(self)@.stop_token == old(self)@.stop_token,
            r.0 == final(self)@.generated.len(),
            r.1 == old(self)@.all_tokens().len(),
            r.1 == old(self)@.prompt.len() + r.0 - 1,
            final(self)@.all_tokens()[r.1 as int] == token,
    {
        let ghost before = self@;
        let position = self.tokens.len();
        self.tokens.push(token);
        proof {
            assert(self@.prompt =~= before.prompt);
            assert(self@.generated =~= before.generated.push(token));
            assert(self@.all_tokens() =~= self.tokens@);
        }
        (self.tokens.len() - self.prompt_len, position)
    }

    /// Every token so far: the prompt, then the generated tokens.
    pub fn tokens(&self) -> (r: &Vec<usize>)
        requires
            self.inv(),
        ensures
            r@ == self@.all_tokens(),
    {
        proof {
            assert(self@.all_tokens() =~= self.tokens@);
        }
        &self.tokens
    }

    /// The finished token sequence: the prompt, then the generated tokens.
    pub fn into_tokens(self) -> (r: Vec<usize>)
        requires
            self.inv(),
        ensures
            r@ == self@.all_tokens(),
    {
        proof {
            assert(self@.all_tokens() =~= self.tokens@);
        }
        self.tokens
    }
}

/// Generation ends: every accepted token brings it one step closer to its
/// limit, so at most `max_new_tokens` tokens are ever generated, and the
/// stop token, once generated, ends it.
pub proof fn lemma_generation_ends(g: GenerationModel, token: usize)
    requires
        g.wf(),
        !g.finished(),
    ensures
        ({
            let next = GenerationModel { generated: g.generated.push(token), ..g };
            &&& next.wf()
            &&& next.max_new_tokens - next.generated.len() < g.max_new_tokens - g.generated.len()
            &&& g.stop_token == Some(token) ==> next.finished()
        }),
{
    let next = GenerationModel { generated: g.generated.push(token), ..g };
    assert forall|i: int| 0 <= i < next.generated.len() - 1 implies next.stop_token != Some(
        #[trigger] next.generated[i],
    ) by {
        if i < g.generated.len() - 1 {
            assert(next.generated[i] == g.generated[i]);
        } else {
            assert(next.generated[i] == g.generated.last());
        }
    }
}

/// Batched generation: every sequence advances in lockstep, one token per
/// sequence per step, from prompts cut to the length of the shortest.
pub struct BatchGeneration {
    sequences: Vec<Vec<usize>>,
    prompt_len: usize,
}

/// The length of the shortest prompt (0 for none).
pub open spec fn min_len(prompts: Seq<Vec<usize>>) -> nat
    decreases prompts.len(),
{
    if prompts.len() <= 1 {
        if prompts.len() == 0 {
            0
        } else {
            prompts[0]@.len()
        }
    } else {
        let m = min_len(prompts.drop_last());
        if prompts.last()@.len() < m {
            prompts.last()@.len()
        } else {
            m
        }
    }
}

/// Token sequences as mathematical sequences.
pub open spec fn seqs_view(v: Seq<Vec<usize>>) -> Seq<Seq<usize>> {
    Seq::new(v.len(), |i: int| v[i]@)
}

impl BatchGeneration {
    /// Every sequence's tokens so far.
    pub closed spec fn sequences_view(&self) -> Seq<Seq<usize>> {
        seqs_view(self.sequences@)
    }

    /// The common prompt length.
    pub closed spec fn spec_prompt_len(&self) -> nat {
        self.prompt_len as nat
    }

    /// Every sequence holds the common prompt length and the same number of tokens.
    pub open spec fn aligned(&self) -> bool {
        &&& forall|i: int|
            0 <= i < self.sequences_view().len() ==> #[trigger] self.sequences_view()[i].len()
                >= self.spec_prompt_len()
        &&& forall|i: int, j: int|
            0 <= i < self.sequences_view().len() && 0 <= j < self.sequences_view().len()
                ==> #[trigger] self.sequences_view()[i].len()
                == #[trigger] self.sequences_view()[j].len()
    }

    /// Starts a batch of at least one prompt. The common prompt length is
    /// that of the shortest prompt, and each sequence starts with that many
    /// tokens of its prompt.
    pub fn start(prompts: &[Vec<usize>]) -> (r: Self)
        requires
            prompts@.len() > 0,
        ensures
            r.aligned(),
            r.spec_prompt_len() == min_len(prompts@),
            r.sequences_view().len() == prompts@.len(),
            forall|i: int|
                0 <= i < prompts@.len() ==> #[trigger] r.sequences_view()[i] == prompts@[i]@.subrange(
                    0,
                    min_len(prompts@) as int,
                ),
    {
        let mut m: usize = prompts[0].len();
        let mut i: usize = 1;
        proof {
            assert(prompts@.subrange(0, 1) =~= seq![prompts@[0]]);
        }
        while i < prompts.len()
            invariant
                1 <= i <= prompts@.len(),
                m == min_len(prompts@.subrange(0, i as int)),
                forall|j: int| 0 <= j < i ==> m <= #[trigger] prompts@[j]@.len(),
            decreases prompts.len() - i,
        {
            proof {
                assert(prompts@.subrange(0, i + 1).drop_last() =~= prompts@.subrange(0, i as int));
            }
            if prompts[i].len() < m {
                m = prompts[i].len();
            }
            i = i + 1;
        }
        proof {
            assert(prompts@.subrange(0, prompts@.len() as int) =~= prompts@);
        }
        let mut sequences: Vec<Vec<usize>> = Vec::new();
        let mut s: usize = 0;
        while s < prompts.len()
            invariant
                m == min_len(prompts@),
                forall|j: int| 0 <= j < prompts@.len() ==> m <= #[trigger] prompts@[j]@.len(),
                s <= prompts@.len(),
                sequences@.len() == s,
                forall|j: int|
                    0 <= j < s ==> #[trigger] sequences@[j]@ == prompts@[j]@.subrange(0, m as int),
            decreases prompts.len() - s,
        {
            let p = &prompts[s];
            let mut t: Vec<usize> = Vec::new();
            let mut k: usize = 0;
            while k < m
                invariant
                    m <= p@.len(),
                    k <= m,
                    t@ == p@.subrange(0, k as int),
                decreases m - k,
            {
                t.push(p[k]);
                proof {
                    assert(p@.subrange(0, k + 1) =~= p@.subrange(0, k as int).push(p@[k as int]));
                }
                k = k + 1;
            }
            sequences.push(t);
            s = s + 1;
        }
        BatchGeneration { sequences, prompt_len: m }
    }

    /// The common prompt length.
    pub fn prompt_len(&self) -> (r: usize)
        ensures
            r == self.spec_prompt_len(),
    {
        self.prompt_len
    }

    /// The number of sequences.
    pub fn batch_size(&self) -> (r: usize)
        ensures
            r == self.sequences_view().len(),
    {
        self.sequences.len()
    }

    /// The token at `pos` of every sequence, in batch order.
    pub fn tokens_at(&self, pos: usize) -> (r: Vec<usize>)
        requires
            self.aligned(),
            pos < self.spec_prompt_len(),
        ensures
            r@.len() == self.sequences_view().len(),
            forall|i: int| 0 <= i < r@.len() ==> #[trigger] r@[i] == self.sequences_view()[i][pos as int],
    {
        let mut out: Vec<usize> = Vec::new();
        let mut i: usize = 0;
        while i < self.sequences.len()
            invariant
                self.aligned(),
                pos < self.spec_prompt_len(),
                i <= self.sequences@.len(),
                out@.len() == i,
                forall|j: int| 0 <= j < i ==> #[trigger] out@[j] == self.sequences_view()[j][pos as int],
            decreases self.sequences.len() - i,
        {
            proof {
                assert(self.sequences_view()[i as int] == self.sequences@[i as int]@);
                assert(self.sequences_view()[i as int].len() >= self.spec_prompt_len());
            }
            out.push(self.sequences[i][pos]);
            i = i + 1;
        }
        out
    }

    /// Appends one token to every sequence: `next_tokens[i]` to sequence `i`.
    pub fn accept(&mut self, next_tokens: &[usize])
        requires
            old(self).aligned(),
            next_tokens@.len() == old(self).sequences_view().len(),
        ensures
            final(self).aligned(),
            final(self).spec_prompt_len() == old(self).spec_prompt_len(),
            final(self).sequences_view().len() == old(self).sequences_view().len(),
            forall|i: int|
                0 <= i < next_tokens@.len() ==> #[trigger] final(self).sequences_view()[i]
                    == old(self).sequences_view()[i].push(next_tokens@[i]),
    {
        let ghost before = self.sequences_view();
        let n = self.sequences.len();
        let mut new_sequences: Vec<Vec<usize>> = Vec::new();
        let mut i: usize = 0;
        while i < n
            invariant
                n == self.sequences@.len(),
                before == self.sequences_view(),
                next_tokens@.len() == n,
                i <= n,
                new_sequences@.len() == i,
                forall|j: int|
                    0 <= j < i ==> #[trigger] new_sequences@[j]@ == before[j].push(next_tokens@[j]),
            decreases n - i,
        {
            let mut t = self.sequences[i].clone();
            proof {
                assert(t@ == before[i as int]);
            }
            t.push(next_tokens[i]);
            new_sequences.push(t);
            i = i + 1;
        }
        self.sequences = new_sequences;
        proof {
            assert forall|i: int, j: int|
                0 <= i < self.sequences_view().len() && 0 <= j < self.sequences_view().len()
                implies #[trigger] self.sequences_view()[i].len()
                == #[trigger] self.sequences_view()[j].len() by {
                assert(before[i].len() == before[j].len());
            }
            assert forall|i: int| 0 <= i < self.sequences_view().len() implies #[trigger] self.sequences_view()[i].len()
                >= self.spec_prompt_len() by {
                assert(before[i].len() >= self.spec_prompt_len());
            }
        }
    }

    /// The finished sequences.
    pub fn into_sequences(self) -> (r: Vec<Vec<usize>>)
        ensures
            seqs_view(r@) == self.sequences_view(),
    {
        self.sequences
    }
}

/// A batch of one prompt keeps that whole prompt: with nothing to align it
/// to, no token is cut, so the batch runs the positions single-sequence
/// generation runs.
pub proof fn lemma_single_prompt_kept_whole(prompt: Vec<usize>)
    ensures
        min_len(seq![prompt]) == prompt@.len(),
        prompt@.subrange(0, min_len(seq![prompt]) as int) == prompt@,
{
    assert(seq![prompt][0] == prompt);
    assert(prompt@.subrange(0, prompt@.len() as int) =~= prompt@);
}

/// Total KV-cache memory across every sequence of a batch.
pub fn batch_cache_bytes<T>(cache: &BatchKvCache<T>, cfg: &Config) -> (r: usize)
    requires
        cache.memory_fits(cfg.n_kv_heads, cfg.head_dim),
    ensures
        r == cache.spec_memory_bytes(cfg.n_kv_heads, cfg.head_dim),
{
    cache.memory_bytes(cfg.n_kv_heads, cfg.head_dim)
}
} // verus!
