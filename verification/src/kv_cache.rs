//! Storage for the Key and Value vectors accumulated across generation steps.
//! A position's Key/Value pair never changes once computed, so it is kept
//! here and reused instead of recomputed. Each sequence of a batch has a
//! cache of its own; the model weights are shared, attention state is not.
//!
//! The caches are generic over the element type `T` of the stored vectors.
use vstd::prelude::*;

verus! {

/// One layer's cache for one sequence: for every position processed so far,
/// one Key and one Value vector per KV head (`[position][kv_head][dim]`).
pub struct LayerCache<T> {
    pub keys: Vec<Vec<Vec<T>>>,
    pub values: Vec<Vec<Vec<T>>>,
}

impl<T> LayerCache<T> {
    fn new() -> (c: Self)
        ensures
            c.keys@.len() == 0,
            c.values@.len() == 0,
    {
        LayerCache { keys: Vec::new(), values: Vec::new() }
    }

    /// Appends one position's Key and Value vectors (one per KV head). The
    /// earlier positions stay as they were: a cached entry is never rewritten.
    pub fn push_position(&mut self, keys: Vec<Vec<T>>, values: Vec<Vec<T>>)
        ensures
            final(self).keys@ == old(self).keys@.push(keys),
            final(self).values@ == old(self).values@.push(values),
    {
        self.keys.push(keys);
        self.values.push(values);
    }
}

/// One sequence's cache across every transformer layer.
pub struct KvCache<T> {
    pub layers: Vec<LayerCache<T>>,
}

/// The product `a * b * c * d * e * f`, multiplied left to right, together
/// with whether every partial product along the way fits in a `usize`.
pub open spec fn product6(a: int, b: int, c: int, d: int, e: int, f: int) -> int {
    a * b * c * d * e * f
}

/// Whether every partial product of `a * b * c * d * e * f`, left to right, fits in a `usize`.
pub open spec fn product6_fits(a: int, b: int, c: int, d: int, e: int, f: int) -> bool {
    &&& a * b <= usize::MAX
    &&& a * b * c <= usize::MAX
    &&& a * b * c * d <= usize::MAX
    &&& a * b * c * d * e <= usize::MAX
    &&& a * b * c * d * e * f <= usize::MAX
}

impl<T> KvCache<T> {
    /// The number of cached positions, read off the first layer (0 with no layers).
    pub open spec fn positions(&self) -> nat {
        if self.layers@.len() == 0 {
            0
        } else {
            self.layers@[0].keys@.len()
        }
    }

    /// Bytes held: a Key and a Value vector of `n_kv_heads * head_dim`
    /// elements per cached position, per layer.
    pub open spec fn spec_memory_bytes(&self, n_kv_heads: usize, head_dim: usize) -> int {
        product6(
            self.positions() as int,
            self.layers@.len() as int,
            n_kv_heads as int,
            head_dim as int,
            2,
            vstd::layout::size_of::<T>() as int,
        )
    }

    /// Whether computing the footprint overflows no `usize`.
    pub open spec fn memory_fits(&self, n_kv_heads: usize, head_dim: usize) -> bool {
        product6_fits(
            self.positions() as int,
            self.layers@.len() as int,
            n_kv_heads as int,
            head_dim as int,
            2,
            vstd::layout::size_of::<T>() as int,
        )
    }

    /// An empty cache with `n_layers` layers.
    pub fn new(n_layers: usize) -> (c: Self)
        ensures
            c.layers@.len() == n_layers,
            forall|i: int|
                0 <= i < n_layers ==> #[trigger] c.layers@[i].keys@.len() == 0
                    && c.layers@[i].values@.len() == 0,
            c.positions() == 0,
    {
        let mut layers: Vec<LayerCache<T>> = Vec::new();
        let mut i: usize = 0;
        while i < n_layers
            invariant
                i <= n_layers,
                layers@.len() == i,
                forall|j: int|
                    0 <= j < i ==> #[trigger] layers@[j].keys@.len() == 0 && layers@[j].values@.len()
                        == 0,
            decreases n_layers - i,
        {
            layers.push(LayerCache::new());
            i = i + 1;
        }
        KvCache { layers }
    }

    /// The cache's memory footprint in bytes ([`KvCache::spec_memory_bytes`]).
    pub fn memory_bytes(&self, n_kv_heads: usize, head_dim: usize) -> (r: usize)
        requires
            self.memory_fits(n_kv_heads, head_dim),
        ensures
            r == self.spec_memory_bytes(n_kv_heads, head_dim),
    {
        let n_positions = if self.layers.len() == 0 {
            0
        } else {
            self.layers[0].keys.len()
        };
        let n_layers = self.layers.len();
        n_positions * n_layers * n_kv_heads * head_dim * 2 * core::mem::size_of::<T>()
    }
}

/// Caches for a whole batch: one [`KvCache`] per sequence.
pub struct BatchKvCache<T> {
    pub sequences: Vec<KvCache<T>>,
}

/// The memory of the first `k` sequences' caches, summed.
pub open spec fn batch_memory_upto<T>(
    seqs: Seq<KvCache<T>>,
    n_kv_heads: usize,
    head_dim: usize,
    k: nat,
) -> int
    decreases k,
{
    if k == 0 {
        0
    } else {
        batch_memory_upto(seqs, n_kv_heads, head_dim, (k - 1) as nat) + seqs[k - 1].spec_memory_bytes(
            n_kv_heads,
            head_dim,
        )
    }
}

impl<T> BatchKvCache<T> {
    /// The footprints of every sequence, summed.
    pub open spec fn spec_memory_bytes(&self, n_kv_heads: usize, head_dim: usize) -> int {
        batch_memory_upto(self.sequences@, n_kv_heads, head_dim, self.sequences@.len())
    }

    /// Every sequence's footprint, and every partial sum of them, fits in a `usize`.
    pub open spec fn memory_fits(&self, n_kv_heads: usize, head_dim: usize) -> bool {
        &&& forall|i: int|
            0 <= i < self.sequences@.len() ==> #[trigger] self.sequences@[i].memory_fits(
                n_kv_heads,
                head_dim,
            )
        &&& forall|k: nat|
            k <= self.sequences@.len() ==> #[trigger] batch_memory_upto(
                self.sequences@,
                n_kv_heads,
                head_dim,
                k,
            ) <= usize::MAX
    }

    /// Empty caches for `batch_size` sequences of `n_layers` layers each.
    pub fn new(batch_size: usize, n_layers: usize) -> (c: Self)
        ensures
            c.sequences@.len() == batch_size,
            forall|i: int|
                0 <= i < batch_size ==> #[trigger] c.sequences@[i].layers@.len() == n_layers
                    && c.sequences@[i].positions() == 0,
            forall|i: int, l: int|
                0 <= i < batch_size && 0 <= l < n_layers ==> #[trigger] c.sequences@[i].layers@[l].keys@.len()
                    == 0 && c.sequences@[i].layers@[l].values@.len() == 0,
    {
        let mut sequences: Vec<KvCache<T>> = Vec::new();
        let mut i: usize = 0;
        while i < batch_size
            invariant
                i <= batch_size,
                sequences@.len() == i,
                forall|j: int|
                    0 <= j < i ==> #[trigger] sequences@[j].layers@.len() == n_layers
                        && sequences@[j].positions() == 0,
                forall|j: int, l: int|
                    0 <= j < i && 0 <= l < n_layers ==> #[trigger] sequences@[j].layers@[l].keys@.len()
                        == 0 && sequences@[j].layers@[l].values@.len() == 0,
            decreases batch_size - i,
        {
            sequences.push(KvCache::new(n_layers));
            i = i + 1;
        }
        BatchKvCache { sequences }
    }

    /// The total footprint of every sequence's cache.
    pub fn memory_bytes(&self, n_kv_heads: usize, head_dim: usize) -> (r: usize)
        requires
            self.memory_fits(n_kv_heads, head_dim),
        ensures
            r == self.spec_memory_bytes(n_kv_heads, head_dim),
    {
        let mut total: usize = 0;
        let mut i: usize = 0;
        while i < self.sequences.len()
            invariant
                i <= self.sequences@.len(),
                self.memory_fits(n_kv_heads, head_dim),
                total == batch_memory_upto(self.sequences@, n_kv_heads, head_dim, i as nat),
            decreases self.sequences.len() - i,
        {
            let m = self.sequences[i].memory_bytes(n_kv_heads, head_dim);
            proof {
                assert(batch_memory_upto(self.sequences@, n_kv_heads, head_dim, (i + 1) as nat)
                    <= usize::MAX);
            }
            total = total + m;
            i = i + 1;
        }
        total
    }
}

/// A fresh cache holds nothing: its footprint is zero whatever the head
/// shape, for one sequence and for a whole batch.
pub proof fn lemma_new_caches_are_empty<T>(
    c: KvCache<T>,
    b: BatchKvCache<T>,
    n_kv_heads: usize,
    head_dim: usize,
)
    requires
        c.positions() == 0,
        forall|i: int| 0 <= i < b.sequences@.len() ==> #[trigger] b.sequences@[i].positions() == 0,
    ensures
        c.spec_memory_bytes(n_kv_heads, head_dim) == 0,
        b.spec_memory_bytes(n_kv_heads, head_dim) == 0,
{
    lemma_batch_memory_zero(b.sequences@, n_kv_heads, head_dim, b.sequences@.len());
    lemma_product6_zero(
        c.layers@.len() as int,
        n_kv_heads as int,
        head_dim as int,
        2,
        vstd::layout::size_of::<T>() as int,
    );
}

proof fn lemma_product6_zero(b: int, c: int, d: int, e: int, f: int)
    ensures
        product6(0, b, c, d, e, f) == 0,
{
    assert(0 * b * c * d * e * f == 0) by (nonlinear_arith);
}

proof fn lemma_batch_memory_zero<T>(seqs: Seq<KvCache<T>>, n_kv_heads: usize, head_dim: usize, k: nat)
    requires
        k <= seqs.len(),
        forall|i: int| 0 <= i < seqs.len() ==> #[trigger] seqs[i].positions() == 0,
    ensures
        batch_memory_upto(seqs, n_kv_heads, head_dim, k) == 0,
    decreases k,
{
    if k > 0 {
        lemma_batch_memory_zero(seqs, n_kv_heads, head_dim, (k - 1) as nat);
        assert(seqs[k - 1].positions() == 0);
        lemma_product6_zero(
            seqs[k - 1].layers@.len() as int,
            n_kv_heads as int,
            head_dim as int,
            2,
            vstd::layout::size_of::<T>() as int,
        );
    }
}

/// Caching one more position in every layer adds exactly one position's worth
/// of bytes: a Key and a Value vector per layer.
pub proof fn lemma_memory_per_position<T>(
    before: KvCache<T>,
    after: KvCache<T>,
    n_kv_heads: usize,
    head_dim: usize,
)
    requires
        after.layers@.len() == before.layers@.len(),
        before.layers@.len() > 0,
        after.positions() == before.positions() + 1,
    ensures
        after.spec_memory_bytes(n_kv_heads, head_dim) == before.spec_memory_bytes(
            n_kv_heads,
            head_dim,
        ) + before.layers@.len() * n_kv_heads * head_dim * 2 * vstd::layout::size_of::<T>(),
{
    let p = before.positions() as int;
    let l = before.layers@.len() as int;
    let k = n_kv_heads as int;
    let h = head_dim as int;
    let s = vstd::layout::size_of::<T>() as int;
    assert((p + 1) * l * k * h * 2 * s == p * l * k * h * 2 * s + l * k * h * 2 * s)
        by (nonlinear_arith);
}

} // verus!
