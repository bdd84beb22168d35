//! Ranking candidates by score. Scores are carried as order keys, `u32`
//! values compared as integers: [`order_key`] turns the IEEE-754 bit pattern
//! of a (non-NaN) `f32` into a key that compares as the values do, with
//! `-0.0` and `+0.0` equal. Ties are broken by position, earlier first, as a
//! stable sort leaves them.
use vstd::prelude::*;

verus! {

broadcast use vstd::seq_lib::group_seq_properties;

/// The order key of an `f32` bit pattern: positive values (sign bit clear)
/// move above every negative one, negative values are mirrored so that
/// larger magnitudes come lower, and `-0.0` gets the key of `+0.0`.
pub open spec fn spec_order_key(bits: u32) -> u32 {
    if bits == 0x8000_0000 {
        0x8000_0000
    } else if bits > 0x8000_0000 {
        (0xFFFF_FFFF - bits) as u32
    } else {
        (bits + 0x8000_0000) as u32
    }
}

/// The order key of an `f32` bit pattern ([`spec_order_key`]).
pub fn order_key(bits: u32) -> (r: u32)
    ensures
        r == spec_order_key(bits),
{
    if bits == 0x8000_0000 {
        0x8000_0000
    } else if bits > 0x8000_0000 {
        0xFFFF_FFFF - bits
    } else {
        bits + 0x8000_0000
    }
}

/// Whether candidate `a` ranks before candidate `b`: a higher key, or an
/// equal key and an earlier position.
pub open spec fn ranks_before(keys: Seq<u32>, a: int, b: int) -> bool {
    keys[a] > keys[b] || (keys[a] == keys[b] && a < b)
}

/// Every candidate in `r` is a position of `keys`, and they come in rank order.
pub open spec fn in_rank_order(keys: Seq<u32>, r: Seq<usize>) -> bool {
    &&& forall|i: int| 0 <= i < r.len() ==> #[trigger] r[i] < keys.len()
    &&& forall|i: int, j: int|
        0 <= i < j < r.len() ==> ranks_before(keys, #[trigger] r[i] as int, #[trigger] r[j] as int)
}

/// `r` lists the best `r.len()` candidates of `keys`, best first: in rank
/// order, and ahead of every candidate it leaves out.
pub open spec fn is_top_ranked(keys: Seq<u32>, r: Seq<usize>) -> bool {
    &&& in_rank_order(keys, r)
    &&& forall|i: int, y: usize|
        #![trigger r[i], r.contains(y)]
        0 <= i < r.len() && y < keys.len() && !r.contains(y) ==> ranks_before(
            keys,
            r[i] as int,
            y as int,
        )
}

/// The position of the highest key; the last such position among equal
/// highest keys.
pub fn argmax_key(keys: &[u32]) -> (r: usize)
    requires
        keys@.len() > 0,
    ensures
        r < keys@.len(),
        forall|j: int| 0 <= j < keys@.len() ==> keys@[j] <= keys@[r as int],
        forall|j: int| r < j < keys@.len() ==> keys@[j] < keys@[r as int],
{
    let mut best: usize = 0;
    let mut i: usize = 1;
    while i < keys.len()
        invariant
            1 <= i <= keys@.len(),
            best < i,
            forall|j: int| 0 <= j < i ==> keys@[j] <= keys@[best as int],
            forall|j: int| best < j < i ==> keys@[j] < keys@[best as int],
        decreases keys.len() - i,
    {
        if keys[i] >= keys[best] {
            best = i;
        }
        i = i + 1;
    }
    best
}

/// Merges two rank-ordered lists of distinct candidates into one.
fn merge(keys: &[u32], a: &Vec<usize>, b: &Vec<usize>) -> (r: Vec<usize>)
    requires
        in_rank_order(keys@, a@),
        in_rank_order(keys@, b@),
        forall|i: int, j: int| 0 <= i < a@.len() && 0 <= j < b@.len() ==> a@[i] != b@[j],
        a@.len() + b@.len() <= keys@.len(),
    ensures
        r@.len() == a@.len() + b@.len(),
        in_rank_order(keys@, r@),
        forall|x: usize| #[trigger] r@.contains(x) <==> a@.contains(x) || b@.contains(x),
{
    let mut out: Vec<usize> = Vec::new();
    let mut i: usize = 0;
    let mut j: usize = 0;
    proof {
        assert(a@.subrange(0, 0) =~= Seq::<usize>::empty());
        assert(b@.subrange(0, 0) =~= Seq::<usize>::empty());
    }
    while i < a.len() || j < b.len()
        invariant
            in_rank_order(keys@, a@),
            in_rank_order(keys@, b@),
            forall|p: int, q: int| 0 <= p < a@.len() && 0 <= q < b@.len() ==> a@[p] != b@[q],
            a@.len() + b@.len() <= keys@.len(),
            i <= a@.len(),
            j <= b@.len(),
            out@.len() == i + j,
            in_rank_order(keys@, out@),
            forall|k: int, p: int|
                0 <= k < out@.len() && i <= p < a@.len() ==> ranks_before(
                    keys@,
                    #[trigger] out@[k] as int,
                    #[trigger] a@[p] as int,
                ),
            forall|k: int, q: int|
                0 <= k < out@.len() && j <= q < b@.len() ==> ranks_before(
                    keys@,
                    #[trigger] out@[k] as int,
                    #[trigger] b@[q] as int,
                ),
            forall|x: usize|
                #[trigger] out@.contains(x) <==> a@.subrange(0, i as int).contains(x) || b@.subrange(
                    0,
                    j as int,
                ).contains(x),
        decreases a@.len() + b@.len() - i - j,
    {
        let take_a = if i < a.len() && j < b.len() {
            let ka = keys[a[i]];
            let kb = keys[b[j]];
            ka > kb || (ka == kb && a[i] < b[j])
        } else {
            i < a.len()
        };
        if take_a {
            let x = a[i];
            proof {
                assert forall|p: int| i < p < a@.len() implies ranks_before(keys@, x as int, #[trigger] a@[p] as int) by {
                    assert(ranks_before(keys@, a@[i as int] as int, a@[p] as int));
                }
                assert forall|q: int| j <= q < b@.len() implies ranks_before(keys@, x as int, #[trigger] b@[q] as int) by {
                    if q > j {
                        assert(ranks_before(keys@, b@[j as int] as int, b@[q] as int));
                    }
                }
                assert(a@.subrange(0, i + 1) =~= a@.subrange(0, i as int).push(x));
            }
            out.push(x);
            i = i + 1;
        } else {
            let x = b[j];
            proof {
                assert forall|q: int| j < q < b@.len() implies ranks_before(keys@, x as int, #[trigger] b@[q] as int) by {
                    assert(ranks_before(keys@, b@[j as int] as int, b@[q] as int));
                }
                assert forall|p: int| i <= p < a@.len() implies ranks_before(keys@, x as int, #[trigger] a@[p] as int) by {
                    if p > i {
                        assert(ranks_before(keys@, a@[i as int] as int, a@[p] as int));
                    }
                    assert(a@[p] != x);
                }
                assert(b@.subrange(0, j + 1) =~= b@.subrange(0, j as int).push(x));
            }
            out.push(x);
            j = j + 1;
        }
    }
    proof {
        assert(a@.subrange(0, a@.len() as int) =~= a@);
        assert(b@.subrange(0, b@.len() as int) =~= b@);
    }
    out
}

/// The positions `lo..hi` in rank order.
fn rank_range(keys: &[u32], lo: usize, hi: usize) -> (r: Vec<usize>)
    requires
        lo <= hi <= keys@.len(),
    ensures
        r@.len() == hi - lo,
        in_rank_order(keys@, r@),
        forall|x: usize| #[trigger] r@.contains(x) <==> lo <= x < hi,
    decreases hi - lo,
{
    if hi - lo == 0 {
        let r: Vec<usize> = Vec::new();
        proof {
            assert forall|x: usize| #[trigger] r@.contains(x) <==> lo <= x < hi by {}
        }
        r
    } else if hi - lo == 1 {
        let r = vec![lo];
        proof {
            assert forall|x: usize| #[trigger] r@.contains(x) <==> lo <= x < hi by {
                if x == lo {
                    assert(r@[0] == x);
                }
            }
        }
        r
    } else {
        let mid = lo + (hi - lo) / 2;
        let a = rank_range(keys, lo, mid);
        let b = rank_range(keys, mid, hi);
        proof {
            assert forall|i: int, j: int| 0 <= i < a@.len() && 0 <= j < b@.len() implies a@[i] != b@[j] by {
                assert(a@.contains(a@[i]));
                assert(b@.contains(b@[j]));
            }
        }
        merge(keys, &a, &b)
    }
}

/// Every position of `keys`, best first: by key, highest first, and among
/// equal keys by position, earliest first.
pub fn rank_descending(keys: &[u32]) -> (r: Vec<usize>)
    ensures
        r@.len() == keys@.len(),
        is_top_ranked(keys@, r@),
        forall|y: usize| y < keys@.len() ==> #[trigger] r@.contains(y),
{
    rank_range(keys, 0, keys.len())
}

/// Keeping the first `k` of a ranking keeps the best `k` candidates: what
/// top-k filtering keeps is exactly the `k` highest keys, ties going to
/// earlier positions.
pub proof fn lemma_ranking_prefix_is_top(keys: Seq<u32>, r: Seq<usize>, k: int)
    requires
        is_top_ranked(keys, r),
        0 <= k <= r.len(),
    ensures
        is_top_ranked(keys, r.subrange(0, k)),
{
    let p = r.subrange(0, k);
    assert forall|i: int, y: usize|
        #![trigger p[i], p.contains(y)]
        0 <= i < p.len() && y < keys.len() && !p.contains(y) implies ranks_before(
        keys,
        p[i] as int,
        y as int,
    ) by {
        assert(p[i] == r[i]);
        if r.contains(y) {
            let j = choose|j: int| 0 <= j < r.len() && r[j] == y;
            if j < k {
                assert(p[j] == y);
            }
            assert(i < j);
        }
    }
    assert forall|i: int, j: int| 0 <= i < j < p.len() implies ranks_before(
        keys,
        #[trigger] p[i] as int,
        #[trigger] p[j] as int,
    ) by {
        assert(p[i] == r[i] && p[j] == r[j]);
    }
}

} // verus!
