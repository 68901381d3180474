//! Ranking of candidates by integer order keys.
//!
//! A key is any unsigned integer that orders candidates the same way their
//! scores do: a larger key means a better candidate. Equal keys are broken by
//! position, the earlier candidate first, so every ranking is deterministic.
use vstd::prelude::*;

verus! {

/// Candidate `a` is ranked ahead of candidate `b`: its key is larger, or the
/// keys tie and `a` comes first.
pub open spec fn ranks_before(keys: Seq<u32>, a: int, b: int) -> bool {
    keys[a] > keys[b] || (keys[a] == keys[b] && a < b)
}

/// `order` lists candidate positions of `keys` from best to worst.
pub open spec fn is_ranked(keys: Seq<u32>, order: Seq<usize>) -> bool {
    &&& forall|i: int| 0 <= i < order.len() ==> order[i] < keys.len()
    &&& forall|i: int, j: int|
        0 <= i < j < order.len() ==> ranks_before(keys, #[trigger] order[i] as int, #[trigger] order[j] as int)
}

/// `order` ranks every candidate of `keys` exactly once.
pub open spec fn is_full_ranking(keys: Seq<u32>, order: Seq<usize>) -> bool {
    &&& order.len() == keys.len()
    &&& is_ranked(keys, order)
    &&& forall|x: usize| x < keys.len() ==> #[trigger] order.contains(x)
}

/// `best` is the first position holding the largest key.
pub open spec fn is_first_max(keys: Seq<u32>, best: int) -> bool {
    &&& 0 <= best < keys.len()
    &&& forall|j: int| 0 <= j < keys.len() ==> keys[j] <= keys[best]
    &&& forall|j: int| 0 <= j < best ==> keys[j] < keys[best]
}

/// The order key of an IEEE-754 single-precision bit pattern: patterns with
/// the sign bit set are reversed below all others, so that comparing keys
/// compares the numbers they encode (with -0 just below +0, and NaN patterns
/// beyond the infinities of their sign).
pub open spec fn spec_order_key(bits: u32) -> u32 {
    if bits >= 0x8000_0000 {
        (0xFFFF_FFFF - bits) as u32
    } else {
        (bits + 0x8000_0000) as u32
    }
}

/// The number of candidates a top-`k` selection keeps out of `n`.
pub open spec fn kept_count(n: int, k: int) -> int {
    if k < n { k } else { n }
}

/// The order key of a single-precision bit pattern.
pub fn order_key(bits: u32) -> (key: u32)
    ensures
        key == spec_order_key(bits),
{
    if bits >= 0x8000_0000 {
        assert(!bits == 0xFFFF_FFFFu32 - bits) by (bit_vector);
        !bits
    } else {
        assert(bits < 0x8000_0000u32 ==> bits | 0x8000_0000u32 == bits + 0x8000_0000u32) by (bit_vector);
        bits | 0x8000_0000
    }
}

/// Ranks all candidates by key, best first; ties keep their original order.
pub fn rank_descending(keys: &Vec<u32>) -> (order: Vec<usize>)
    ensures
        is_full_ranking(keys@, order@),
{
    let n = keys.len();
    let mut order: Vec<usize> = Vec::new();
    let mut i: usize = 0;
    while i < n
        invariant
            n == keys@.len(),
            i <= n,
            order@.len() == i,
            forall|q: int| 0 <= q < order@.len() ==> order@[q] < i,
            is_ranked(keys@, order@),
            forall|x: usize| x < i ==> #[trigger] order@.contains(x),
        decreases n - i,
    {
        let ki = keys[i];
        let mut p: usize = 0;
        while p < order.len() && keys[order[p]] >= ki
            invariant
                n == keys@.len(),
                i < n,
                ki == keys@[i as int],
                p <= order@.len(),
                order@.len() == i,
                forall|q: int| 0 <= q < order@.len() ==> order@[q] < i,
                forall|q: int| 0 <= q < p ==> keys@[#[trigger] order@[q] as int] >= ki,
            decreases order@.len() - p,
        {
            p = p + 1;
        }
        let ghost old_order = order@;
        proof {
            assert forall|q: int| p <= q < old_order.len() implies keys@[#[trigger] old_order[q] as int] < ki by {
                if q > p {
                    assert(ranks_before(keys@, old_order[p as int] as int, old_order[q] as int));
                }
            }
        }
        order.insert(p, i);
        proof {
            let new_order = order@;
            assert(new_order == old_order.insert(p as int, i));
            assert forall|a: int, b: int| 0 <= a < b < new_order.len() implies ranks_before(
                keys@,
                #[trigger] new_order[a] as int,
                #[trigger] new_order[b] as int,
            ) by {
                if b < p {
                    assert(new_order[a] == old_order[a]);
                    assert(new_order[b] == old_order[b]);
                } else if b == p {
                    assert(new_order[a] == old_order[a]);
                    assert(keys@[old_order[a] as int] >= ki);
                } else if a < p {
                    assert(new_order[a] == old_order[a]);
                    assert(new_order[b] == old_order[b - 1]);
                } else if a == p {
                    assert(new_order[b] == old_order[b - 1]);
                    assert(keys@[old_order[b - 1] as int] < ki);
                } else {
                    assert(new_order[a] == old_order[a - 1]);
                    assert(new_order[b] == old_order[b - 1]);
                    assert(ranks_before(keys@, old_order[a - 1] as int, old_order[b - 1] as int));
                }
            }
            assert forall|x: usize| x < i + 1 implies #[trigger] new_order.contains(x) by {
                if x == i {
                    assert(new_order[p as int] == i);
                } else {
                    assert(old_order.contains(x));
                    let q = choose|q: int| 0 <= q < old_order.len() && old_order[q] == x;
                    if q < p {
                        assert(new_order[q] == x);
                    } else {
                        assert(new_order[q + 1] == x);
                    }
                }
            }
        }
        i = i + 1;
    }
    order
}

/// Keeps the `k` best candidates, best first (all of them when `k` is at
/// least their number). A candidate that is left out is ranked behind every
/// candidate that is kept, so with `k == 0` or no candidates nothing is kept.
pub fn top_k_indices(keys: &Vec<u32>, k: usize) -> (top: Vec<usize>)
    ensures
        top@.len() == kept_count(keys@.len() as int, k as int),
        is_ranked(keys@, top@),
        forall|j: usize, q: int|
            #![trigger top@.contains(j), top@[q]]
            j < keys@.len() && !top@.contains(j) && 0 <= q < top@.len() ==> ranks_before(
                keys@,
                top@[q] as int,
                j as int,
            ),
{
    let order = rank_descending(keys);
    let m: usize = if k < order.len() { k } else { order.len() };
    let mut top: Vec<usize> = Vec::new();
    let mut t: usize = 0;
    while t < m
        invariant
            is_full_ranking(keys@, order@),
            m <= order@.len(),
            t <= m,
            top@ == order@.subrange(0, t as int),
        decreases m - t,
    {
        top.push(order[t]);
        t = t + 1;
    }
    proof {
        assert forall|j: usize, q: int|
            #![trigger top@.contains(j), top@[q]]
            #![trigger top@.contains(j), top@[q]]
            j < keys@.len() && !top@.contains(j) && 0 <= q < top@.len() implies ranks_before(
                keys@,
                top@[q] as int,
                j as int,
            ) by {
            assert(order@.contains(j));
            let r = choose|r: int| 0 <= r < order@.len() && order@[r] == j;
            if r < m {
                assert(top@[r] == j);
            }
            assert(top@[q] == order@[q]);
        }
    }
    top
}

/// The first position that holds the largest key.
pub fn argmax_first(keys: &Vec<u32>) -> (best: usize)
    requires
        keys@.len() > 0,
    ensures
        is_first_max(keys@, best as int),
{
    let mut best: usize = 0;
    let mut i: usize = 1;
    while i < keys.len()
        invariant
            keys@.len() > 0,
            best < i <= keys@.len(),
            forall|j: int| 0 <= j < i ==> keys@[j] <= keys@[best as int],
            forall|j: int| 0 <= j < best ==> keys@[j] < keys@[best as int],
        decreases keys@.len() - i,
    {
        if keys[i] > keys[best] {
            best = i;
        }
        i = i + 1;
    }
    best
}

/// The last position whose key is not zero, if any.
pub fn last_nonzero(keys: &Vec<u32>) -> (last: Option<usize>)
    ensures
        match last {
            Some(i) => i < keys@.len() && keys@[i as int] != 0 && forall|j: int|
                i < j < keys@.len() ==> keys@[j] == 0,
            None => forall|j: int| 0 <= j < keys@.len() ==> keys@[j] == 0,
        },
{
    let mut i: usize = keys.len();
    while i > 0
        invariant
            i <= keys@.len(),
            forall|j: int| i <= j < keys@.len() ==> keys@[j] == 0,
        decreases i,
    {
        if keys[i - 1] != 0 {
            return Some(i - 1);
        }
        i = i - 1;
    }
    None
}

/// Selecting the first maximum is deterministic: equal keys give the same
/// position, every time.
pub proof fn lemma_first_max_unique(keys: Seq<u32>, a: int, b: int)
    requires
        is_first_max(keys, a),
        is_first_max(keys, b),
    ensures
        a == b,
{
    if a < b {
        assert(keys[a] < keys[b]);
        assert(keys[b] <= keys[a]);
    } else if b < a {
        assert(keys[b] < keys[a]);
        assert(keys[a] <= keys[b]);
    }
}

/// Two full rankings of the same keys agree on every position up to `i`.
proof fn lemma_rankings_agree_upto(keys: Seq<u32>, r1: Seq<usize>, r2: Seq<usize>, i: int)
    requires
        is_full_ranking(keys, r1),
        is_full_ranking(keys, r2),
        0 <= i < r1.len(),
    ensures
        forall|t: int| 0 <= t <= i ==> r1[t] == r2[t],
    decreases i,
{
    if i > 0 {
        lemma_rankings_agree_upto(keys, r1, r2, i - 1);
    }
    let x = r1[i];
    let y = r2[i];
    if x != y {
        assert(r1.contains(y));
        assert(r2.contains(x));
        let q = choose|q: int| 0 <= q < r1.len() && r1[q] == y;
        let p = choose|p: int| 0 <= p < r2.len() && r2[p] == x;
        if q < i {
            assert(r2[q] == y);
            assert(ranks_before(keys, r2[q] as int, r2[i] as int));
        }
        if p < i {
            assert(r1[p] == x);
            assert(ranks_before(keys, r1[p] as int, r1[i] as int));
        }
        assert(ranks_before(keys, r1[i] as int, r1[q] as int));
        assert(ranks_before(keys, r2[i] as int, r2[p] as int));
    }
}

/// A full ranking is unique: any two rankings of the same keys agree, so
/// every filter built on the ranking breaks ties the same way every time.
pub proof fn lemma_full_ranking_unique(keys: Seq<u32>, r1: Seq<usize>, r2: Seq<usize>)
    requires
        is_full_ranking(keys, r1),
        is_full_ranking(keys, r2),
    ensures
        r1 == r2,
{
    if r1.len() > 0 {
        lemma_rankings_agree_upto(keys, r1, r2, r1.len() - 1);
    }
    assert(r1 =~= r2);
}

} // verus!
