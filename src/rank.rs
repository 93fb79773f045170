//! Rank normalization for the colorizer.
//!
//! Every pixel's field value is replaced by its rank in the whole image: the
//! number of pixels whose value is strictly smaller, which is the left-most
//! position of the value in the sorted field. Values are IEEE-754 doubles,
//! held as bit patterns and ordered by the IEEE-754 totalOrder predicate.
use vstd::prelude::*;
use vstd::set_lib::{lemma_int_range, lemma_map_size, lemma_subset_equality, set_int_range};

verus! {

/// A key whose unsigned order is the IEEE-754 totalOrder of the doubles
/// with bit pattern `bits`: negative values (sign bit set) are flipped
/// whole, positive ones get the sign bit set.
pub open spec fn order_key(bits: u64) -> u64 {
    if bits >= 0x8000_0000_0000_0000 {
        (0xffff_ffff_ffff_ffff - bits) as u64
    } else {
        (bits + 0x8000_0000_0000_0000) as u64
    }
}

/// The keys of a field of bit patterns.
pub open spec fn field_keys(bits: Seq<u64>) -> Seq<u64> {
    Seq::new(bits.len(), |p: int| order_key(bits[p]))
}

/// How many elements of `s` are strictly below `k`.
pub open spec fn count_less(s: Seq<u64>, k: u64) -> nat
    decreases s.len(),
{
    if s.len() == 0 {
        0
    } else {
        count_less(s.drop_last(), k) + if s.last() < k {
            1nat
        } else {
            0nat
        }
    }
}

pub open spec fn is_sorted(s: Seq<u64>) -> bool {
    forall|a: int, b: int| 0 <= a <= b < s.len() ==> s[a] <= s[b]
}

/// The rank of each element of `s`.
pub open spec fn rank_seq(s: Seq<u64>) -> Seq<nat> {
    Seq::new(s.len(), |p: int| count_less(s, s[p]))
}

pub proof fn lemma_count_less_append(a: Seq<u64>, b: Seq<u64>, k: u64)
    ensures
        count_less(a + b, k) == count_less(a, k) + count_less(b, k),
    decreases b.len(),
{
    if b.len() == 0 {
        assert(a + b =~= a);
    } else {
        lemma_count_less_append(a, b.drop_last(), k);
        assert((a + b).drop_last() =~= a + b.drop_last());
    }
}

pub proof fn lemma_count_less_single(x: u64, k: u64)
    ensures
        count_less(seq![x], k) == if x < k {
            1nat
        } else {
            0nat
        },
{
    assert(seq![x].drop_last() =~= Seq::<u64>::empty());
    assert(count_less(seq![x], k) == count_less(Seq::<u64>::empty(), k) + if seq![x].last() < k {
        1nat
    } else {
        0nat
    });
}

pub proof fn lemma_count_less_remove(s: Seq<u64>, j: int, k: u64)
    requires
        0 <= j < s.len(),
    ensures
        count_less(s, k) == count_less(s.remove(j), k) + if s[j] < k {
            1nat
        } else {
            0nat
        },
{
    let a = s.take(j);
    let b = s.skip(j + 1);
    assert(s =~= a + seq![s[j]] + b);
    assert(s.remove(j) =~= a + b);
    lemma_count_less_append(a + seq![s[j]], b, k);
    lemma_count_less_append(a, seq![s[j]], k);
    lemma_count_less_append(a, b, k);
    lemma_count_less_single(s[j], k);
}

/// Counting is blind to order.
pub proof fn lemma_count_less_permutation(s1: Seq<u64>, s2: Seq<u64>, k: u64)
    requires
        s1.to_multiset() == s2.to_multiset(),
    ensures
        count_less(s1, k) == count_less(s2, k),
    decreases s1.len(),
{
    broadcast use vstd::seq_lib::group_to_multiset_ensures;

    if s1.len() == 0 {
        assert(s1.to_multiset().len() == 0);
        assert(s2.len() == 0);
    } else {
        let x = s1.last();
        let r1 = s1.drop_last();
        assert(s1 =~= r1.push(x));
        assert(s2.to_multiset().count(x) > 0);
        assert(s2.contains(x));
        let j = choose|j: int| 0 <= j < s2.len() && s2[j] == x;
        let r2 = s2.remove(j);
        assert(r2.to_multiset() =~= r1.to_multiset());
        lemma_count_less_permutation(r1, r2, k);
        lemma_count_less_remove(s2, j, k);
    }
}

/// In `s`, every element at an index below `r` is below `k` and no other.
pub proof fn lemma_count_less_split(s: Seq<u64>, r: int, k: u64)
    requires
        0 <= r <= s.len(),
        forall|j: int| 0 <= j < r ==> s[j] < k,
        forall|j: int| r <= j < s.len() ==> s[j] >= k,
    ensures
        count_less(s, k) == r,
    decreases s.len(),
{
    if s.len() > 0 {
        if r == s.len() {
            lemma_count_less_split(s.drop_last(), r - 1, k);
        } else {
            lemma_count_less_split(s.drop_last(), r, k);
        }
    }
}

pub proof fn lemma_count_less_bound(s: Seq<u64>, k: u64)
    ensures
        count_less(s, k) <= s.len(),
    decreases s.len(),
{
    if s.len() > 0 {
        lemma_count_less_bound(s.drop_last(), k);
    }
}

/// A key counts no more below it than a larger key does, and strictly less
/// where an element lies between the two.
pub proof fn lemma_count_less_monotone(s: Seq<u64>, k1: u64, k2: u64)
    requires
        k1 <= k2,
    ensures
        count_less(s, k1) <= count_less(s, k2),
        (exists|j: int| 0 <= j < s.len() && k1 <= #[trigger] s[j] < k2) ==> count_less(s, k1)
            < count_less(s, k2),
    decreases s.len(),
{
    if s.len() > 0 {
        let t = s.drop_last();
        lemma_count_less_monotone(t, k1, k2);
        if exists|j: int| 0 <= j < s.len() && k1 <= #[trigger] s[j] < k2 {
            let j = choose|j: int| 0 <= j < s.len() && k1 <= #[trigger] s[j] < k2;
            if j < t.len() {
                assert(k1 <= t[j] < k2);
            }
        }
    }
}

/// Where the elements are pairwise distinct, ranking is a bijection from the
/// positions onto the ranks `0 .. len`: every rank lies in that range, no
/// two positions share one, and every rank in the range is taken.
pub proof fn law_ranks_bijective(s: Seq<u64>)
    requires
        forall|a: int, b: int| 0 <= a < b < s.len() ==> s[a] != s[b],
    ensures
        forall|p: int| 0 <= p < s.len() ==> #[trigger] rank_seq(s)[p] < s.len(),
        forall|p: int, q: int|
            0 <= p < s.len() && 0 <= q < s.len() && p != q ==> rank_seq(s)[p] != rank_seq(s)[q],
        set_int_range(0, s.len() as int).map(|p: int| rank_seq(s)[p] as int) == set_int_range(
            0,
            s.len() as int,
        ),
{
    let n = s.len() as int;
    assert forall|p: int| 0 <= p < n implies #[trigger] rank_seq(s)[p] < n by {
        lemma_count_less_remove(s, p, s[p]);
        lemma_count_less_bound(s.remove(p), s[p]);
    }
    assert forall|p: int, q: int| 0 <= p < n && 0 <= q < n && p != q implies rank_seq(s)[p]
        != rank_seq(s)[q] by {
        if s[p] < s[q] {
            lemma_count_less_monotone(s, s[p], s[q]);
        } else {
            assert(s[p] != s[q]);
            lemma_count_less_monotone(s, s[q], s[p]);
        }
    }
    let dom = set_int_range(0, n);
    let f = |p: int| rank_seq(s)[p] as int;
    lemma_int_range(0, n);
    let img = dom.map(f);
    assert(vstd::relations::injective_on(f, dom));
    lemma_map_size(dom, img, f);
    assert(img.subset_of(dom));
    lemma_subset_equality(img, dom);
}


/// How many elements of `s` are strictly above `k`.
pub open spec fn count_greater(s: Seq<u64>, k: u64) -> nat
    decreases s.len(),
{
    if s.len() == 0 {
        0
    } else {
        count_greater(s.drop_last(), k) + if s.last() > k {
            1nat
        } else {
            0nat
        }
    }
}

/// The sum of a sequence of ranks.
pub open spec fn sum_of(r: Seq<nat>) -> nat
    decreases r.len(),
{
    if r.len() == 0 {
        0
    } else {
        sum_of(r.drop_last()) + r.last()
    }
}

/// The sum of the ranks in `s` of the elements of `ks`.
pub open spec fn rank_sum(s: Seq<u64>, ks: Seq<u64>) -> nat
    decreases ks.len(),
{
    if ks.len() == 0 {
        0
    } else {
        rank_sum(s, ks.drop_last()) + count_less(s, ks.last())
    }
}

/// How many elements of `s` equal `k`.
pub open spec fn count_equal(s: Seq<u64>, k: u64) -> nat
    decreases s.len(),
{
    if s.len() == 0 {
        0
    } else {
        count_equal(s.drop_last(), k) + if s.last() == k {
            1nat
        } else {
            0nat
        }
    }
}

/// How many unordered pairs of positions of `s` hold equal values.
pub open spec fn tied_pairs(s: Seq<u64>) -> nat
    decreases s.len(),
{
    if s.len() == 0 {
        0
    } else {
        tied_pairs(s.drop_last()) + count_equal(s.drop_last(), s.last())
    }
}

pub proof fn lemma_less_greater_total(s: Seq<u64>, x: u64)
    ensures
        count_less(s, x) + count_greater(s, x) + count_equal(s, x) == s.len(),
    decreases s.len(),
{
    if s.len() > 0 {
        lemma_less_greater_total(s.drop_last(), x);
    }
}

pub proof fn lemma_distinct_no_ties(s: Seq<u64>)
    requires
        forall|a: int, b: int| 0 <= a < b < s.len() ==> s[a] != s[b],
    ensures
        tied_pairs(s) == 0,
    decreases s.len(),
{
    if s.len() > 0 {
        let t = s.drop_last();
        assert forall|a: int, b: int| 0 <= a < b < t.len() implies t[a] != t[b] by {
            assert(t[a] == s[a] && t[b] == s[b]);
        }
        lemma_distinct_no_ties(t);
        lemma_count_equal_absent(t, s.last(), s);
    }
}

pub proof fn lemma_count_equal_absent(t: Seq<u64>, x: u64, s: Seq<u64>)
    requires
        t.len() < s.len(),
        x == s.last(),
        forall|j: int| 0 <= j < t.len() ==> t[j] == s[j],
        forall|a: int, b: int| 0 <= a < b < s.len() ==> s[a] != s[b],
    ensures
        count_equal(t, x) == 0,
    decreases t.len(),
{
    if t.len() > 0 {
        let u = t.drop_last();
        assert(t.last() == s[t.len() - 1]);
        lemma_count_equal_absent(u, x, s);
    }
}

pub proof fn lemma_rank_sum_push(s: Seq<u64>, x: u64, ks: Seq<u64>)
    ensures
        rank_sum(s.push(x), ks) == rank_sum(s, ks) + count_greater(ks, x),
    decreases ks.len(),
{
    if ks.len() > 0 {
        lemma_rank_sum_push(s, x, ks.drop_last());
        assert(s.push(x).drop_last() =~= s);
    }
}

pub proof fn lemma_rank_sum_is_sum(s: Seq<u64>, ks: Seq<u64>)
    ensures
        rank_sum(s, ks) == sum_of(Seq::new(ks.len(), |p: int| count_less(s, ks[p]))),
    decreases ks.len(),
{
    if ks.len() > 0 {
        lemma_rank_sum_is_sum(s, ks.drop_last());
        let full = Seq::new(ks.len(), |p: int| count_less(s, ks[p]));
        let front = Seq::new(ks.drop_last().len(), |p: int| count_less(s, ks.drop_last()[p]));
        assert(full.drop_last() =~= front);
    }
}

pub proof fn lemma_self_rank_sum(s: Seq<u64>)
    ensures
        2 * rank_sum(s, s) + 2 * tied_pairs(s) == s.len() * (s.len() - 1),
    decreases s.len(),
{
    if s.len() > 0 {
        let t = s.drop_last();
        let x = s.last();
        assert(s =~= t.push(x));
        lemma_self_rank_sum(t);
        lemma_rank_sum_push(t, x, t);
        lemma_less_greater_total(t, x);
        assert(count_less(s, x) == count_less(t, x));
        assert(rank_sum(s, s) == rank_sum(s, t) + count_less(s, x));
        let n = s.len() as int;
        assert((n - 1) * (n - 2) + 2 * (n - 1) == n * (n - 1)) by (nonlinear_arith);
    }
}

/// The ranks of `n` values add up to `n (n - 1) / 2` less one for each
/// unordered pair of equal values, each tied value taking the left-most
/// rank; with pairwise distinct values the sum is exactly `n (n - 1) / 2`.
pub proof fn law_rank_sum(s: Seq<u64>)
    ensures
        2 * sum_of(rank_seq(s)) + 2 * tied_pairs(s) == s.len() * (s.len() - 1),
        (forall|a: int, b: int| 0 <= a < b < s.len() ==> s[a] != s[b]) ==> 2 * sum_of(rank_seq(s))
            == s.len() * (s.len() - 1),
{
    lemma_self_rank_sum(s);
    lemma_rank_sum_is_sum(s, s);
    assert(rank_seq(s) =~= Seq::new(s.len(), |p: int| count_less(s, s[p])));
    if forall|a: int, b: int| 0 <= a < b < s.len() ==> s[a] != s[b] {
        lemma_distinct_no_ties(s);
    }
}

/// Relies on `<[u64]>::sort_unstable`: the slice ends up in ascending order,
/// holding the same elements as before.
#[verifier::external_body]
fn sort_ascending(v: &mut Vec<u64>)
    ensures
        is_sorted(final(v)@),
        final(v)@.to_multiset() == old(v)@.to_multiset(),
{
    v.sort_unstable()
}

/// The number of elements of the sorted `sorted` that are below `key`: the
/// left-most position at which `key` could be inserted.
pub fn lower_bound(sorted: &[u64], key: u64) -> (r: usize)
    requires
        is_sorted(sorted@),
    ensures
        r <= sorted@.len(),
        forall|j: int| 0 <= j < r ==> sorted@[j] < key,
        forall|j: int| r <= j < sorted@.len() ==> sorted@[j] >= key,
        r == count_less(sorted@, key),
{
    let mut lo: usize = 0;
    let mut hi: usize = sorted.len();
    while lo < hi
        invariant
            lo <= hi <= sorted@.len(),
            is_sorted(sorted@),
            forall|j: int| 0 <= j < lo ==> sorted@[j] < key,
            forall|j: int| hi <= j < sorted@.len() ==> sorted@[j] >= key,
        decreases hi - lo,
    {
        let mid: usize = lo + (hi - lo) / 2;
        if sorted[mid] < key {
            lo = mid + 1;
        } else {
            hi = mid;
        }
    }
    proof {
        lemma_count_less_split(sorted@, lo as int, key);
    }
    lo
}

/// The rank of every element of `keys`: how many elements are strictly
/// below it.
pub fn ranks(keys: &Vec<u64>) -> (r: Vec<usize>)
    ensures
        r@.len() == keys@.len(),
        forall|p: int| 0 <= p < keys@.len() ==> #[trigger] r@[p] == rank_seq(keys@)[p],
{
    let mut sorted: Vec<u64> = keys.clone();
    assert(sorted@ == keys@);
    sort_ascending(&mut sorted);
    let mut out: Vec<usize> = Vec::with_capacity(keys.len());
    let mut p: usize = 0;
    while p < keys.len()
        invariant
            p <= keys@.len(),
            out@.len() == p,
            is_sorted(sorted@),
            sorted@.to_multiset() == keys@.to_multiset(),
            forall|q: int| 0 <= q < p ==> #[trigger] out@[q] == rank_seq(keys@)[q],
        decreases keys@.len() - p,
    {
        let r = lower_bound(sorted.as_slice(), keys[p]);
        proof {
            lemma_count_less_permutation(sorted@, keys@, keys@[p as int]);
        }
        out.push(r);
        p = p + 1;
    }
    out
}

/// The key of the double with bit pattern `bits` under the IEEE-754
/// totalOrder.
pub fn total_order_key(bits: u64) -> (r: u64)
    ensures
        r == order_key(bits),
{
    if bits >= 0x8000_0000_0000_0000 {
        0xffff_ffff_ffff_ffff - bits
    } else {
        bits + 0x8000_0000_0000_0000
    }
}

/// The rank of every value of a field of doubles given by their bit
/// patterns, under the IEEE-754 totalOrder.
pub fn field_ranks(bits: &Vec<u64>) -> (r: Vec<usize>)
    ensures
        r@.len() == bits@.len(),
        forall|p: int| 0 <= p < bits@.len() ==> #[trigger] r@[p] == rank_seq(field_keys(bits@))[p],
{
    let mut keys: Vec<u64> = Vec::with_capacity(bits.len());
    let mut p: usize = 0;
    while p < bits.len()
        invariant
            p <= bits@.len(),
            keys@ == field_keys(bits@).take(p as int),
        decreases bits@.len() - p,
    {
        keys.push(total_order_key(bits[p]));
        p = p + 1;
        assert(keys@ =~= field_keys(bits@).take(p as int));
    }
    assert(keys@ =~= field_keys(bits@));
    ranks(&keys)
}

} // verus!
