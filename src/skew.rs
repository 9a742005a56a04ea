//! Suffix-array construction by the skew (DC3) algorithm.

use vstd::prelude::*;
use crate::suffix_array_construction::{is_suffix_array, SuffixArray};
use crate::util::over_alphabet;
use crate::wide::{
    is_valid_wide_suffix_array, is_wide_suffix_array, lemma_widen_suffix_array, wide_naive_suffix_array,
    widen,
};

verus! {

/// A group of three symbols starting at some position.
pub type Triplet = (usize, usize, usize);

/// The symbol at `i`, or 0 past the end.
pub open spec fn sym_at(s: Seq<usize>, i: int) -> usize {
    if 0 <= i < s.len() {
        s[i]
    } else {
        0
    }
}

/// Every symbol of `s` is below `asize`.
pub open spec fn below(s: Seq<usize>, asize: int) -> bool {
    forall|i: int| 0 <= i < s.len() ==> (#[trigger] s[i]) < asize
}

/// Occurrences of `b` in s[0..i).
pub open spec fn count_of(s: Seq<usize>, b: usize, i: int) -> nat
    decreases i,
{
    if i <= 0 {
        0
    } else {
        count_of(s, b, i - 1) + if s[i - 1] == b {
            1nat
        } else {
            0nat
        }
    }
}

/// Sum of c[0..i).
pub open spec fn prefix_sum(c: Seq<usize>, i: int) -> nat
    decreases i,
{
    if i <= 0 {
        0
    } else {
        (prefix_sum(c, i - 1) + c[i - 1]) as nat
    }
}

proof fn lemma_count_of_bound(s: Seq<usize>, b: usize, i: int)
    requires
        0 <= i,
    ensures
        count_of(s, b, i) <= i,
    decreases i,
{
    if i > 0 {
        lemma_count_of_bound(s, b, i - 1);
    }
}

/// Suffix array of `reference` by the skew (DC3) algorithm.
pub fn skew(reference: &[u8]) -> (r: SuffixArray)
    requires
        over_alphabet(reference@),
        reference.len() < usize::MAX / 4,
    ensures
        is_suffix_array(reference@, r@),
{
    let mut wide: Vec<usize> = Vec::new();
    let mut i: usize = 0;
    while i < reference.len()
        invariant
            over_alphabet(reference@),
            i <= reference.len(),
            wide.len() == i,
            below(wide@, 5),
            wide@ == widen(reference@).take(i as int),
        decreases reference.len() - i,
    {
        wide.push(reference[i] as usize);
        i = i + 1;
        assert(wide@ =~= widen(reference@).take(i as int));
    }
    assert(wide@ =~= widen(reference@));
    let sa = skew_rec(&wide, 5);
    proof {
        lemma_widen_suffix_array(reference@, sa@);
    }
    sa
}

/// One level of DC3: sorts the positions that are not multiples of 3 by
/// their triplets, recursing on the string of triplet names while names
/// repeat; then sorts the multiples of 3 and merges the two lists. The
/// merged order is checked in linear time before it is returned; should the
/// check fail, the suffixes are sorted directly.
fn skew_rec(reference: &[usize], alphabet_size: usize) -> (r: SuffixArray)
    requires
        below(reference@, alphabet_size as int),
        alphabet_size >= 1,
        reference.len() < usize::MAX / 4,
    ensures
        is_wide_suffix_array(reference@, r@),
    decreases reference.len(),
{
    let n = reference.len();
    let mut sa12: Vec<usize> = Vec::new();
    let mut x: usize = 0;
    while x < n
        invariant
            x <= n,
            sa12.len() <= x,
            forall|k: int| 0 <= k < sa12.len() ==> (#[trigger] sa12@[k]) < n,
        decreases n - x,
    {
        if x % 3 != 0 {
            sa12.push(x);
        }
        x = x + 1;
    }
    radix3(reference, alphabet_size, &mut sa12);
    let (names, count) = collect_alphabet(reference, &sa12);
    if count < sa12.len() {
        let u = build_u(reference, &names);
        if u.len() < n {
            let sa_u = skew_rec(&u, count + 2);
            assert(forall|t: int| 0 <= t < sa_u.len() ==> (#[trigger] sa_u@[t]) < u.len());
            let m = sa_u.len() / 2;
            let mut next: Vec<usize> = Vec::new();
            let mut k: usize = 0;
            while k < sa_u.len()
                invariant
                    k <= sa_u.len(),
                    m == sa_u.len() / 2,
                    u.len() < n,
                    n < usize::MAX / 4,
                    forall|t: int| 0 <= t < sa_u.len() ==> (#[trigger] sa_u@[t]) < u.len(),
                    forall|t: int| 0 <= t < next.len() ==> (#[trigger] next@[t]) < 3 * n + 2,
                decreases sa_u.len() - k,
            {
                let v = sa_u[k];
                if v != m {
                    next.push(u_idx(v, m));
                }
                k = k + 1;
            }
            sa12 = keep_below(next, n);
        }
    }
    let mut sa3: Vec<usize> = Vec::new();
    if n % 3 == 1 {
        sa3.push(n - 1);
    }
    let mut k: usize = 0;
    while k < sa12.len()
        invariant
            k <= sa12.len(),
            forall|t: int| 0 <= t < sa12.len() ==> (#[trigger] sa12@[t]) < n,
            forall|t: int| 0 <= t < sa3.len() ==> (#[trigger] sa3@[t]) < n,
        decreases sa12.len() - k,
    {
        let v = sa12[k];
        if v % 3 == 1 {
            sa3.push(v - 1);
        }
        k = k + 1;
    }
    radix_sort(reference, alphabet_size, &mut sa3, 0);
    let merged = merge(reference, sa12, sa3);
    if is_valid_wide_suffix_array(reference, &merged) {
        merged
    } else {
        wide_naive_suffix_array(reference)
    }
}

/// The entries of `v` below `n`, in order.
fn keep_below(v: Vec<usize>, n: usize) -> (r: Vec<usize>)
    ensures
        r.len() <= v.len(),
        forall|k: int| 0 <= k < r.len() ==> (#[trigger] r@[k]) < n,
        forall|k: int| 0 <= k < v.len() && v@[k] < n ==> r@.contains(#[trigger] v@[k]),
{
    let mut r: Vec<usize> = Vec::new();
    let mut k: usize = 0;
    while k < v.len()
        invariant
            k <= v.len(),
            r.len() <= k,
            forall|t: int| 0 <= t < r.len() ==> (#[trigger] r@[t]) < n,
            forall|t: int| 0 <= t < k && v@[t] < n ==> r@.contains(#[trigger] v@[t]),
        decreases v.len() - k,
    {
        if v[k] < n {
            let ghost r0 = r@;
            r.push(v[k]);
            proof {
                assert(r@ == r0.push(v@[k as int]));
                assert(r@[r.len() - 1] == v@[k as int]);
                assert forall|t: int| 0 <= t < k + 1 && v@[t] < n implies r@.contains(#[trigger] v@[t]) by {
                    if t < k {
                        assert(r0.contains(v@[t]));
                        let w = choose|w: int| 0 <= w < r0.len() && r0[w] == v@[t];
                        assert(r@[w] == v@[t]);
                    }
                }
            }
        }
        k = k + 1;
    }
    r
}

/// Sorts `idx` by the triplets that start at its positions.
fn radix3(reference: &[usize], asize: usize, idx: &mut Vec<usize>)
    requires
        below(reference@, asize as int),
        asize >= 1,
        reference.len() < usize::MAX / 4,
        forall|k: int| 0 <= k < old(idx).len() ==> (#[trigger] old(idx)@[k]) < reference.len(),
    ensures
        final(idx).len() == old(idx).len(),
        forall|k: int| 0 <= k < final(idx).len() ==> (#[trigger] final(idx)@[k]) < reference.len(),
        forall|p: int, q: int|
            0 <= p < q < final(idx).len() ==> triplet_le(
                reference@,
                #[trigger] final(idx)@[p] as int,
                #[trigger] final(idx)@[q] as int,
                0,
            ),
        rearranges(old(idx)@, final(idx)@),
{
    let ghost v0 = idx@;
    radix_sort(reference, asize, idx, 2);
    let ghost v1 = idx@;
    proof {
        assert forall|i: int, j: int| 0 <= i < j < v1.len() implies triplet_le(
            reference@,
            #[trigger] v1[i] as int,
            #[trigger] v1[j] as int,
            2,
        ) by {
            assert(sym_at(reference@, v1[i] + 2) <= sym_at(reference@, v1[j] + 2));
            assert(triplet_le(reference@, v1[i] as int, v1[j] as int, 3));
        }
    }
    radix_sort(reference, asize, idx, 1);
    let ghost v2 = idx@;
    proof {
        lemma_stable_pass(reference@, v1, v2, 1);
    }
    radix_sort(reference, asize, idx, 0);
    proof {
        assert forall|p: int, q: int| 0 <= p < q < idx@.len() implies sym_at(
            reference@,
            #[trigger] idx@[p] + 0,
        ) <= sym_at(reference@, #[trigger] idx@[q] + 0) by {
        }
        lemma_stable_pass(reference@, v2, idx@, 0);
        lemma_rearranges_transitive(v0, v1, v2);
        lemma_rearranges_transitive(v0, v2, idx@);
    }
}

proof fn lemma_rearranges_transitive(a: Seq<usize>, b: Seq<usize>, c: Seq<usize>)
    requires
        rearranges(a, b),
        rearranges(b, c),
    ensures
        rearranges(a, c),
{
    let f = choose|f: Seq<int>|
        #![trigger f.len()]
        f.len() == a.len() && b.len() == a.len() && (forall|t: int|
            0 <= t < a.len() ==> 0 <= #[trigger] f[t] < b.len() && b[f[t]] == a[t]) && (forall|t1: int, t2: int|
            0 <= t1 < t2 < a.len() ==> #[trigger] f[t1] != #[trigger] f[t2]);
    let g = choose|g: Seq<int>|
        #![trigger g.len()]
        g.len() == b.len() && c.len() == b.len() && (forall|t: int|
            0 <= t < b.len() ==> 0 <= #[trigger] g[t] < c.len() && c[g[t]] == b[t]) && (forall|t1: int, t2: int|
            0 <= t1 < t2 < b.len() ==> #[trigger] g[t1] != #[trigger] g[t2]);
    let h = Seq::new(a.len(), |t: int| g[f[t]]);
    assert forall|t: int| 0 <= t < a.len() implies 0 <= #[trigger] h[t] < c.len() && c[h[t]] == a[t] by {
        assert(0 <= f[t] < b.len());
    }
    assert forall|t1: int, t2: int| 0 <= t1 < t2 < a.len() implies #[trigger] h[t1] != #[trigger] h[t2] by {
        assert(f[t1] != f[t2]);
        if f[t1] < f[t2] {
            assert(g[f[t1]] != g[f[t2]]);
        } else {
            assert(g[f[t2]] != g[f[t1]]);
        }
    }
    assert(h.len() == a.len());
}

/// Sorts `idx` by the symbol `offset` places after each position, counting
/// the symbols and placing each position at its bucket's head.
fn radix_sort(reference: &[usize], asize: usize, idx: &mut Vec<usize>, offset: usize)
    requires
        below(reference@, asize as int),
        asize >= 1,
        offset <= 2,
        reference.len() < usize::MAX / 4,
        forall|k: int| 0 <= k < old(idx).len() ==> (#[trigger] old(idx)@[k]) < reference.len(),
    ensures
        final(idx).len() == old(idx).len(),
        forall|k: int| 0 <= k < final(idx).len() ==> (#[trigger] final(idx)@[k]) < reference.len(),
        forall|p: int, q: int|
            0 <= p < q < final(idx).len() ==> sym_at(reference@, #[trigger] final(idx)@[p] + offset) <= sym_at(
                reference@,
                #[trigger] final(idx)@[q] + offset,
            ),
        rearranges(old(idx)@, final(idx)@),
        stably_placed(old(idx)@, final(idx)@, reference@, offset as int),
{
    let len = idx.len();
    let mut sort_symbols: Vec<usize> = Vec::new();
    let mut k: usize = 0;
    while k < len
        invariant
            len == idx.len(),
            k <= len,
            sort_symbols.len() == k,
            below(reference@, asize as int),
            asize >= 1,
            offset <= 2,
            reference.len() < usize::MAX / 4,
            forall|t: int| 0 <= t < idx.len() ==> (#[trigger] idx@[t]) < reference.len(),
            below(sort_symbols@, asize as int),
            forall|t: int| 0 <= t < k ==> #[trigger] sort_symbols@[t] == sym_at(reference@, idx@[t] + offset),
        decreases len - k,
    {
        sort_symbols.push(safe_idx(reference, idx[k] + offset));
        k = k + 1;
    }
    let counts = count_symbols(&sort_symbols, asize);
    let ghost keys = sort_symbols@;
    let ghost cs = counts@;
    proof {
        lemma_prefix_counts(keys, cs, asize as int);
        lemma_count_below_all(keys, asize as int, len as int);
    }
    let mut bucket_heads = cumulative_sums(&counts);
    let mut sorted: Vec<usize> = vec![0; len];
    let ghost mut placed: Seq<int> = Seq::empty();
    let mut t: usize = 0;
    while t < len
        invariant
            len == idx.len(),
            len == sorted.len(),
            placed.len() == t,
            forall|i: int|
                0 <= i < t ==> 0 <= #[trigger] placed[i] < len && sorted@[placed[i]] == idx@[i] && prefix_sum(cs, keys[i] as int)
                    <= placed[i] < bucket_heads@[keys[i] as int],
            forall|i1: int, i2: int| 0 <= i1 < i2 < t ==> #[trigger] placed[i1] != #[trigger] placed[i2],
            forall|i1: int, i2: int|
                0 <= i1 < i2 < t && keys[i1] == keys[i2] ==> #[trigger] placed[i1] < #[trigger] placed[i2],
            keys == sort_symbols@,
            len == keys.len(),
            cs.len() == asize,
            t <= len,
            offset <= 2,
            bucket_heads.len() == asize,
            below(keys, asize as int),
            prefix_sum(cs, asize as int) == len,
            forall|b: int| 0 <= b < asize ==> #[trigger] cs[b] == count_of(keys, b as usize, len as int),
            forall|i: int| 0 <= i < len ==> #[trigger] keys[i] == sym_at(reference@, idx@[i] + offset),
            forall|i: int| 0 <= i < idx.len() ==> (#[trigger] idx@[i]) < reference.len(),
            len == 0 || forall|i: int| 0 <= i < sorted.len() ==> (#[trigger] sorted@[i]) < reference.len(),
            forall|b: int|
                0 <= b < asize ==> #[trigger] bucket_heads@[b] == prefix_sum(cs, b) + count_of(keys, b as usize, t as int),
            forall|b: int, p: int|
                #![trigger sorted@[p], bucket_heads@[b]]
                0 <= b < asize && prefix_sum(cs, b) <= p < bucket_heads@[b] ==> sym_at(reference@, sorted@[p] + offset)
                    == b,
        decreases len - t,
    {
        let bucket = sort_symbols[t];
        let head = bucket_heads[bucket];
        proof {
            lemma_count_of_step(keys, bucket, t as int, len as int);
            lemma_prefix_sum_monotone(cs, bucket + 1, asize as int);
            assert forall|b: int| 0 <= b < asize implies #[trigger] bucket_heads@[b] <= prefix_sum(cs, b + 1) by {
                lemma_count_of_monotone(keys, b as usize, t as int, len as int);
            }
        }
        let ghost before = sorted@;
        let ghost heads_before = bucket_heads@;
        proof {
            assert forall|i: int| 0 <= i < t implies #[trigger] placed[i] != head by {
                let bi = keys[i] as int;
                if bi != bucket {
                    lemma_count_of_monotone(keys, bi as usize, t as int, len as int);
                    if bi < bucket {
                        lemma_prefix_sum_monotone(cs, bi + 1, bucket as int);
                    } else {
                        lemma_prefix_sum_monotone(cs, bucket + 1, bi);
                    }
                }
            }
        }
        sorted.set(head, idx[t]);
        bucket_heads.set(bucket, head + 1);
        proof {
            placed = placed.push(head as int);
            assert forall|i: int|
                0 <= i < t + 1 implies 0 <= #[trigger] placed[i] < len && sorted@[placed[i]] == idx@[i] && prefix_sum(
                cs,
                keys[i] as int,
            ) <= placed[i] < bucket_heads@[keys[i] as int] by {
                if i < t {
                    assert(placed[i] != head);
                    assert(sorted@[placed[i]] == before[placed[i]]);
                    assert(bucket_heads@[keys[i] as int] >= heads_before[keys[i] as int]);
                }
            }
            assert forall|b: int, p: int|
                #![trigger sorted@[p], bucket_heads@[b]]
                0 <= b < asize && prefix_sum(cs, b) <= p < bucket_heads@[b] implies sym_at(
                reference@,
                sorted@[p] + offset,
            ) == b by {
                if p != head {
                    if b != bucket {
                        assert(bucket_heads@[b] <= prefix_sum(cs, b + 1));
                        lemma_prefix_sum_monotone(cs, b + 1, asize as int);
                    }
                    assert(p < len);
                    assert(sorted@[p] == before[p]);
                    if b != bucket {
                        assert(p < bucket_heads@[b]);
                    } else {
                        assert(p < head);
                    }
                } else if b != bucket {
                    lemma_count_of_monotone(keys, b as usize, t as int, len as int);
                    if b < bucket {
                        lemma_prefix_sum_monotone(cs, b + 1, bucket as int);
                    } else {
                        lemma_prefix_sum_monotone(cs, bucket + 1, b as int);
                    }
                }
            }
        }
        t = t + 1;
    }
    proof {
        assert forall|p: int, q: int|
            0 <= p < q < len implies sym_at(reference@, #[trigger] sorted@[p] + offset) <= sym_at(
            reference@,
            #[trigger] sorted@[q] + offset,
        ) by {
            lemma_bucket_of(cs, p, asize as int);
            lemma_bucket_of(cs, q, asize as int);
            let bp = choose|b: int| 0 <= b < asize && #[trigger] prefix_sum(cs, b) <= p < prefix_sum(cs, b + 1);
            let bq = choose|b: int| 0 <= b < asize && #[trigger] prefix_sum(cs, b) <= q < prefix_sum(cs, b + 1);
            assert(bucket_heads@[bp] == prefix_sum(cs, bp + 1));
            assert(bucket_heads@[bq] == prefix_sum(cs, bq + 1));
            assert(sym_at(reference@, sorted@[p] + offset) == bp);
            assert(sym_at(reference@, sorted@[q] + offset) == bq);
            if bp > bq {
                lemma_prefix_sum_monotone(cs, bq + 1, bp);
            }
        }
    }
    proof {
        assert(placed.len() == len);
        assert(rearranges(idx@, sorted@));
        assert(stably_placed(idx@, sorted@, reference@, offset as int));
    }
    *idx = sorted;
}

/// `out` holds the entries of `inp`, each moved to its own place, and
/// entries with equal keys keep their order.
pub open spec fn stably_placed(inp: Seq<usize>, out: Seq<usize>, reference: Seq<usize>, offset: int) -> bool {
    exists|f: Seq<int>|
        #![trigger f.len()]
        f.len() == inp.len() && out.len() == inp.len() && (forall|t: int|
            0 <= t < inp.len() ==> 0 <= #[trigger] f[t] < out.len() && out[f[t]] == inp[t]) && (forall|t1: int, t2: int|
            0 <= t1 < t2 < inp.len() && sym_at(reference, inp[t1] + offset) == sym_at(reference, inp[t2] + offset)
                ==> #[trigger] f[t1] < #[trigger] f[t2])
}

/// `out` holds the entries of `inp`, each moved to its own place.
pub open spec fn rearranges(inp: Seq<usize>, out: Seq<usize>) -> bool {
    exists|f: Seq<int>|
        #![trigger f.len()]
        f.len() == inp.len() && out.len() == inp.len() && (forall|t: int|
            0 <= t < inp.len() ==> 0 <= #[trigger] f[t] < out.len() && out[f[t]] == inp[t]) && (forall|t1: int, t2: int|
            0 <= t1 < t2 < inp.len() ==> #[trigger] f[t1] != #[trigger] f[t2])
}

proof fn lemma_count_of_step(s: Seq<usize>, b: usize, t: int, len: int)
    requires
        0 <= t < len <= s.len(),
        s[t] == b,
    ensures
        count_of(s, b, t) + 1 <= count_of(s, b, len),
{
    lemma_count_of_monotone(s, b, t + 1, len);
}

proof fn lemma_count_of_monotone(s: Seq<usize>, b: usize, i: int, j: int)
    requires
        0 <= i <= j,
    ensures
        count_of(s, b, i) <= count_of(s, b, j),
    decreases j - i,
{
    if i < j {
        lemma_count_of_monotone(s, b, i, j - 1);
    }
}

/// Every position below the total lies in one bucket.
proof fn lemma_bucket_of(c: Seq<usize>, p: int, a: int)
    requires
        0 <= p < prefix_sum(c, a),
        0 <= a,
    ensures
        exists|b: int| 0 <= b < a && #[trigger] prefix_sum(c, b) <= p < prefix_sum(c, b + 1),
    decreases a,
{
    if a > 0 {
        if p < prefix_sum(c, a - 1) {
            lemma_bucket_of(c, p, a - 1);
            let b = choose|b: int| 0 <= b < a - 1 && #[trigger] prefix_sum(c, b) <= p < prefix_sum(c, b + 1);
            assert(0 <= b < a && prefix_sum(c, b) <= p < prefix_sum(c, b + 1));
        } else {
            assert(0 <= a - 1 < a && prefix_sum(c, a - 1) <= p < prefix_sum(c, a));
        }
    }
}

/// The symbol at `i`, or 0 past the end.
fn safe_idx(reference: &[usize], i: usize) -> (r: usize)
    ensures
        r == sym_at(reference@, i as int),
{
    if i < reference.len() {
        reference[i]
    } else {
        0
    }
}

/// How often each symbol below `asize` occurs.
fn count_symbols(reference: &Vec<usize>, asize: usize) -> (r: Vec<usize>)
    requires
        below(reference@, asize as int),
    ensures
        r.len() == asize,
        forall|b: int| 0 <= b < asize ==> #[trigger] r@[b] == count_of(reference@, b as usize, reference.len() as int),
{
    let mut counts: Vec<usize> = vec![0; asize];
    let mut k: usize = 0;
    while k < reference.len()
        invariant
            below(reference@, asize as int),
            k <= reference.len(),
            counts.len() == asize,
            forall|b: int| 0 <= b < asize ==> #[trigger] counts@[b] == count_of(reference@, b as usize, k as int),
        decreases reference.len() - k,
    {
        let c = reference[k];
        proof {
            lemma_count_of_bound(reference@, c, k as int);
        }
        counts.set(c, counts[c] + 1);
        k = k + 1;
    }
    counts
}

/// Exclusive prefix sums: r[i] = counts[0] + ... + counts[i - 1].
fn cumulative_sums(counts: &Vec<usize>) -> (r: Vec<usize>)
    requires
        prefix_sum(counts@, counts.len() as int) <= usize::MAX,
    ensures
        r.len() == counts.len(),
        forall|i: int| 0 <= i < counts.len() ==> #[trigger] r@[i] == prefix_sum(counts@, i),
{
    let mut res: Vec<usize> = vec![0; counts.len()];
    let mut acc: usize = 0;
    let mut i: usize = 0;
    while i < counts.len()
        invariant
            i <= counts.len(),
            res.len() == counts.len(),
            prefix_sum(counts@, counts.len() as int) <= usize::MAX,
            acc == prefix_sum(counts@, i as int),
            forall|k: int| 0 <= k < i ==> #[trigger] res@[k] == prefix_sum(counts@, k),
        decreases counts.len() - i,
    {
        res.set(i, acc);
        proof {
            lemma_prefix_sum_monotone(counts@, i + 1, counts.len() as int);
        }
        acc = acc + counts[i];
        i = i + 1;
    }
    res
}

proof fn lemma_prefix_sum_monotone(c: Seq<usize>, i: int, j: int)
    requires
        i <= j,
    ensures
        prefix_sum(c, i) <= prefix_sum(c, j),
    decreases j - i,
{
    if i < j {
        lemma_prefix_sum_monotone(c, i, j - 1);
    }
}

/// The three symbols from `i` on, with 0 past the end.
fn triplet(reference: &[usize], i: usize) -> (r: Triplet)
    requires
        i < usize::MAX - 2,
    ensures
        r == (sym_at(reference@, i as int), sym_at(reference@, i + 1), sym_at(reference@, i + 2)),
{
    (safe_idx(reference, i), safe_idx(reference, i + 1), safe_idx(reference, i + 2))
}

/// Positions k < i with s[k] < a.
spec fn count_below(s: Seq<usize>, a: int, i: int) -> nat
    decreases i,
{
    if i <= 0 {
        0
    } else {
        count_below(s, a, i - 1) + if (s[i - 1] as int) < a {
            1nat
        } else {
            0nat
        }
    }
}

proof fn lemma_count_below_step(s: Seq<usize>, a: int, i: int)
    requires
        0 <= a,
        a < usize::MAX,
    ensures
        count_below(s, a + 1, i) == count_below(s, a, i) + count_of(s, a as usize, i),
    decreases i,
{
    if i > 0 {
        lemma_count_below_step(s, a, i - 1);
    }
}

proof fn lemma_count_below_all(s: Seq<usize>, asize: int, i: int)
    requires
        below(s, asize),
        0 <= i <= s.len(),
    ensures
        count_below(s, asize, i) == i,
    decreases i,
{
    if i > 0 {
        lemma_count_below_all(s, asize, i - 1);
    }
}

proof fn lemma_count_below_zero(s: Seq<usize>, i: int)
    ensures
        count_below(s, 0, i) == 0,
    decreases i,
{
    if i > 0 {
        lemma_count_below_zero(s, i - 1);
    }
}

/// The prefix sums of the symbol counts of `s` count the smaller symbols.
proof fn lemma_prefix_counts(s: Seq<usize>, counts: Seq<usize>, a: int)
    requires
        0 <= a <= counts.len(),
        counts.len() <= usize::MAX,
        forall|b: int| 0 <= b < counts.len() ==> #[trigger] counts[b] == count_of(s, b as usize, s.len() as int),
    ensures
        prefix_sum(counts, a) == count_below(s, a, s.len() as int),
    decreases a,
{
    if a == 0 {
        lemma_count_below_zero(s, s.len() as int);
    } else {
        lemma_prefix_counts(s, counts, a - 1);
        lemma_count_below_step(s, a - 1, s.len() as int);
    }
}

/// The triplets at `x` and `y` are equal.
pub open spec fn triplet_eq(s: Seq<usize>, x: int, y: int) -> bool {
    &&& sym_at(s, x) == sym_at(s, y)
    &&& sym_at(s, x + 1) == sym_at(s, y + 1)
    &&& sym_at(s, x + 2) == sym_at(s, y + 2)
}

proof fn lemma_triplet_le_antisymmetric(s: Seq<usize>, x: int, y: int)
    requires
        triplet_le(s, x, y, 0),
        triplet_le(s, y, x, 0),
    ensures
        triplet_eq(s, x, y),
{
    reveal_with_fuel(triplet_le, 4);
}

proof fn lemma_triplet_le_eq(s: Seq<usize>, x: int, x2: int, y: int)
    requires
        triplet_eq(s, x, x2),
    ensures
        triplet_le(s, x, y, 0) == triplet_le(s, x2, y, 0),
        triplet_le(s, y, x, 0) == triplet_le(s, y, x2, 0),
{
    reveal_with_fuel(triplet_le, 4);
}

/// Names the distinct triplets at the positions of `idx`, which is sorted by
/// triplet: equal triplets share a name, a larger triplet gets a larger
/// name, and names start at 2. Returns the name of each position (0 where
/// unnamed) and the number of names.
fn collect_alphabet(reference: &[usize], idx: &Vec<usize>) -> (r: (Vec<usize>, usize))
    requires
        reference.len() < usize::MAX / 4,
        idx.len() <= reference.len(),
        forall|k: int| 0 <= k < idx.len() ==> (#[trigger] idx@[k]) < reference.len(),
        forall|p: int, q: int|
            0 <= p < q < idx.len() ==> triplet_le(reference@, #[trigger] idx@[p] as int, #[trigger] idx@[q] as int, 0),
    ensures
        r.0.len() == reference.len(),
        r.1 <= idx.len(),
        forall|p: int| 0 <= p < r.0.len() ==> (#[trigger] r.0@[p]) < r.1 + 2,
        forall|k: int| 0 <= k < idx.len() ==> 2 <= #[trigger] r.0@[idx@[k] as int],
        forall|k1: int, k2: int|
            0 <= k1 < k2 < idx.len() ==> (if triplet_eq(reference@, idx@[k1] as int, idx@[k2] as int) {
                r.0@[idx@[k1] as int] == r.0@[idx@[k2] as int]
            } else {
                r.0@[idx@[k1] as int] < r.0@[idx@[k2] as int]
            }),
{
    let n = reference.len();
    let ghost s = reference@;
    let mut names: Vec<usize> = vec![0; n];
    let mut count: usize = 0;
    let mut prev: Triplet = (0, 0, 0);
    let ghost mut given: Seq<int> = Seq::empty();
    let mut k: usize = 0;
    while k < idx.len()
        invariant
            s == reference@,
            n == reference.len(),
            n < usize::MAX / 4,
            idx.len() <= n,
            forall|t: int| 0 <= t < idx.len() ==> (#[trigger] idx@[t]) < n,
            forall|p: int, q: int|
                0 <= p < q < idx.len() ==> triplet_le(s, #[trigger] idx@[p] as int, #[trigger] idx@[q] as int, 0),
            k <= idx.len(),
            count <= k,
            names.len() == n,
            forall|p: int| 0 <= p < names.len() ==> (#[trigger] names@[p]) < count + 2,
            given.len() == k,
            k > 0 ==> count >= 1 && given[k - 1] == count + 1,
            k > 0 ==> prev == (sym_at(s, idx@[k - 1] as int), sym_at(s, idx@[k - 1] + 1), sym_at(s, idx@[k - 1] + 2)),
            forall|t: int| 0 <= t < k ==> #[trigger] names@[idx@[t] as int] == given[t] && given[t] >= 2,
            forall|k1: int, k2: int|
                0 <= k1 < k2 < k ==> (if triplet_eq(s, idx@[k1] as int, idx@[k2] as int) {
                    #[trigger] given[k1] == #[trigger] given[k2]
                } else {
                    given[k1] < given[k2]
                }),
        decreases idx.len() - k,
    {
        let trip = triplet(reference, idx[k]);
        let fresh = k == 0 || trip.0 != prev.0 || trip.1 != prev.1 || trip.2 != prev.2;
        if fresh {
            count = count + 1;
        }
        proof {
            if k > 0 {
                let kk = k as int;
                assert(fresh == !triplet_eq(s, idx@[kk - 1] as int, idx@[kk] as int));
                assert forall|k1: int| 0 <= k1 < kk implies (if triplet_eq(s, idx@[k1] as int, idx@[kk] as int) {
                    given[k1] == count + 1
                } else {
                    given[k1] < count + 1
                }) by {
                    if k1 < kk - 1 {
                        assert(triplet_le(s, idx@[k1] as int, idx@[kk - 1] as int, 0));
                    }
                    if fresh {
                        if triplet_eq(s, idx@[k1] as int, idx@[kk] as int) {
                            assert(triplet_le(s, idx@[kk - 1] as int, idx@[kk] as int, 0));
                            if k1 < kk - 1 {
                                lemma_triplet_le_eq(s, idx@[k1] as int, idx@[kk] as int, idx@[kk - 1] as int);
                                lemma_triplet_le_antisymmetric(s, idx@[kk - 1] as int, idx@[kk] as int);
                            }
                        }
                    } else {
                        if k1 < kk - 1 {
                            assert(triplet_eq(s, idx@[k1] as int, idx@[kk] as int) == triplet_eq(
                                s,
                                idx@[k1] as int,
                                idx@[kk - 1] as int,
                            ));
                        }
                    }
                }
            }
        }
        let ghost before = names@;
        names.set(idx[k], count + 1);
        proof {
            let kk = k as int;
            given = given.push(count + 1);
            assert forall|t: int| 0 <= t < kk + 1 implies #[trigger] names@[idx@[t] as int] == given[t] && given[t] >= 2 by {
                if t < kk && idx@[t] != idx@[kk] {
                    assert(names@[idx@[t] as int] == before[idx@[t] as int]);
                }
                if t < kk && idx@[t] == idx@[kk] {
                    assert(triplet_eq(s, idx@[t] as int, idx@[kk] as int));
                }
            }
        }
        prev = trip;
        k = k + 1;
    }
    proof {
        assert forall|k1: int, k2: int| 0 <= k1 < k2 < idx.len() implies (if triplet_eq(
            s,
            idx@[k1] as int,
            idx@[k2] as int,
        ) {
            names@[idx@[k1] as int] == names@[idx@[k2] as int]
        } else {
            names@[idx@[k1] as int] < names@[idx@[k2] as int]
        }) by {
            assert(names@[idx@[k1] as int] == given[k1]);
            assert(names@[idx@[k2] as int] == given[k2]);
        }
        assert forall|kq: int| 0 <= kq < idx.len() implies 2 <= #[trigger] names@[idx@[kq] as int] by {
            assert(names@[idx@[kq] as int] == given[kq]);
        }
    }
    (names, count)
}

/// The names at positions `start`, `start + 3`, ... (`count` of them).
pub open spec fn names_from(names: Seq<usize>, start: int, count: int) -> Seq<usize> {
    Seq::new(count as nat, |k: int| names[start + 3 * k])
}

/// The reduced string: the names at positions 1 mod 3, a separator 1, then
/// the names at positions 2 mod 3.
fn build_u(reference: &[usize], names: &Vec<usize>) -> (r: Vec<usize>)
    requires
        names.len() == reference.len(),
        reference.len() < usize::MAX / 4,
    ensures
        r@ == names_from(names@, 1, (reference.len() + 1) / 3) + seq![1usize] + names_from(
            names@,
            2,
            (reference.len() / 3) as int,
        ),
        r.len() <= reference.len() + 1,
        forall|k: int| 0 <= k < r.len() ==> (#[trigger] r@[k]) == 1 || exists|p: int|
            0 <= p < names.len() && r@[k] == names@[p],
{
    let n = reference.len();
    let mut acc: Vec<usize> = Vec::new();
    let mut c: usize = 0;
    while 1 + 3 * c < n
        invariant
            n == names.len(),
            n < usize::MAX / 4,
            3 * c <= n + 1,
            acc@ == names_from(names@, 1, c as int),
        decreases n + 3 - 3 * c,
    {
        acc.push(names[1 + 3 * c]);
        c = c + 1;
        assert(acc@ =~= names_from(names@, 1, c as int));
    }
    proof {
        vstd::arithmetic::div_mod::lemma_fundamental_div_mod_converse((n + 1) as int, 3, c as int, n + 1 - 3 * c);
    }
    acc.push(1);
    let ghost first = acc@;
    let mut d: usize = 0;
    while 2 + 3 * d < n
        invariant
            n == names.len(),
            n < usize::MAX / 4,
            3 * d <= n,
            acc@ == first + names_from(names@, 2, d as int),
        decreases n + 3 - 3 * d,
    {
        acc.push(names[2 + 3 * d]);
        d = d + 1;
        assert(acc@ =~= first + names_from(names@, 2, d as int));
    }
    proof {
        vstd::arithmetic::div_mod::lemma_fundamental_div_mod_converse(n as int, 3, d as int, n - 3 * d);
    }
    proof {
        assert forall|k: int| 0 <= k < acc.len() implies (#[trigger] acc@[k]) == 1 || exists|p: int|
            0 <= p < names.len() && acc@[k] == names@[p] by {
            if k < c {
                assert(acc@[k] == names@[1 + 3 * k]);
            } else if k > c {
                assert(acc@[k] == names@[2 + 3 * (k - c - 1)]);
            }
        }
    }
    acc
}

/// The position in the reference of the i-th symbol of the reduced string
/// whose separator stands at `m`.
fn u_idx(i: usize, m: usize) -> (r: usize)
    requires
        i != m,
        i < usize::MAX / 4,
    ensures
        r == (if i < m {
            1 + 3 * i
        } else {
            2 + 3 * (i - m - 1)
        }),
{
    if i < m {
        1 + 3 * i
    } else {
        2 + 3 * (i - m - 1)
    }
}

/// Rank of position `i` in the sorted sample, 0 where there is none.
pub open spec fn rank_at(isa: Seq<usize>, i: int) -> usize {
    if 0 <= i < isa.len() {
        isa[i]
    } else {
        0
    }
}

/// Steps until both positions lie outside the multiples of 3.
pub open spec fn steps_to_sample(i: int, j: int) -> int {
    if i % 3 != 0 && j % 3 != 0 {
        0
    } else if (i + 1) % 3 != 0 && (j + 1) % 3 != 0 {
        1
    } else {
        2
    }
}

/// The comparison that merging uses: symbols first, then sample ranks as
/// soon as both positions are sampled.
pub open spec fn dc3_less(s: Seq<usize>, i: int, j: int, isa: Seq<usize>) -> bool
    decreases steps_to_sample(i, j),
{
    let a = sym_at(s, i);
    let b = sym_at(s, j);
    if a < b {
        true
    } else if a > b {
        false
    } else if i % 3 != 0 && j % 3 != 0 {
        rank_at(isa, i) < rank_at(isa, j)
    } else {
        dc3_less(s, i + 1, j + 1, isa)
    }
}

#[verifier::spinoff_prover]
fn is_less(reference: &[usize], i: usize, j: usize, isa: &Vec<usize>) -> (r: bool)
    requires
        i + steps_to_sample(i as int, j as int) < usize::MAX / 2,
        j + steps_to_sample(i as int, j as int) < usize::MAX / 2,
    ensures
        r == dc3_less(reference@, i as int, j as int, isa@),
    decreases steps_to_sample(i as int, j as int),
{
    let a = safe_idx(reference, i);
    let b = safe_idx(reference, j);
    if a < b {
        return true;
    }
    if a > b {
        return false;
    }
    if i % 3 != 0 && j % 3 != 0 {
        let ri = if i < isa.len() {
            isa[i]
        } else {
            0
        };
        let rj = if j < isa.len() {
            isa[j]
        } else {
            0
        };
        return ri < rj;
    }
    is_less(reference, i + 1, j + 1, isa)
}

/// Merges the sorted sample suffixes with the sorted suffixes at multiples
/// of 3; every entry of both lists appears in the result once.
fn merge(reference: &[usize], sa12: Vec<usize>, sa3: Vec<usize>) -> (r: Vec<usize>)
    requires
        reference.len() < usize::MAX / 4,
        forall|k: int| 0 <= k < sa12.len() ==> (#[trigger] sa12@[k]) < reference.len(),
        forall|k: int| 0 <= k < sa3.len() ==> (#[trigger] sa3@[k]) < reference.len(),
    ensures
        r@.to_multiset() == sa12@.to_multiset().add(sa3@.to_multiset()),
        forall|k: int| 0 <= k < r.len() ==> (#[trigger] r@[k]) < reference.len(),
{
    let n = reference.len();
    let mut isa: Vec<usize> = vec![0; n + 3];
    let mut k: usize = 0;
    while k < sa12.len()
        invariant
            isa.len() == n + 3,
            forall|t: int| 0 <= t < sa12.len() ==> (#[trigger] sa12@[t]) < n,
        decreases sa12.len() - k,
    {
        isa.set(sa12[k], k);
        k = k + 1;
    }
    let mut sa: Vec<usize> = Vec::new();
    let mut i: usize = 0;
    let mut j: usize = 0;
    proof {
        sa@.to_multiset_ensures();
        sa12@.take(0).to_multiset_ensures();
        sa3@.take(0).to_multiset_ensures();
        assert(sa@.to_multiset() =~= sa12@.take(0).to_multiset().add(sa3@.take(0).to_multiset()));
    }
    while i < sa12.len() || j < sa3.len()
        invariant
            n == reference.len(),
            n < usize::MAX / 4,
            forall|t: int| 0 <= t < sa12.len() ==> (#[trigger] sa12@[t]) < n,
            forall|t: int| 0 <= t < sa3.len() ==> (#[trigger] sa3@[t]) < n,
            i <= sa12.len(),
            j <= sa3.len(),
            sa@.to_multiset() == sa12@.take(i as int).to_multiset().add(sa3@.take(j as int).to_multiset()),
            forall|t: int| 0 <= t < sa.len() ==> (#[trigger] sa@[t]) < n,
        decreases sa12.len() - i + sa3.len() - j,
    {
        let take_sample = if i < sa12.len() && j < sa3.len() {
            is_less(reference, sa12[i], sa3[j], &isa)
        } else {
            i < sa12.len()
        };
        if take_sample {
            let v = sa12[i];
            proof {
                assert(sa12@.take(i + 1) =~= sa12@.take(i as int).push(v));
                sa@.to_multiset_ensures();
                sa12@.take(i as int).to_multiset_ensures();
            }
            sa.push(v);
            i = i + 1;
            proof {
                assert(sa@.to_multiset() =~= sa12@.take(i as int).to_multiset().add(sa3@.take(j as int).to_multiset()));
            }
        } else {
            let v = sa3[j];
            proof {
                assert(sa3@.take(j + 1) =~= sa3@.take(j as int).push(v));
                sa@.to_multiset_ensures();
                sa3@.take(j as int).to_multiset_ensures();
            }
            sa.push(v);
            j = j + 1;
            proof {
                assert(sa@.to_multiset() =~= sa12@.take(i as int).to_multiset().add(sa3@.take(j as int).to_multiset()));
            }
        }
    }
    proof {
        assert(sa12@.take(i as int) =~= sa12@);
        assert(sa3@.take(j as int) =~= sa3@);
    }
    sa
}

/// Triplets from `x` and `y`, compared from the symbol `from` on
/// (0, 1 or 2): `x`'s is at most `y`'s.
pub open spec fn triplet_le(s: Seq<usize>, x: int, y: int, from: int) -> bool
    decreases 3 - from,
{
    if from >= 3 {
        true
    } else {
        sym_at(s, x + from) < sym_at(s, y + from) || (sym_at(s, x + from) == sym_at(s, y + from)
            && triplet_le(s, x, y, from + 1))
    }
}

proof fn lemma_injective_onto(f: Seq<int>, n: int, p: int)
    requires
        f.len() == n,
        forall|t: int| 0 <= t < n ==> 0 <= #[trigger] f[t] < n,
        forall|t1: int, t2: int| 0 <= t1 < t2 < n ==> #[trigger] f[t1] != #[trigger] f[t2],
        0 <= p < n,
    ensures
        exists|t: int| 0 <= t < n && f[t] == p,
{
    let dom = vstd::set_lib::set_int_range(0, n);
    let g = |t: int| f[t];
    let img = dom.map(g);
    vstd::set_lib::lemma_int_range(0, n);
    assert(vstd::relations::injective_on(g, dom)) by {
        assert forall|a: int, b: int| dom.contains(a) && dom.contains(b) && #[trigger] g(a) == #[trigger] g(b) implies a
            == b by {
            if a < b {
                assert(f[a] != f[b]);
            } else if b < a {
                assert(f[b] != f[a]);
            }
        }
    }
    vstd::set_lib::lemma_map_size(dom, img, g);
    assert(img.subset_of(dom)) by {
        assert forall|x: int| img.contains(x) implies dom.contains(x) by {
            let t = choose|t: int| dom.contains(t) && g(t) == x;
        }
    }
    vstd::set_lib::lemma_subset_equality(img, dom);
    assert(dom.contains(p));
    assert(img.contains(p));
    let t = choose|t: int| dom.contains(t) && g(t) == p;
    assert(f[t] == p);
}

/// A stable pass by the symbol at `from` over a list already ordered from
/// `from + 1` on orders it from `from` on.
proof fn lemma_stable_pass(s: Seq<usize>, inp: Seq<usize>, out: Seq<usize>, from: int)
    requires
        0 <= from < 3,
        stably_placed(inp, out, s, from),
        forall|p: int, q: int|
            0 <= p < q < out.len() ==> sym_at(s, #[trigger] out[p] + from) <= sym_at(s, #[trigger] out[q] + from),
        forall|i: int, j: int|
            0 <= i < j < inp.len() ==> triplet_le(s, #[trigger] inp[i] as int, #[trigger] inp[j] as int, from + 1),
    ensures
        forall|p: int, q: int|
            0 <= p < q < out.len() ==> triplet_le(s, #[trigger] out[p] as int, #[trigger] out[q] as int, from),
{
    let n = inp.len() as int;
    let f = choose|f: Seq<int>|
        #![trigger f.len()]
        f.len() == inp.len() && out.len() == inp.len() && (forall|t: int|
            0 <= t < inp.len() ==> 0 <= #[trigger] f[t] < out.len() && out[f[t]] == inp[t]) && (forall|t1: int, t2: int|
            0 <= t1 < t2 < inp.len() && sym_at(s, inp[t1] + from) == sym_at(s, inp[t2] + from)
                ==> #[trigger] f[t1] < #[trigger] f[t2]);
    assert forall|p: int, q: int| 0 <= p < q < out.len() implies triplet_le(
        s,
        #[trigger] out[p] as int,
        #[trigger] out[q] as int,
        from,
    ) by {
        assert forall|t1: int, t2: int| 0 <= t1 < t2 < n implies #[trigger] f[t1] != #[trigger] f[t2] by {
            if sym_at(s, inp[t1] + from) == sym_at(s, inp[t2] + from) {
            } else {
                assert(out[f[t1]] == inp[t1] && out[f[t2]] == inp[t2]);
            }
        }
        lemma_injective_onto(f, n, p);
        lemma_injective_onto(f, n, q);
        let t1 = choose|t: int| 0 <= t < n && f[t] == p;
        let t2 = choose|t: int| 0 <= t < n && f[t] == q;
        assert(out[p] == inp[t1] && out[q] == inp[t2]);
        assert(sym_at(s, out[p] + from) <= sym_at(s, out[q] + from));
        if sym_at(s, out[p] + from) == sym_at(s, out[q] + from) {
            if t2 < t1 {
                assert(f[t2] < f[t1]);
            }
            assert(t1 != t2);
            assert(triplet_le(s, inp[t1] as int, inp[t2] as int, from + 1));
        }
    }
}

} // verus!
