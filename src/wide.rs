//! Suffix arrays of strings over `usize` symbols: the reduced strings that
//! DC3 and SA-IS sort by recursion, and the references widened to words.

use vstd::prelude::*;
use crate::suffix_array_construction::{
    is_permutation, is_suffix_array, lemma_permutation_onto, suffix_lt, SuffixArray,
};

verus! {

/// A reference of byte codes as a string of words.
pub open spec fn widen(s: Seq<u8>) -> Seq<usize> {
    s.map_values(|b: u8| b as usize)
}

proof fn lemma_widen_lt(s: Seq<u8>, x: int, y: int)
    requires
        0 <= x,
        0 <= y,
    ensures
        wide_suffix_lt(widen(s), x, y) == suffix_lt(s, x, y),
    decreases s.len() - x,
{
    if x < s.len() && y < s.len() {
        assert(widen(s)[x] == s[x] as usize && widen(s)[y] == s[y] as usize);
        lemma_widen_lt(s, x + 1, y + 1);
    }
}

/// The suffix array of a widened reference is the reference's suffix array.
pub proof fn lemma_widen_suffix_array(s: Seq<u8>, sa: Seq<usize>)
    requires
        is_wide_suffix_array(widen(s), sa),
    ensures
        is_suffix_array(s, sa),
{
    assert forall|i: int| 0 <= i < s.len() - 1 implies suffix_lt(s, #[trigger] sa[i] as int, sa[i + 1] as int) by {
        lemma_widen_lt(s, sa[i] as int, sa[i + 1] as int);
    }
}

/// The suffix of `s` at `x` is lexicographically smaller than the one at `y`
/// (a position at or past the end stands for the empty suffix).
pub open spec fn wide_suffix_lt(s: Seq<usize>, x: int, y: int) -> bool
    decreases s.len() - x,
{
    if x >= s.len() {
        y < s.len()
    } else if y >= s.len() {
        false
    } else if s[x] < s[y] {
        true
    } else if s[x] > s[y] {
        false
    } else {
        wide_suffix_lt(s, x + 1, y + 1)
    }
}


/// `sa` is the suffix array of `s`: a permutation of its positions in which
/// the suffixes increase strictly.
pub open spec fn is_wide_suffix_array(s: Seq<usize>, sa: Seq<usize>) -> bool {
    &&& is_permutation(sa, s.len() as int)
    &&& forall|i: int| 0 <= i < s.len() - 1 ==> wide_suffix_lt(s, #[trigger] sa[i] as int, sa[i + 1] as int)
}


pub proof fn lemma_wide_lt_irreflexive(s: Seq<usize>, x: int)
    requires
        0 <= x,
    ensures
        !wide_suffix_lt(s, x, x),
    decreases s.len() - x,
{
    if x < s.len() {
        lemma_wide_lt_irreflexive(s, x + 1);
    }
}

pub proof fn lemma_wide_lt_transitive(s: Seq<usize>, x: int, y: int, z: int)
    requires
        0 <= x,
        0 <= y,
        0 <= z,
        wide_suffix_lt(s, x, y),
        wide_suffix_lt(s, y, z),
    ensures
        wide_suffix_lt(s, x, z),
    decreases s.len() - x,
{
    if x < s.len() && y < s.len() && z < s.len() && s[x] == s[y] && s[y] == s[z] {
        lemma_wide_lt_transitive(s, x + 1, y + 1, z + 1);
    }
}

/// Distinct suffixes are ordered one way or the other.
pub proof fn lemma_wide_lt_total(s: Seq<usize>, x: int, y: int)
    requires
        0 <= x <= s.len(),
        0 <= y <= s.len(),
        x != y,
    ensures
        wide_suffix_lt(s, x, y) || wide_suffix_lt(s, y, x),
    decreases s.len() - x,
{
    if x < s.len() && y < s.len() && s[x] == s[y] {
        lemma_wide_lt_total(s, x + 1, y + 1);
    }
}

/// Compares the suffixes of `s` at `x` and `y`.
pub fn wide_suffix_less(s: &[usize], x: usize, y: usize) -> (r: bool)
    requires
        x <= s.len(),
        y <= s.len(),
    ensures
        r == wide_suffix_lt(s@, x as int, y as int),
{
    let n = s.len();
    let mut i = x;
    let mut j = y;
    while i < n && j < n && s[i] == s[j]
        invariant
            n == s@.len(),
            x <= i <= n,
            y <= j <= n,
            i - x == j - y,
            wide_suffix_lt(s@, x as int, y as int) == wide_suffix_lt(s@, i as int, j as int),
        decreases n - i,
    {
        i = i + 1;
        j = j + 1;
    }
    if i >= n {
        j < n
    } else if j >= n {
        false
    } else {
        s[i] < s[j]
    }
}

/// Suffix array of a word string by sorting the suffixes one insertion at a time.
pub fn wide_naive_suffix_array(reference: &[usize]) -> (r: SuffixArray)
    ensures
        is_wide_suffix_array(reference@, r@),
{
    let n = reference.len();
    let ghost s = reference@;
    let mut sa: Vec<usize> = Vec::new();
    let mut i: usize = 0;
    while i < n
        invariant
            s == reference@,
            n == s.len(),
            i <= n,
            sa.len() == i,
            forall|k: int| 0 <= k < sa.len() ==> (#[trigger] sa@[k]) < i,
            forall|k1: int, k2: int|
                0 <= k1 < k2 < sa.len() ==> wide_suffix_lt(s, #[trigger] sa@[k1] as int, #[trigger] sa@[k2] as int),
        decreases n - i,
    {
        let mut pos: usize = 0;
        while pos < sa.len() && wide_suffix_less(reference, sa[pos], i)
            invariant
                s == reference@,
                n == s.len(),
                i < n,
                pos <= sa.len(),
                forall|k: int| 0 <= k < sa.len() ==> (#[trigger] sa@[k]) < i,
                forall|k: int| 0 <= k < pos ==> wide_suffix_lt(s, #[trigger] sa@[k] as int, i as int),
            decreases sa.len() - pos,
        {
            pos = pos + 1;
        }
        proof {
            if pos < sa.len() {
                lemma_wide_lt_total(s, sa@[pos as int] as int, i as int);
                assert forall|k: int| pos <= k < sa.len() implies wide_suffix_lt(
                    s,
                    i as int,
                    #[trigger] sa@[k] as int,
                ) by {
                    if k > pos {
                        lemma_wide_lt_transitive(s, i as int, sa@[pos as int] as int, sa@[k] as int);
                    }
                }
            }
        }
        let ghost old_sa = sa@;
        sa.insert(pos, i);
        proof {
            assert forall|k1: int, k2: int| 0 <= k1 < k2 < sa.len() implies wide_suffix_lt(
                s,
                #[trigger] sa@[k1] as int,
                #[trigger] sa@[k2] as int,
            ) by {
                if k1 < pos && k2 > pos {
                    assert(sa@[k1] == old_sa[k1]);
                    assert(sa@[k2] == old_sa[k2 - 1]);
                } else if k1 < pos && k2 < pos {
                    assert(sa@[k1] == old_sa[k1]);
                } else if k1 > pos {
                    assert(sa@[k1] == old_sa[k1 - 1]);
                    assert(sa@[k2] == old_sa[k2 - 1]);
                }
            }
            assert forall|k: int| 0 <= k < sa.len() implies (#[trigger] sa@[k]) < i + 1 by {
                if k < pos {
                    assert(sa@[k] == old_sa[k]);
                } else if k > pos {
                    assert(sa@[k] == old_sa[k - 1]);
                }
            }
        }
        i = i + 1;
    }
    proof {
        assert forall|a: int, b: int| 0 <= a < n && 0 <= b < n && a != b implies sa@[a] != sa@[b] by {
            if a < b {
                assert(wide_suffix_lt(s, sa@[a] as int, sa@[b] as int));
            } else {
                assert(wide_suffix_lt(s, sa@[b] as int, sa@[a] as int));
            }
            lemma_wide_lt_irreflexive(s, sa@[a] as int);
        }
        assert forall|a: int| 0 <= a < n - 1 implies wide_suffix_lt(s, #[trigger] sa@[a] as int, sa@[a + 1] as int) by {
            assert(wide_suffix_lt(s, sa@[a] as int, sa@[a + 1] as int));
        }
    }
    sa
}



/// The first `k` symbols of the suffix at `x` are lexicographically at most
/// those of the suffix at `y`.
pub open spec fn wide_prefix_le(s: Seq<usize>, x: int, y: int, k: nat) -> bool
    decreases k,
{
    if k == 0 || x >= s.len() {
        true
    } else if y >= s.len() {
        false
    } else {
        s[x] < s[y] || (s[x] == s[y] && wide_prefix_le(s, x + 1, y + 1, (k - 1) as nat))
    }
}

proof fn lemma_wide_prefix_le_transitive(s: Seq<usize>, x: int, y: int, z: int, k: nat)
    requires
        wide_prefix_le(s, x, y, k),
        wide_prefix_le(s, y, z, k),
    ensures
        wide_prefix_le(s, x, z, k),
    decreases k,
{
    if k > 0 && x < s.len() && y < s.len() && z < s.len() {
        if s[x] == s[y] && s[y] == s[z] {
            lemma_wide_prefix_le_transitive(s, x + 1, y + 1, z + 1, (k - 1) as nat);
        }
    }
}

proof fn lemma_wide_prefix_le_long(s: Seq<usize>, x: int, y: int, k: nat)
    requires
        0 <= x < s.len(),
        0 <= y <= s.len(),
        x != y,
        k >= s.len() - x + 1,
        wide_prefix_le(s, x, y, k),
    ensures
        wide_suffix_lt(s, x, y),
    decreases s.len() - x,
{
    if s[x] == s[y] {
        if x + 1 < s.len() {
            lemma_wide_prefix_le_long(s, x + 1, y + 1, (k - 1) as nat);
        } else {
            assert(wide_suffix_lt(s, x + 1, y + 1));
        }
    }
}

/// Rank of the suffix at `p` in the candidate order, -1 for the empty suffix.
spec fn wide_rank_of(isa: Seq<usize>, p: int) -> int {
    if p >= isa.len() {
        -1
    } else {
        isa[p] as int
    }
}

/// The local condition tested between neighbours of a candidate order.
spec fn wide_neighbours_ok(s: Seq<usize>, isa: Seq<usize>, x: int, y: int) -> bool {
    s[x] < s[y] || (s[x] == s[y] && wide_rank_of(isa, x + 1) < wide_rank_of(isa, y + 1))
}

proof fn lemma_wide_chain(s: Seq<usize>, sa: Seq<usize>, k: nat, i: int, j: int)
    requires
        0 <= i < j < sa.len(),
        forall|t: int| 0 <= t < sa.len() - 1 ==> wide_prefix_le(s, #[trigger] sa[t] as int, sa[t + 1] as int, k),
    ensures
        wide_prefix_le(s, sa[i] as int, sa[j] as int, k),
    decreases j - i,
{
    if j > i + 1 {
        lemma_wide_chain(s, sa, k, i, j - 1);
        assert(wide_prefix_le(s, sa[j - 1] as int, sa[j] as int, k));
        lemma_wide_prefix_le_transitive(s, sa[i] as int, sa[j - 1] as int, sa[j] as int, k);
    }
}

proof fn lemma_wide_sorted_to_depth(s: Seq<usize>, sa: Seq<usize>, isa: Seq<usize>, k: nat)
    requires
        is_permutation(sa, s.len() as int),
        isa.len() == s.len(),
        forall|i: int| 0 <= i < s.len() ==> isa[#[trigger] sa[i] as int] == i,
        forall|p: int| 0 <= p < s.len() ==> #[trigger] isa[p] < s.len() && sa[isa[p] as int] == p,
        forall|i: int|
            0 <= i < s.len() - 1 ==> wide_neighbours_ok(s, isa, #[trigger] sa[i] as int, sa[i + 1] as int),
    ensures
        forall|i: int, j: int|
            0 <= i < j < s.len() ==> wide_prefix_le(s, #[trigger] sa[i] as int, #[trigger] sa[j] as int, k),
    decreases k,
{
    let n = s.len() as int;
    if k > 0 {
        lemma_wide_sorted_to_depth(s, sa, isa, (k - 1) as nat);
        assert forall|i: int| 0 <= i < n - 1 implies wide_prefix_le(s, #[trigger] sa[i] as int, sa[i + 1] as int, k) by {
            let x = sa[i] as int;
            let y = sa[i + 1] as int;
            assert(wide_neighbours_ok(s, isa, x, y));
            assert(x < n && y < n);
            if s[x] == s[y] {
                if x + 1 < n {
                    let a = isa[x + 1] as int;
                    let b = isa[y + 1] as int;
                    assert(sa[a] == x + 1);
                    assert(sa[b] == y + 1);
                    assert(a < b);
                    assert(wide_prefix_le(s, sa[a] as int, sa[b] as int, (k - 1) as nat));
                    assert(wide_prefix_le(s, x + 1, y + 1, (k - 1) as nat));
                } else {
                    assert(wide_prefix_le(s, x + 1, y + 1, (k - 1) as nat));
                }
            }
        }
        assert forall|i: int, j: int| 0 <= i < j < n implies wide_prefix_le(s, #[trigger] sa[i] as int, #[trigger] sa[j] as int, k) by {
            lemma_wide_chain(s, sa, k, i, j);
        }
    }
}

/// Neighbours in a suffix array satisfy the local condition.
proof fn lemma_wide_neighbours(s: Seq<usize>, sa: Seq<usize>, isa: Seq<usize>, i: int)
    requires
        is_wide_suffix_array(s, sa),
        isa.len() == s.len(),
        forall|q: int| 0 <= q < s.len() ==> #[trigger] isa[q] < s.len() && sa[isa[q] as int] == q,
        0 <= i < s.len() - 1,
    ensures
        wide_neighbours_ok(s, isa, sa[i] as int, sa[i + 1] as int),
        s[sa[i] as int] == s[sa[i + 1] as int] ==> sa[i] + 1 == s.len() || sa[i + 1] + 1 < s.len(),
{
    let n = s.len() as int;
    let x = sa[i] as int;
    let y = sa[i + 1] as int;
    assert(wide_suffix_lt(s, x, y));
    assert(x < n && y < n);
    if s[x] == s[y] && x + 1 < n {
        assert(wide_suffix_lt(s, x + 1, y + 1));
        assert(y + 1 < n);
        let a = isa[x + 1] as int;
        let b = isa[y + 1] as int;
        assert(sa[a] == x + 1 && sa[b] == y + 1);
        if a >= b {
            if a == b {
                lemma_wide_lt_irreflexive(s, x + 1);
            } else {
                lemma_wide_ordered(s, sa, b, a);
                lemma_wide_lt_transitive(s, x + 1, y + 1, x + 1);
                lemma_wide_lt_irreflexive(s, x + 1);
            }
        }
    }
}

/// Tests in linear time whether `sa` is the suffix array of `s`: a
/// permutation in which neighbours are ordered by their first symbol and,
/// on a tie, by the ranks of the suffixes that follow.
pub fn is_valid_wide_suffix_array(s: &[usize], sa: &[usize]) -> (r: bool)
    ensures
        r == is_wide_suffix_array(s@, sa@),
{
    let n = s.len();
    if sa.len() != n {
        return false;
    }
    let mut isa: Vec<usize> = Vec::new();
    let mut k: usize = 0;
    while k < n
        invariant
            k <= n,
            isa.len() == k,
            forall|p: int| 0 <= p < k ==> #[trigger] isa@[p] == n,
        decreases n - k,
    {
        isa.push(n);
        k = k + 1;
    }
    let mut i: usize = 0;
    while i < n
        invariant
            n == s@.len(),
            n == sa@.len(),
            i <= n,
            isa.len() == n,
            forall|t: int| 0 <= t < i ==> (#[trigger] sa@[t]) < n && isa@[sa@[t] as int] == t,
            forall|p: int| 0 <= p < n && #[trigger] isa@[p] != n ==> isa@[p] < i && sa@[isa@[p] as int] == p,
        decreases n - i,
    {
        let p = sa[i];
        if p >= n || isa[p] != n {
            proof {
                if p < n {
                    let t0 = isa@[p as int] as int;
                    assert(sa@[t0] == p && t0 < i);
                }
            }
            return false;
        }
        isa.set(p, i);
        i = i + 1;
    }
    let mut p: usize = 0;
    while p < n
        invariant
            n == sa@.len(),
            isa.len() == n,
            p <= n,
            forall|q: int| 0 <= q < p ==> #[trigger] isa@[q] != n,
            forall|t: int| 0 <= t < n ==> (#[trigger] sa@[t]) < n && isa@[sa@[t] as int] == t,
        decreases n - p,
    {
        if isa[p] == n {
            proof {
                if is_permutation(sa@, n as int) {
                    lemma_permutation_onto(sa@, n as int, p as int);
                    let k = choose|k: int| 0 <= k < n && sa@[k] == p;
                    assert(isa@[sa@[k] as int] == k);
                }
            }
            return false;
        }
        p = p + 1;
    }
    if n == 0 {
        return true;
    }
    let mut i: usize = 0;
    while i < n - 1
        invariant
            n == s@.len(),
            n == sa@.len(),
            n > 0,
            isa.len() == n,
            forall|q: int| 0 <= q < n ==> #[trigger] isa@[q] < n && sa@[isa@[q] as int] == q,
            forall|t: int| 0 <= t < n ==> (#[trigger] sa@[t]) < n && isa@[sa@[t] as int] == t,
            forall|t: int| 0 <= t < i && t < n - 1 ==> wide_neighbours_ok(s@, isa@, #[trigger] sa@[t] as int, sa@[t + 1] as int),
        decreases n - i,
    {
        let x = sa[i];
        let y = sa[i + 1];
        let ok = if s[x] < s[y] {
            true
        } else if s[x] == s[y] {
            if x + 1 == n {
                true
            } else if y + 1 == n {
                false
            } else {
                isa[x + 1] < isa[y + 1]
            }
        } else {
            false
        };
        if !ok {
            proof {
                if is_wide_suffix_array(s@, sa@) {
                    lemma_wide_neighbours(s@, sa@, isa@, i as int);
                }
            }
            return false;
        }
        i = i + 1;
    }
    proof {
        let ss = s@;
        let sq = sa@;
        assert(is_permutation(sq, n as int)) by {
            assert forall|a: int, b: int| 0 <= a < n && 0 <= b < n && a != b implies sq[a] != sq[b] by {
                assert(isa@[sq[a] as int] == a);
                assert(isa@[sq[b] as int] == b);
            }
        }
        lemma_wide_sorted_to_depth(ss, sq, isa@, (n + 1) as nat);
        assert forall|t: int| 0 <= t < n - 1 implies wide_suffix_lt(ss, #[trigger] sq[t] as int, sq[t + 1] as int) by {
            assert(wide_prefix_le(ss, sq[t] as int, sq[t + 1] as int, (n + 1) as nat));
            lemma_wide_prefix_le_long(ss, sq[t] as int, sq[t + 1] as int, (n + 1) as nat);
        }
    }
    true
}


/// In a suffix array, every earlier entry has the smaller suffix.
pub proof fn lemma_wide_ordered(s: Seq<usize>, sa: Seq<usize>, i: int, j: int)
    requires
        is_wide_suffix_array(s, sa),
        0 <= i < j < s.len(),
    ensures
        wide_suffix_lt(s, sa[i] as int, sa[j] as int),
    decreases j - i,
{
    if j > i + 1 {
        lemma_wide_ordered(s, sa, i, j - 1);
        assert(wide_suffix_lt(s, sa[j - 1] as int, sa[j] as int));
        lemma_wide_lt_transitive(s, sa[i] as int, sa[j - 1] as int, sa[j] as int);
    } else {
        assert(wide_suffix_lt(s, sa[i] as int, sa[i + 1] as int));
    }
}


} // verus!
