//! Suffix arrays: their definition, construction by sorting, a linear-time
//! certificate check, uniqueness, and persistence.

use vstd::prelude::*;
use vstd::relations::injective_on;
use vstd::set_lib::{lemma_int_range, lemma_map_size, lemma_subset_equality, set_int_range};
use crate::codec::{decode_words, encode_words, lemma_words_round_trip, words_bytes};
use crate::util::FmError;

verus! {

/// A suffix array: the start positions of the suffixes of a reference.
pub type SuffixArray = Vec<usize>;

/// Format version of a persisted suffix array.
pub const SA_VERSION: u64 = 1;

/// The suffix of `s` at `x` is lexicographically smaller than the one at `y`
/// (a position at or past the end stands for the empty suffix).
pub open spec fn suffix_lt(s: Seq<u8>, x: int, y: int) -> bool
    decreases s.len() - x,
{
    if x >= s.len() {
        y < s.len()
    } else if y >= s.len() {
        false
    } else if s[x] < s[y] {
        true
    } else if s[x] > s[y] {
        false
    } else {
        suffix_lt(s, x + 1, y + 1)
    }
}

/// `sa` lists each of `0..n` exactly once.
pub open spec fn is_permutation(sa: Seq<usize>, n: int) -> bool {
    &&& sa.len() == n
    &&& forall|i: int| 0 <= i < n ==> (#[trigger] sa[i]) < n
    &&& forall|i: int, j: int| 0 <= i < n && 0 <= j < n && i != j ==> sa[i] != sa[j]
}

/// `sa` is the suffix array of `s`: a permutation of its positions in which
/// the suffixes increase strictly.
pub open spec fn is_suffix_array(s: Seq<u8>, sa: Seq<usize>) -> bool {
    &&& is_permutation(sa, s.len() as int)
    &&& forall|i: int| 0 <= i < s.len() - 1 ==> suffix_lt(s, #[trigger] sa[i] as int, sa[i + 1] as int)
}

/// The reference shape: codes below 5, with one sentinel, at the end.
pub open spec fn is_reference(s: Seq<u8>) -> bool {
    &&& s.len() >= 1
    &&& s[s.len() - 1] == 0
    &&& forall|i: int| 0 <= i < s.len() - 1 ==> 1 <= #[trigger] s[i] < 5
}

pub proof fn lemma_suffix_lt_irreflexive(s: Seq<u8>, x: int)
    requires
        0 <= x,
    ensures
        !suffix_lt(s, x, x),
    decreases s.len() - x,
{
    if x < s.len() {
        lemma_suffix_lt_irreflexive(s, x + 1);
    }
}

pub proof fn lemma_suffix_lt_transitive(s: Seq<u8>, x: int, y: int, z: int)
    requires
        0 <= x,
        0 <= y,
        0 <= z,
        suffix_lt(s, x, y),
        suffix_lt(s, y, z),
    ensures
        suffix_lt(s, x, z),
    decreases s.len() - x,
{
    if x < s.len() && y < s.len() && z < s.len() && s[x] == s[y] && s[y] == s[z] {
        lemma_suffix_lt_transitive(s, x + 1, y + 1, z + 1);
    }
}

/// Distinct suffixes are ordered one way or the other.
pub proof fn lemma_suffix_lt_total(s: Seq<u8>, x: int, y: int)
    requires
        0 <= x <= s.len(),
        0 <= y <= s.len(),
        x != y,
    ensures
        suffix_lt(s, x, y) || suffix_lt(s, y, x),
    decreases s.len() - x,
{
    if x < s.len() && y < s.len() && s[x] == s[y] {
        lemma_suffix_lt_total(s, x + 1, y + 1);
    }
}

/// Compares the suffixes of `s` at `x` and `y`.
pub fn suffix_less(s: &[u8], x: usize, y: usize) -> (r: bool)
    requires
        x <= s.len(),
        y <= s.len(),
    ensures
        r == suffix_lt(s@, x as int, y as int),
{
    let n = s.len();
    let mut i = x;
    let mut j = y;
    while i < n && j < n && s[i] == s[j]
        invariant
            n == s@.len(),
            x <= i <= n,
            y <= j <= n,
            i - x == j - y,
            suffix_lt(s@, x as int, y as int) == suffix_lt(s@, i as int, j as int),
        decreases n - i,
    {
        i = i + 1;
        j = j + 1;
    }
    if i >= n {
        j < n
    } else if j >= n {
        false
    } else {
        s[i] < s[j]
    }
}

/// Construct a suffix array by sorting the suffixes one insertion at a time.
pub fn construct_suffix_array_naive(reference: &[u8]) -> (r: SuffixArray)
    ensures
        is_suffix_array(reference@, r@),
{
    let n = reference.len();
    let ghost s = reference@;
    let mut sa: Vec<usize> = Vec::new();
    let mut i: usize = 0;
    while i < n
        invariant
            s == reference@,
            n == s.len(),
            i <= n,
            sa.len() == i,
            forall|k: int| 0 <= k < sa.len() ==> (#[trigger] sa@[k]) < i,
            forall|k1: int, k2: int|
                0 <= k1 < k2 < sa.len() ==> suffix_lt(s, #[trigger] sa@[k1] as int, #[trigger] sa@[k2] as int),
        decreases n - i,
    {
        let mut pos: usize = 0;
        while pos < sa.len() && suffix_less(reference, sa[pos], i)
            invariant
                s == reference@,
                n == s.len(),
                i < n,
                pos <= sa.len(),
                forall|k: int| 0 <= k < sa.len() ==> (#[trigger] sa@[k]) < i,
                forall|k: int| 0 <= k < pos ==> suffix_lt(s, #[trigger] sa@[k] as int, i as int),
            decreases sa.len() - pos,
        {
            pos = pos + 1;
        }
        proof {
            if pos < sa.len() {
                lemma_suffix_lt_total(s, sa@[pos as int] as int, i as int);
                assert forall|k: int| pos <= k < sa.len() implies suffix_lt(
                    s,
                    i as int,
                    #[trigger] sa@[k] as int,
                ) by {
                    if k > pos {
                        lemma_suffix_lt_transitive(s, i as int, sa@[pos as int] as int, sa@[k] as int);
                    }
                }
            }
        }
        let ghost old_sa = sa@;
        sa.insert(pos, i);
        proof {
            assert forall|k1: int, k2: int| 0 <= k1 < k2 < sa.len() implies suffix_lt(
                s,
                #[trigger] sa@[k1] as int,
                #[trigger] sa@[k2] as int,
            ) by {
                if k1 < pos && k2 > pos {
                    assert(sa@[k1] == old_sa[k1]);
                    assert(sa@[k2] == old_sa[k2 - 1]);
                } else if k1 < pos && k2 < pos {
                    assert(sa@[k1] == old_sa[k1]);
                } else if k1 > pos {
                    assert(sa@[k1] == old_sa[k1 - 1]);
                    assert(sa@[k2] == old_sa[k2 - 1]);
                }
            }
            assert forall|k: int| 0 <= k < sa.len() implies (#[trigger] sa@[k]) < i + 1 by {
                if k < pos {
                    assert(sa@[k] == old_sa[k]);
                } else if k > pos {
                    assert(sa@[k] == old_sa[k - 1]);
                }
            }
        }
        i = i + 1;
    }
    proof {
        assert forall|a: int, b: int| 0 <= a < n && 0 <= b < n && a != b implies sa@[a] != sa@[b] by {
            if a < b {
                assert(suffix_lt(s, sa@[a] as int, sa@[b] as int));
            } else {
                assert(suffix_lt(s, sa@[b] as int, sa@[a] as int));
            }
            lemma_suffix_lt_irreflexive(s, sa@[a] as int);
        }
        assert forall|a: int| 0 <= a < n - 1 implies suffix_lt(s, #[trigger] sa@[a] as int, sa@[a + 1] as int) by {
            assert(suffix_lt(s, sa@[a] as int, sa@[a + 1] as int));
        }
    }
    sa
}


/// The first `k` symbols of the suffix at `x` are lexicographically at most
/// those of the suffix at `y`.
pub open spec fn prefix_le(s: Seq<u8>, x: int, y: int, k: nat) -> bool
    decreases k,
{
    if k == 0 || x >= s.len() {
        true
    } else if y >= s.len() {
        false
    } else {
        s[x] < s[y] || (s[x] == s[y] && prefix_le(s, x + 1, y + 1, (k - 1) as nat))
    }
}

proof fn lemma_prefix_le_transitive(s: Seq<u8>, x: int, y: int, z: int, k: nat)
    requires
        prefix_le(s, x, y, k),
        prefix_le(s, y, z, k),
    ensures
        prefix_le(s, x, z, k),
    decreases k,
{
    if k > 0 && x < s.len() && y < s.len() && z < s.len() {
        if s[x] == s[y] && s[y] == s[z] {
            lemma_prefix_le_transitive(s, x + 1, y + 1, z + 1, (k - 1) as nat);
        }
    }
}

proof fn lemma_prefix_le_long(s: Seq<u8>, x: int, y: int, k: nat)
    requires
        0 <= x < s.len(),
        0 <= y <= s.len(),
        x != y,
        k >= s.len() - x + 1,
        prefix_le(s, x, y, k),
    ensures
        suffix_lt(s, x, y),
    decreases s.len() - x,
{
    if s[x] == s[y] {
        if x + 1 < s.len() {
            lemma_prefix_le_long(s, x + 1, y + 1, (k - 1) as nat);
        } else {
            assert(suffix_lt(s, x + 1, y + 1));
        }
    }
}

/// Rank of the suffix at `p` in the candidate order, -1 for the empty suffix.
spec fn rank_of(isa: Seq<usize>, p: int) -> int {
    if p >= isa.len() {
        -1
    } else {
        isa[p] as int
    }
}

/// The local condition tested between neighbours of a candidate order.
spec fn neighbours_ok(s: Seq<u8>, isa: Seq<usize>, x: int, y: int) -> bool {
    s[x] < s[y] || (s[x] == s[y] && rank_of(isa, x + 1) < rank_of(isa, y + 1))
}

proof fn lemma_chain(s: Seq<u8>, sa: Seq<usize>, k: nat, i: int, j: int)
    requires
        0 <= i < j < sa.len(),
        forall|t: int| 0 <= t < sa.len() - 1 ==> prefix_le(s, #[trigger] sa[t] as int, sa[t + 1] as int, k),
    ensures
        prefix_le(s, sa[i] as int, sa[j] as int, k),
    decreases j - i,
{
    if j > i + 1 {
        lemma_chain(s, sa, k, i, j - 1);
        assert(prefix_le(s, sa[j - 1] as int, sa[j] as int, k));
        lemma_prefix_le_transitive(s, sa[i] as int, sa[j - 1] as int, sa[j] as int, k);
    }
}

proof fn lemma_sorted_to_depth(s: Seq<u8>, sa: Seq<usize>, isa: Seq<usize>, k: nat)
    requires
        is_permutation(sa, s.len() as int),
        isa.len() == s.len(),
        forall|i: int| 0 <= i < s.len() ==> isa[#[trigger] sa[i] as int] == i,
        forall|p: int| 0 <= p < s.len() ==> #[trigger] isa[p] < s.len() && sa[isa[p] as int] == p,
        forall|i: int|
            0 <= i < s.len() - 1 ==> neighbours_ok(s, isa, #[trigger] sa[i] as int, sa[i + 1] as int),
    ensures
        forall|i: int, j: int|
            0 <= i < j < s.len() ==> prefix_le(s, #[trigger] sa[i] as int, #[trigger] sa[j] as int, k),
    decreases k,
{
    let n = s.len() as int;
    if k > 0 {
        lemma_sorted_to_depth(s, sa, isa, (k - 1) as nat);
        assert forall|i: int| 0 <= i < n - 1 implies prefix_le(s, #[trigger] sa[i] as int, sa[i + 1] as int, k) by {
            let x = sa[i] as int;
            let y = sa[i + 1] as int;
            assert(neighbours_ok(s, isa, x, y));
            assert(x < n && y < n);
            if s[x] == s[y] {
                if x + 1 < n {
                    let a = isa[x + 1] as int;
                    let b = isa[y + 1] as int;
                    assert(sa[a] == x + 1);
                    assert(sa[b] == y + 1);
                    assert(a < b);
                    assert(prefix_le(s, sa[a] as int, sa[b] as int, (k - 1) as nat));
                    assert(prefix_le(s, x + 1, y + 1, (k - 1) as nat));
                } else {
                    assert(prefix_le(s, x + 1, y + 1, (k - 1) as nat));
                }
            }
        }
        assert forall|i: int, j: int| 0 <= i < j < n implies prefix_le(s, #[trigger] sa[i] as int, #[trigger] sa[j] as int, k) by {
            lemma_chain(s, sa, k, i, j);
        }
    }
}

/// Neighbours in a suffix array satisfy the local condition.
proof fn lemma_neighbours_of_suffix_array(s: Seq<u8>, sa: Seq<usize>, isa: Seq<usize>, i: int)
    requires
        is_suffix_array(s, sa),
        isa.len() == s.len(),
        forall|q: int| 0 <= q < s.len() ==> #[trigger] isa[q] < s.len() && sa[isa[q] as int] == q,
        0 <= i < s.len() - 1,
    ensures
        neighbours_ok(s, isa, sa[i] as int, sa[i + 1] as int),
        s[sa[i] as int] == s[sa[i + 1] as int] ==> sa[i] + 1 == s.len() || sa[i + 1] + 1 < s.len(),
{
    let n = s.len() as int;
    let x = sa[i] as int;
    let y = sa[i + 1] as int;
    assert(suffix_lt(s, x, y));
    assert(x < n && y < n);
    if s[x] == s[y] && x + 1 < n {
        assert(suffix_lt(s, x + 1, y + 1));
        assert(y + 1 < n);
        let a = isa[x + 1] as int;
        let b = isa[y + 1] as int;
        assert(sa[a] == x + 1 && sa[b] == y + 1);
        if a >= b {
            if a == b {
                lemma_suffix_lt_irreflexive(s, x + 1);
            } else {
                lemma_suffix_array_ordered(s, sa, b, a);
                lemma_suffix_lt_transitive(s, x + 1, y + 1, x + 1);
                lemma_suffix_lt_irreflexive(s, x + 1);
            }
        }
    }
}

/// Tests in linear time whether `sa` is the suffix array of `s`: a
/// permutation in which neighbours are ordered by their first symbol and,
/// on a tie, by the ranks of the suffixes that follow.
pub fn is_valid_suffix_array(s: &[u8], sa: &[usize]) -> (r: bool)
    ensures
        r == is_suffix_array(s@, sa@),
{
    let n = s.len();
    if sa.len() != n {
        return false;
    }
    let mut isa: Vec<usize> = Vec::new();
    let mut k: usize = 0;
    while k < n
        invariant
            k <= n,
            isa.len() == k,
            forall|p: int| 0 <= p < k ==> #[trigger] isa@[p] == n,
        decreases n - k,
    {
        isa.push(n);
        k = k + 1;
    }
    let mut i: usize = 0;
    while i < n
        invariant
            n == s@.len(),
            n == sa@.len(),
            i <= n,
            isa.len() == n,
            forall|t: int| 0 <= t < i ==> (#[trigger] sa@[t]) < n && isa@[sa@[t] as int] == t,
            forall|p: int| 0 <= p < n && #[trigger] isa@[p] != n ==> isa@[p] < i && sa@[isa@[p] as int] == p,
        decreases n - i,
    {
        let p = sa[i];
        if p >= n || isa[p] != n {
            proof {
                if p < n {
                    let t0 = isa@[p as int] as int;
                    assert(sa@[t0] == p && t0 < i);
                }
            }
            return false;
        }
        isa.set(p, i);
        i = i + 1;
    }
    let mut p: usize = 0;
    while p < n
        invariant
            n == sa@.len(),
            isa.len() == n,
            p <= n,
            forall|q: int| 0 <= q < p ==> #[trigger] isa@[q] != n,
            forall|t: int| 0 <= t < n ==> (#[trigger] sa@[t]) < n && isa@[sa@[t] as int] == t,
        decreases n - p,
    {
        if isa[p] == n {
            proof {
                if is_permutation(sa@, n as int) {
                    lemma_permutation_onto(sa@, n as int, p as int);
                    let k = choose|k: int| 0 <= k < n && sa@[k] == p;
                    assert(isa@[sa@[k] as int] == k);
                }
            }
            return false;
        }
        p = p + 1;
    }
    if n == 0 {
        return true;
    }
    let mut i: usize = 0;
    while i < n - 1
        invariant
            n == s@.len(),
            n == sa@.len(),
            n > 0,
            isa.len() == n,
            forall|q: int| 0 <= q < n ==> #[trigger] isa@[q] < n && sa@[isa@[q] as int] == q,
            forall|t: int| 0 <= t < n ==> (#[trigger] sa@[t]) < n && isa@[sa@[t] as int] == t,
            forall|t: int| 0 <= t < i && t < n - 1 ==> neighbours_ok(s@, isa@, #[trigger] sa@[t] as int, sa@[t + 1] as int),
        decreases n - i,
    {
        let x = sa[i];
        let y = sa[i + 1];
        let ok = if s[x] < s[y] {
            true
        } else if s[x] == s[y] {
            if x + 1 == n {
                true
            } else if y + 1 == n {
                false
            } else {
                isa[x + 1] < isa[y + 1]
            }
        } else {
            false
        };
        if !ok {
            proof {
                if is_suffix_array(s@, sa@) {
                    lemma_neighbours_of_suffix_array(s@, sa@, isa@, i as int);
                }
            }
            return false;
        }
        i = i + 1;
    }
    proof {
        let ss = s@;
        let sq = sa@;
        assert(is_permutation(sq, n as int)) by {
            assert forall|a: int, b: int| 0 <= a < n && 0 <= b < n && a != b implies sq[a] != sq[b] by {
                assert(isa@[sq[a] as int] == a);
                assert(isa@[sq[b] as int] == b);
            }
        }
        lemma_sorted_to_depth(ss, sq, isa@, (n + 1) as nat);
        assert forall|t: int| 0 <= t < n - 1 implies suffix_lt(ss, #[trigger] sq[t] as int, sq[t + 1] as int) by {
            assert(prefix_le(ss, sq[t] as int, sq[t + 1] as int, (n + 1) as nat));
            lemma_prefix_le_long(ss, sq[t] as int, sq[t + 1] as int, (n + 1) as nat);
        }
    }
    true
}

/// A permutation of 0..n reaches every position.
pub proof fn lemma_permutation_onto(sa: Seq<usize>, n: int, p: int)
    requires
        is_permutation(sa, n),
        0 <= p < n,
    ensures
        exists|k: int| 0 <= k < n && sa[k] == p,
{
    let dom = set_int_range(0, n);
    let f = |k: int| sa[k] as int;
    let img = dom.map(f);
    lemma_int_range(0, n);
    assert(injective_on(f, dom));
    lemma_map_size(dom, img, f);
    assert(img.subset_of(dom)) by {
        assert forall|x: int| img.contains(x) implies dom.contains(x) by {
            let k = choose|k: int| dom.contains(k) && f(k) == x;
        }
    }
    lemma_subset_equality(img, dom);
    assert(dom.contains(p));
    assert(img.contains(p));
    let k = choose|k: int| dom.contains(k) && f(k) == p;
    assert(sa[k] == p);
}

/// In a suffix array, every earlier entry has the smaller suffix.
pub proof fn lemma_suffix_array_ordered(s: Seq<u8>, sa: Seq<usize>, i: int, j: int)
    requires
        is_suffix_array(s, sa),
        0 <= i < j < s.len(),
    ensures
        suffix_lt(s, sa[i] as int, sa[j] as int),
    decreases j - i,
{
    if j > i + 1 {
        lemma_suffix_array_ordered(s, sa, i, j - 1);
        assert(suffix_lt(s, sa[j - 1] as int, sa[j] as int));
        lemma_suffix_lt_transitive(s, sa[i] as int, sa[j - 1] as int, sa[j] as int);
    } else {
        assert(suffix_lt(s, sa[i] as int, sa[i + 1] as int));
    }
}

/// The positions whose suffix is smaller than the one at `p`.
pub open spec fn smaller_suffixes(s: Seq<u8>, p: int) -> Set<int> {
    Set::new(|x: int| 0 <= x < s.len() && suffix_lt(s, x, p))
}

/// The k-th entry of a suffix array has exactly k smaller suffixes.
pub proof fn lemma_rank_is_count(s: Seq<u8>, sa: Seq<usize>, k: int)
    requires
        is_suffix_array(s, sa),
        0 <= k < s.len(),
    ensures
        smaller_suffixes(s, sa[k] as int).finite(),
        smaller_suffixes(s, sa[k] as int).len() == k,
{
    let n = s.len() as int;
    let dom = set_int_range(0, k);
    let f = |j: int| sa[j] as int;
    let img = dom.map(f);
    lemma_int_range(0, k);
    assert(injective_on(f, dom));
    lemma_map_size(dom, img, f);
    assert(img =~= smaller_suffixes(s, sa[k] as int)) by {
        assert forall|x: int| img.contains(x) implies #[trigger] smaller_suffixes(s, sa[k] as int).contains(x) by {
            let j = choose|j: int| dom.contains(j) && f(j) == x;
            lemma_suffix_array_ordered(s, sa, j, k);
        }
        assert forall|x: int| #[trigger] smaller_suffixes(s, sa[k] as int).contains(x) implies img.contains(x) by {
            lemma_permutation_onto(sa, n, x);
            let j = choose|j: int| 0 <= j < n && sa[j] == x;
            if j >= k {
                if j > k {
                    lemma_suffix_array_ordered(s, sa, k, j);
                    lemma_suffix_lt_transitive(s, x, sa[k] as int, x);
                }
                lemma_suffix_lt_irreflexive(s, x);
            }
            assert(dom.contains(j) && f(j) == x);
        }
    }
}

/// A reference has one suffix array only.
pub proof fn lemma_suffix_array_unique(s: Seq<u8>, sa1: Seq<usize>, sa2: Seq<usize>)
    requires
        is_suffix_array(s, sa1),
        is_suffix_array(s, sa2),
    ensures
        sa1 == sa2,
{
    let n = s.len() as int;
    assert forall|k: int| 0 <= k < n implies sa1[k] == sa2[k] by {
        let p = sa1[k] as int;
        lemma_permutation_onto(sa2, n, p);
        let k2 = choose|k2: int| 0 <= k2 < n && sa2[k2] == p;
        lemma_rank_is_count(s, sa1, k);
        lemma_rank_is_count(s, sa2, k2);
    }
    assert(sa1 =~= sa2);
}

/// The reference of one repeated symbol followed by the sentinel.
pub open spec fn is_run_reference(s: Seq<u8>) -> bool {
    &&& s.len() >= 1
    &&& s[s.len() - 1] == 0
    &&& forall|i: int| 0 <= i < s.len() - 1 ==> #[trigger] s[i] == s[0] && s[0] > 0
}

proof fn lemma_run_suffixes(s: Seq<u8>, x: int)
    requires
        is_run_reference(s),
        0 <= x < s.len() - 1,
    ensures
        suffix_lt(s, x + 1, x),
    decreases s.len() - x,
{
    if x + 1 < s.len() - 1 {
        lemma_run_suffixes(s, x + 1);
    }
}

/// In a reference of one repeated symbol, the suffix array lists the
/// positions backwards: SA[i] = n - 1 - i.
pub proof fn lemma_run_suffix_array(s: Seq<u8>, sa: Seq<usize>)
    requires
        is_run_reference(s),
        is_suffix_array(s, sa),
        s.len() <= usize::MAX,
    ensures
        forall|i: int| 0 <= i < s.len() ==> #[trigger] sa[i] == s.len() - 1 - i,
{
    let n = s.len() as int;
    let back = Seq::new(n as nat, |i: int| (n - 1 - i) as usize);
    assert forall|i: int| 0 <= i < n implies #[trigger] back[i] == n - 1 - i by {
    }
    assert(is_permutation(back, n));
    assert forall|i: int| 0 <= i < n - 1 implies suffix_lt(s, #[trigger] back[i] as int, back[i + 1] as int) by {
        assert(back[i] == n - 1 - i);
        assert(back[i + 1] == n - 2 - i);
        lemma_run_suffixes(s, n - 2 - i);
    }
    assert(is_suffix_array(s, back));
    lemma_suffix_array_unique(s, sa, back);
}

/// The words that persist a suffix array: version, n, then the entries.
pub open spec fn sa_words(sa: Seq<usize>) -> Seq<u64> {
    seq![SA_VERSION, sa.len() as u64] + sa.map_values(|x: usize| x as u64)
}

/// Encodes a suffix array as bytes.
pub fn sa_to_bytes(sa: &[usize]) -> (r: Option<Vec<u8>>)
    ensures
        r is Some,
        r matches Some(b) ==> b@ == words_bytes(sa_words(sa@)),
{
    let mut words: Vec<u64> = Vec::new();
    words.push(SA_VERSION);
    words.push(sa.len() as u64);
    let ghost head = words@;
    let mut k: usize = 0;
    while k < sa.len()
        invariant
            k <= sa.len(),
            head == seq![SA_VERSION, sa@.len() as u64],
            words@ == head + sa@.take(k as int).map_values(|x: usize| x as u64),
        decreases sa.len() - k,
    {
        words.push(sa[k] as u64);
        k = k + 1;
        assert(sa@.take(k as int).map_values(|x: usize| x as u64) =~= sa@.take(k - 1).map_values(
            |x: usize| x as u64,
        ).push(sa@[k - 1] as u64));
    }
    assert(sa@.take(k as int) =~= sa@);
    assert(words@ =~= sa_words(sa@));
    encode_words(&words)
}

/// Decodes the suffix array of `reference` from bytes. The entries are
/// checked, so a result is always the suffix array; anything else, a wrong
/// version or length included, fails with `DecodeError`.
pub fn sa_from_bytes(bytes: &[u8], reference: &[u8]) -> (r: Result<SuffixArray, FmError>)
    requires
        reference.len() <= usize::MAX / 8,
    ensures
        match r {
            Ok(sa) => is_suffix_array(reference@, sa@) && words_bytes(sa_words(sa@)) =~= bytes@.take(
                words_bytes(sa_words(sa@)).len() as int,
            ),
            Err(e) => e == FmError::DecodeError,
        },
        forall|sa: Seq<usize>|
            #![trigger sa_words(sa)]
            is_suffix_array(reference@, sa) && bytes@ == words_bytes(sa_words(sa)) ==> (r matches Ok(v) && v@
                == sa),
{
    let n = reference.len();
    let words = match decode_words(bytes) {
        Some(w) => w,
        None => {
            proof {
                assert forall|sa: Seq<usize>|
                    #![trigger sa_words(sa)]
                    is_suffix_array(reference@, sa) && bytes@ == words_bytes(sa_words(sa)) implies false by {
                    assert(sa_words(sa).len() == sa.len() + 2);
                    lemma_words_round_trip(sa_words(sa), sa_words(sa));
                }
            }
            return Err(FmError::DecodeError);
        },
    };
    proof {
        assert forall|sa: Seq<usize>|
            #![trigger sa_words(sa)]
            is_suffix_array(reference@, sa) && bytes@ == words_bytes(sa_words(sa)) implies words@ == sa_words(
            sa,
        ) by {
            assert(words.len() <= u64::MAX);
            assert(sa_words(sa).len() == sa.len() + 2);
            lemma_words_round_trip(sa_words(sa), words@);
        }
    }
    if words.len() < 2 || words[0] != SA_VERSION || words[1] != n as u64 || words.len() - 2 != n {
        return Err(FmError::DecodeError);
    }
    let mut sa: Vec<usize> = Vec::new();
    let mut k: usize = 2;
    while k < words.len()
        invariant
            2 <= k <= words.len(),
            words.len() == n + 2,
            n == reference.len(),
            sa@.map_values(|x: usize| x as u64) == words@.subrange(2, k as int),
            forall|sq: Seq<usize>|
                #![trigger sa_words(sq)]
                is_suffix_array(reference@, sq) && bytes@ == words_bytes(sa_words(sq)) ==> words@ == sa_words(sq),
        decreases words.len() - k,
    {
        let w = words[k];
        if w > usize::MAX as u64 {
            proof {
                assert forall|sq: Seq<usize>|
                    #![trigger sa_words(sq)]
                    is_suffix_array(reference@, sq) && bytes@ == words_bytes(sa_words(sq)) implies false by {
                    assert(sa_words(sq)[k as int] == sq[k - 2] as u64);
                }
            }
            return Err(FmError::DecodeError);
        }
        sa.push(w as usize);
        k = k + 1;
        assert(words@.subrange(2, k as int) =~= words@.subrange(2, k - 1).push(w));
        assert(sa@.map_values(|x: usize| x as u64) =~= words@.subrange(2, k as int));
    }
    proof {
        assert forall|sq: Seq<usize>|
            #![trigger sa_words(sq)]
            is_suffix_array(reference@, sq) && bytes@ == words_bytes(sa_words(sq)) implies sa@ == sq by {
            assert(words@ == sa_words(sq));
            assert(sa_words(sq).subrange(2, k as int) =~= sq.map_values(|x: usize| x as u64));
            assert forall|j: int| 0 <= j < sq.len() implies sa@[j] == sq[j] by {
                assert(sa@.map_values(|x: usize| x as u64)[j] == sq.map_values(|x: usize| x as u64)[j]);
            }
            assert(sa@ =~= sq);
        }
    }
    if !is_valid_suffix_array(reference, &sa) {
        return Err(FmError::DecodeError);
    }
    assert(words@ =~= sa_words(sa@));
    Ok(sa)
}

/// The reference offsets of the hits in the SA interval [lo, hi).
pub fn sa_positions(suffix_array: &[usize], lo: usize, hi: usize) -> (r: Vec<usize>)
    requires
        lo <= hi <= suffix_array.len(),
    ensures
        r@ == suffix_array@.subrange(lo as int, hi as int),
{
    let mut r: Vec<usize> = Vec::new();
    let mut k = lo;
    while k < hi
        invariant
            lo <= k <= hi,
            hi <= suffix_array.len(),
            r@ == suffix_array@.subrange(lo as int, k as int),
        decreases hi - k,
    {
        r.push(suffix_array[k]);
        k = k + 1;
        assert(r@ =~= suffix_array@.subrange(lo as int, k as int));
    }
    r
}

} // verus!
