//! Exact search: backward search over the FM-index and binary search over
//! the suffix array, with the LF-mapping theorem behind backward search.

use vstd::prelude::*;
use crate::o_table::OTable;
use crate::suffix_array_construction::{
    is_reference, is_suffix_array, lemma_permutation_onto, lemma_rank_is_count,
    lemma_suffix_array_ordered, lemma_suffix_lt_irreflexive, lemma_suffix_lt_transitive,
    smaller_suffixes, suffix_lt,
};
use crate::util::{bwt_at, lemma_occ_set, occ_set};
use vstd::relations::injective_on;
use vstd::set_lib::{lemma_map_size, lemma_set_disjoint_lens};
use crate::table_gen::{
    count_less, is_c_table, lemma_count_less_bound, lemma_count_less_step, lemma_count_less_zero,
};
use crate::util::{
    count_sym, is_body, lemma_occ_monotone, lemma_occ_total, occ, over_alphabet, single_sentinel,
    valid_text, SIGMA,
};

verus! {

/// One backward-search step: the interval of `a·w` from the interval of `w`.
pub open spec fn lf_step(s: Seq<u8>, sa: Seq<usize>, c: Seq<usize>, a: u8, lo: int, hi: int) -> (
    int,
    int,
) {
    (c[a as int] + occ(s, sa, a, lo), c[a as int] + occ(s, sa, a, hi))
}

/// The interval that backward search reaches for q[j..], starting from [0, n).
pub open spec fn backward_interval(s: Seq<u8>, sa: Seq<usize>, c: Seq<usize>, q: Seq<u8>, j: int) -> (
    int,
    int,
)
    decreases q.len() - j,
{
    if j >= q.len() {
        (0, s.len() as int)
    } else {
        let (lo, hi) = backward_interval(s, sa, c, q, j + 1);
        lf_step(s, sa, c, q[j], lo, hi)
    }
}

proof fn lemma_sentinel_counted(s: Seq<u8>, i: int)
    requires
        single_sentinel(s),
        i == s.len(),
    ensures
        count_sym(s, 0u8, i) >= 1,
{
    let p = choose|p: int| 0 <= p < s.len() && s[p] == 0 && forall|j: int| 0 <= j < s.len() && s[j] == 0 ==> j == p;
    lemma_count_sym_from(s, 0u8, p, i);
}

proof fn lemma_count_sym_from(s: Seq<u8>, a: u8, p: int, i: int)
    requires
        0 <= p < i <= s.len(),
        s[p] == a,
    ensures
        count_sym(s, a, i) >= 1,
    decreases i,
{
    if i > p + 1 {
        lemma_count_sym_from(s, a, p, i - 1);
    }
}

/// A step of backward search from an interval within [0, n] stays within
/// [C[a], n]; for a body symbol the upper end is at least 1.
pub proof fn lemma_lf_step_bounds(s: Seq<u8>, sa: Seq<usize>, c: Seq<usize>, a: u8, i: int)
    requires
        valid_text(s, sa),
        is_c_table(s, c),
        a < SIGMA,
        0 <= i <= s.len(),
    ensures
        c[a as int] <= c[a as int] + occ(s, sa, a, i) <= s.len(),
        a >= 1 ==> c[a as int] >= 1,
{
    let n = s.len() as int;
    lemma_occ_monotone(s, sa, a, i, n);
    lemma_occ_total(s, sa, a);
    lemma_count_less_step(s, a as int, n);
    lemma_count_less_bound(s, a + 1, n);
    if a >= 1 {
        lemma_count_less_step(s, 0, n);
        lemma_count_less_monotone(s, 1, a as int, n);
        lemma_sentinel_counted(s, n);
        lemma_count_less_zero(s, n);
    }
}

pub proof fn lemma_count_less_monotone(s: Seq<u8>, b: int, c: int, i: int)
    requires
        b <= c,
    ensures
        count_less(s, b, i) <= count_less(s, c, i),
    decreases i,
{
    if i > 0 {
        lemma_count_less_monotone(s, b, c, i - 1);
    }
}

/// The interval of backward search stays within [0, n].
pub proof fn lemma_backward_interval_bounds(
    s: Seq<u8>,
    sa: Seq<usize>,
    c: Seq<usize>,
    q: Seq<u8>,
    j: int,
)
    requires
        valid_text(s, sa),
        is_c_table(s, c),
        is_body(q),
        0 <= j <= q.len(),
    ensures
        0 <= backward_interval(s, sa, c, q, j).0 <= s.len(),
        1 <= backward_interval(s, sa, c, q, j).1 <= s.len(),
    decreases q.len() - j,
{
    if j < q.len() {
        lemma_backward_interval_bounds(s, sa, c, q, j + 1);
        let (lo, hi) = backward_interval(s, sa, c, q, j + 1);
        lemma_lf_step_bounds(s, sa, c, q[j], lo);
        lemma_lf_step_bounds(s, sa, c, q[j], hi);
    }
}

/// Backwards search with the Burrows-Wheeler transform: returns the first
/// and the last suffix-array position of the occurrences of `query`, so the
/// result is empty when the first exceeds the last.
pub fn bwt_search(query: &[u8], o_table: &OTable, c_table: &[usize]) -> (r: (usize, usize))
    requires
        o_table.wf(),
        is_c_table(o_table.text(), c_table@),
        is_body(query@),
    ensures
        r.0 == backward_interval(o_table.text(), o_table.sa(), c_table@, query@, 0).0,
        r.1 + 1 == backward_interval(o_table.text(), o_table.sa(), c_table@, query@, 0).1,
        is_reference(o_table.text()) && is_suffix_array(o_table.text(), o_table.sa())
            ==> is_occurrence_interval(o_table.text(), o_table.sa(), query@, r.0 as int, r.1 + 1),
{
    let ghost s = o_table.text();
    let ghost sa = o_table.sa();
    proof {
        o_table.lemma_wf_text();
    }
    let (_, cols) = o_table.shape();
    let mut start: usize = 0;
    let mut end: usize = cols - 1;
    let mut j = query.len();
    proof {
        lemma_backward_interval_bounds(s, sa, c_table@, query@, j as int);
    }
    while j > 0
        invariant
            o_table.wf(),
            s == o_table.text(),
            sa == o_table.sa(),
            valid_text(s, sa),
            s.len() <= usize::MAX / 8,
            is_c_table(s, c_table@),
            is_body(query@),
            j <= query.len(),
            (start as int, end as int) == backward_interval(s, sa, c_table@, query@, j as int),
            1 <= end <= s.len(),
            start <= s.len(),
        decreases j,
    {
        j = j - 1;
        let a = query[j];
        proof {
            assert(1 <= query@[j as int] < SIGMA);
            lemma_lf_step_bounds(s, sa, c_table@, a, start as int);
            lemma_lf_step_bounds(s, sa, c_table@, a, end as int);
            lemma_backward_interval_bounds(s, sa, c_table@, query@, j as int);
        }
        start = c_table[a as usize] + o_table.get(a, start);
        end = c_table[a as usize] + o_table.get(a, end);
    }
    proof {
        if is_reference(s) && is_suffix_array(s, sa) {
            lemma_backward_search_exact(s, sa, c_table@, query@);
        }
    }
    (start, end - 1)
}

/// Rust's slice order between q[qi..] and the symbols of `s` from `x` on,
/// cut to as many as remain in the query: -1, 0 or 1.
pub open spec fn query_cmp(s: Seq<u8>, q: Seq<u8>, qi: int, x: int) -> int
    decreases q.len() - qi,
{
    if qi >= q.len() {
        0
    } else if x >= s.len() {
        1
    } else if q[qi] < s[x] {
        -1
    } else if q[qi] > s[x] {
        1
    } else {
        query_cmp(s, q, qi + 1, x + 1)
    }
}

proof fn lemma_query_cmp_monotone(s: Seq<u8>, q: Seq<u8>, qi: int, x: int, y: int)
    requires
        0 <= x,
        0 <= y,
        suffix_lt(s, x, y),
    ensures
        query_cmp(s, q, qi, y) > 0 ==> query_cmp(s, q, qi, x) > 0,
        query_cmp(s, q, qi, x) < 0 ==> query_cmp(s, q, qi, y) < 0,
    decreases q.len() - qi,
{
    if qi < q.len() && x < s.len() && y < s.len() && s[x] == s[y] && q[qi] == s[x] {
        lemma_query_cmp_monotone(s, q, qi + 1, x + 1, y + 1);
    }
}

/// Compares `query` with the reference from position `i` on.
fn compare_at(reference: &[u8], i: usize, query: &[u8]) -> (r: i8)
    requires
        i <= reference.len(),
    ensures
        r == query_cmp(reference@, query@, 0, i as int),
{
    let n = reference.len();
    let mut k: usize = 0;
    while k < query.len()
        invariant
            n == reference.len(),
            i <= n,
            k <= query.len(),
            query_cmp(reference@, query@, 0, i as int) == query_cmp(reference@, query@, k as int, i + k),
        decreases query.len() - k,
    {
        if k >= n - i {
            return 1;
        }
        if query[k] < reference[i + k] {
            return -1;
        }
        if query[k] > reference[i + k] {
            return 1;
        }
        k = k + 1;
    }
    0
}

/// Exact search by binary search through the suffix array. Returns the
/// rank of a suffix that starts with `query`, or, where there is none,
/// the rank at which such a suffix would stand.
pub fn naive_exact_search(reference: &[u8], suffix_array: &[usize], query: &[u8]) -> (r: usize)
    requires
        is_suffix_array(reference@, suffix_array@),
    ensures
        r <= suffix_array.len(),
        (r < suffix_array.len() && query_cmp(reference@, query@, 0, suffix_array@[r as int] as int) == 0)
            || (forall|k: int| 0 <= k < suffix_array.len() ==> query_cmp(reference@, query@, 0, #[trigger] suffix_array@[k] as int) != 0),
{
    let ghost s = reference@;
    let ghost sa = suffix_array@;
    let mut low: usize = 0;
    let mut high: usize = suffix_array.len();
    while low < high
        invariant
            s == reference@,
            sa == suffix_array@,
            is_suffix_array(s, sa),
            low <= high <= sa.len(),
            forall|k: int| 0 <= k < low ==> query_cmp(s, query@, 0, #[trigger] sa[k] as int) > 0,
            forall|k: int| high <= k < sa.len() ==> query_cmp(s, query@, 0, #[trigger] sa[k] as int) < 0,
        decreases high - low,
    {
        let mid = low + (high - low) / 2;
        let i = suffix_array[mid];
        let c = compare_at(reference, i, query);
        if c < 0 {
            proof {
                assert forall|k: int| mid <= k < sa.len() implies query_cmp(s, query@, 0, #[trigger] sa[k] as int) < 0 by {
                    if k > mid {
                        lemma_suffix_array_ordered(s, sa, mid as int, k);
                        lemma_query_cmp_monotone(s, query@, 0, sa[mid as int] as int, sa[k] as int);
                    }
                }
            }
            high = mid;
        } else if c > 0 {
            proof {
                assert forall|k: int| 0 <= k < mid + 1 implies query_cmp(s, query@, 0, #[trigger] sa[k] as int) > 0 by {
                    if k < mid {
                        lemma_suffix_array_ordered(s, sa, k, mid as int);
                        lemma_query_cmp_monotone(s, query@, 0, sa[k] as int, sa[mid as int] as int);
                    }
                }
            }
            low = mid + 1;
        } else {
            return mid;
        }
    }
    low
}

/// The suffix at `p` starts with `w`.
pub open spec fn starts_with(s: Seq<u8>, p: int, w: Seq<u8>) -> bool {
    &&& 0 <= p
    &&& p + w.len() <= s.len()
    &&& forall|i: int| 0 <= i < w.len() ==> #[trigger] s[p + i] == w[i]
}

/// [lo, hi) holds exactly the suffix-array ranks whose suffixes start with `w`.
pub open spec fn is_occurrence_interval(s: Seq<u8>, sa: Seq<usize>, w: Seq<u8>, lo: int, hi: int) -> bool {
    &&& 0 <= lo <= hi <= s.len()
    &&& forall|k: int| 0 <= k < s.len() ==> (lo <= k < hi <==> #[trigger] starts_with(s, sa[k] as int, w))
}

/// The rank at which position `x` stands in the suffix array.
pub open spec fn rank_of(sa: Seq<usize>, x: int) -> int {
    choose|k: int| 0 <= k < sa.len() && sa[k] == x
}

proof fn lemma_rank_of(s: Seq<u8>, sa: Seq<usize>, x: int)
    requires
        is_suffix_array(s, sa),
        0 <= x < s.len(),
    ensures
        0 <= rank_of(sa, x) < s.len(),
        sa[rank_of(sa, x)] == x,
        forall|k: int| 0 <= k < s.len() && sa[k] == x ==> k == rank_of(sa, x),
{
    lemma_permutation_onto(sa, s.len() as int, x);
}

/// Ranks order the suffixes.
proof fn lemma_rank_order(s: Seq<u8>, sa: Seq<usize>, i: int, j: int)
    requires
        is_suffix_array(s, sa),
        0 <= i < s.len(),
        0 <= j < s.len(),
    ensures
        suffix_lt(s, sa[i] as int, sa[j] as int) <==> i < j,
{
    if i < j {
        lemma_suffix_array_ordered(s, sa, i, j);
    } else if i == j {
        lemma_suffix_lt_irreflexive(s, sa[i] as int);
    } else {
        lemma_suffix_array_ordered(s, sa, j, i);
        if suffix_lt(s, sa[i] as int, sa[j] as int) {
            lemma_suffix_lt_transitive(s, sa[i] as int, sa[j] as int, sa[i] as int);
            lemma_suffix_lt_irreflexive(s, sa[i] as int);
        }
    }
}

spec fn less_set(s: Seq<u8>, a: int, i: int) -> Set<int> {
    Set::new(|q: int| 0 <= q < i && (s[q] as int) < a)
}

proof fn lemma_less_set(s: Seq<u8>, a: int, i: int)
    requires
        0 <= i,
    ensures
        less_set(s, a, i).finite(),
        less_set(s, a, i).len() == count_less(s, a, i),
    decreases i,
{
    if i == 0 {
        assert(less_set(s, a, i) =~= Set::empty());
    } else {
        lemma_less_set(s, a, i - 1);
        if (s[i - 1] as int) < a {
            assert(less_set(s, a, i) =~= less_set(s, a, i - 1).insert(i - 1));
        } else {
            assert(less_set(s, a, i) =~= less_set(s, a, i - 1));
        }
    }
}

/// LF-mapping: a suffix that starts with a body symbol `a` stands at rank
/// C[a] + Occ(a, r), where r is the rank of the suffix that follows it.
proof fn lemma_rank_formula(s: Seq<u8>, sa: Seq<usize>, c: Seq<usize>, k: int)
    requires
        is_reference(s),
        is_suffix_array(s, sa),
        is_c_table(s, c),
        0 <= k < s.len(),
        s[sa[k] as int] >= 1,
    ensures
        sa[k] + 1 < s.len(),
        k == c[s[sa[k] as int] as int] + occ(s, sa, s[sa[k] as int], rank_of(sa, sa[k] + 1)),
{
    let n = s.len() as int;
    let p = sa[k] as int;
    let a = s[p];
    assert(p != n - 1);
    lemma_rank_of(s, sa, p + 1);
    let r = rank_of(sa, p + 1);
    let l = less_set(s, a as int, n);
    let m = Set::new(|q: int| 0 <= q < n && s[q] == a && suffix_lt(s, q + 1, p + 1));
    lemma_rank_is_count(s, sa, k);
    lemma_less_set(s, a as int, n);
    assert(smaller_suffixes(s, p) =~= l + m);
    let f = |q: int| rank_of(sa, q + 1);
    let target = occ_set(s, sa, a, r);
    lemma_occ_set(s, sa, a, r);
    assert(m.subset_of(Set::new(|q: int| 0 <= q < n)));
    assert(m.finite()) by {
        vstd::set_lib::lemma_int_range(0, n);
        assert(m.subset_of(vstd::set_lib::set_int_range(0, n)));
        vstd::set_lib::lemma_len_subset(m, vstd::set_lib::set_int_range(0, n));
    }
    assert(injective_on(f, m)) by {
        assert forall|q1: int, q2: int| m.contains(q1) && m.contains(q2) && #[trigger] f(q1) == #[trigger] f(q2) implies q1 == q2 by {
            assert(q1 != n - 1 && q2 != n - 1);
            lemma_rank_of(s, sa, q1 + 1);
            lemma_rank_of(s, sa, q2 + 1);
        }
    }
    assert(m.map(f) =~= target) by {
        assert forall|x: int| m.map(f).contains(x) implies target.contains(x) by {
            let q = choose|q: int| m.contains(q) && f(q) == x;
            assert(q != n - 1);
            lemma_rank_of(s, sa, q + 1);
            lemma_rank_order(s, sa, x, r);
            assert(bwt_at(s, sa, x) == s[q]);
        }
        assert forall|x: int| target.contains(x) implies m.map(f).contains(x) by {
            assert(sa[x] < n);
            if sa[x] == 0 {
                assert(bwt_at(s, sa, x) == s[n - 1]);
            }
            let q = sa[x] - 1;
            assert(bwt_at(s, sa, x) == s[q]);
            lemma_rank_order(s, sa, x, r);
            lemma_rank_of(s, sa, q + 1);
            assert(m.contains(q));
            assert(f(q) == x);
        }
    }
    lemma_map_size(m, target, f);
    assert(l.disjoint(m));
    lemma_set_disjoint_lens(l, m);
}

/// The sentinel suffix comes first.
proof fn lemma_sentinel_rank(s: Seq<u8>, sa: Seq<usize>, k: int)
    requires
        is_reference(s),
        is_suffix_array(s, sa),
        0 <= k < s.len(),
        s[sa[k] as int] == 0,
    ensures
        k == 0,
{
    let n = s.len() as int;
    let p = sa[k] as int;
    assert(p == n - 1);
    lemma_rank_is_count(s, sa, k);
    assert(smaller_suffixes(s, p) =~= Set::empty()) by {
        assert forall|q: int| !smaller_suffixes(s, p).contains(q) by {
            if 0 <= q < n {
                if q == n - 1 {
                    lemma_suffix_lt_irreflexive(s, q);
                }
            }
        }
    }
}

/// The suffixes at ranks [C[a], C[a + 1]) are those that start with `a`.
proof fn lemma_block(s: Seq<u8>, sa: Seq<usize>, c: Seq<usize>, k: int, a: u8)
    requires
        is_reference(s),
        is_suffix_array(s, sa),
        is_c_table(s, c),
        0 <= k < s.len(),
        1 <= a < SIGMA,
        c[a as int] <= k < c[a as int] + count_sym(s, a, s.len() as int),
    ensures
        s[sa[k] as int] == a,
{
    let n = s.len() as int;
    let b = s[sa[k] as int];
    assert(sa[k] < n);
    lemma_count_less_step(s, a as int, n);
    lemma_count_less_zero(s, n);
    if b == 0 {
        lemma_sentinel_rank(s, sa, k);
        lemma_count_less_monotone(s, 1, a as int, n);
        lemma_count_less_step(s, 0, n);
        exists_sentinel(s);
    } else {
        lemma_rank_formula(s, sa, c, k);
        let r = rank_of(sa, sa[k] + 1);
        lemma_rank_of(s, sa, sa[k] + 1);
        assert(bwt_at(s, sa, r) == b);
        lemma_occ_monotone(s, sa, b, r + 1, n);
        lemma_occ_total(s, sa, b);
        lemma_count_less_step(s, b as int, n);
        if b < a {
            lemma_count_less_monotone(s, b + 1, a as int, n);
        } else if b > a {
            lemma_count_less_monotone(s, a + 1, b as int, n);
        }
    }
}

proof fn exists_sentinel(s: Seq<u8>)
    requires
        is_reference(s),
    ensures
        count_sym(s, 0u8, s.len() as int) >= 1,
{
    lemma_count_sym_from(s, 0u8, s.len() - 1, s.len() as int);
}

proof fn lemma_reference_valid(s: Seq<u8>, sa: Seq<usize>)
    requires
        is_reference(s),
        is_suffix_array(s, sa),
    ensures
        valid_text(s, sa),
{
    let n = s.len() as int;
    assert(over_alphabet(s));
    assert(single_sentinel(s)) by {
        assert(0 <= n - 1 < n && s[n - 1] == 0 && forall|j: int| 0 <= j < n && s[j] == 0 ==> j == n - 1);
    }
}

proof fn lemma_lf_into(s: Seq<u8>, sa: Seq<usize>, c: Seq<usize>, w: Seq<u8>, a: u8, lo: int, hi: int, k: int)
    requires
        is_reference(s),
        is_suffix_array(s, sa),
        is_c_table(s, c),
        1 <= a < SIGMA,
        is_occurrence_interval(s, sa, w, lo, hi),
        0 <= k < s.len(),
        lf_step(s, sa, c, a, lo, hi).0 <= k < lf_step(s, sa, c, a, lo, hi).1,
    ensures
        starts_with(s, sa[k] as int, seq![a] + w),
{
    let n = s.len() as int;
    let aw = seq![a] + w;
    let p = sa[k] as int;
    lemma_reference_valid(s, sa);
    lemma_occ_monotone(s, sa, a, hi, n);
    lemma_occ_total(s, sa, a);
    lemma_block(s, sa, c, k, a);
    lemma_rank_formula(s, sa, c, k);
    let r = rank_of(sa, p + 1);
    lemma_rank_of(s, sa, p + 1);
    assert(bwt_at(s, sa, r) == a);
    if r < lo {
        lemma_occ_monotone(s, sa, a, r + 1, lo);
    }
    if r >= hi {
        lemma_occ_monotone(s, sa, a, hi, r);
    }
    assert(starts_with(s, sa[r] as int, w));
    assert forall|i: int| 0 <= i < aw.len() implies #[trigger] s[p + i] == aw[i] by {
        if i > 0 {
            assert(s[(p + 1) + (i - 1)] == w[i - 1]);
        }
    }
}

proof fn lemma_lf_from(s: Seq<u8>, sa: Seq<usize>, c: Seq<usize>, w: Seq<u8>, a: u8, lo: int, hi: int, k: int)
    requires
        is_reference(s),
        is_suffix_array(s, sa),
        is_c_table(s, c),
        1 <= a < SIGMA,
        is_occurrence_interval(s, sa, w, lo, hi),
        0 <= k < s.len(),
        starts_with(s, sa[k] as int, seq![a] + w),
    ensures
        lf_step(s, sa, c, a, lo, hi).0 <= k < lf_step(s, sa, c, a, lo, hi).1,
{
    let aw = seq![a] + w;
    let p = sa[k] as int;
    assert(s[p + 0] == aw[0]);
    assert(s[p] == a);
    lemma_rank_formula(s, sa, c, k);
    let r = rank_of(sa, p + 1);
    lemma_rank_of(s, sa, p + 1);
    assert(starts_with(s, sa[r] as int, w)) by {
        assert forall|i: int| 0 <= i < w.len() implies #[trigger] s[(p + 1) + i] == w[i] by {
            assert(s[p + (i + 1)] == aw[i + 1]);
        }
    }
    assert(bwt_at(s, sa, r) == a);
    lemma_occ_monotone(s, sa, a, lo, r);
    lemma_occ_monotone(s, sa, a, r + 1, hi);
}

/// One step of backward search turns the interval of `w` into the interval
/// of `a·w`.
pub proof fn lemma_lf_step_interval(
    s: Seq<u8>,
    sa: Seq<usize>,
    c: Seq<usize>,
    w: Seq<u8>,
    a: u8,
    lo: int,
    hi: int,
)
    requires
        is_reference(s),
        is_suffix_array(s, sa),
        is_c_table(s, c),
        1 <= a < SIGMA,
        is_occurrence_interval(s, sa, w, lo, hi),
    ensures
        is_occurrence_interval(s, sa, seq![a] + w, lf_step(s, sa, c, a, lo, hi).0, lf_step(s, sa, c, a, lo, hi).1),
{
    let n = s.len() as int;
    let (nlo, nhi) = lf_step(s, sa, c, a, lo, hi);
    lemma_reference_valid(s, sa);
    lemma_lf_step_bounds(s, sa, c, a, lo);
    lemma_lf_step_bounds(s, sa, c, a, hi);
    lemma_occ_monotone(s, sa, a, lo, hi);
    assert forall|k: int| 0 <= k < n implies (nlo <= k < nhi <==> #[trigger] starts_with(s, sa[k] as int, seq![a] + w)) by {
        if nlo <= k < nhi {
            lemma_lf_into(s, sa, c, w, a, lo, hi, k);
        }
        if starts_with(s, sa[k] as int, seq![a] + w) {
            lemma_lf_from(s, sa, c, w, a, lo, hi, k);
        }
    }
}

proof fn lemma_backward_interval_suffix(
    s: Seq<u8>,
    sa: Seq<usize>,
    c: Seq<usize>,
    q: Seq<u8>,
    j: int,
)
    requires
        is_reference(s),
        is_suffix_array(s, sa),
        is_c_table(s, c),
        is_body(q),
        0 <= j <= q.len(),
    ensures
        is_occurrence_interval(
            s,
            sa,
            q.subrange(j, q.len() as int),
            backward_interval(s, sa, c, q, j).0,
            backward_interval(s, sa, c, q, j).1,
        ),
    decreases q.len() - j,
{
    let n = s.len() as int;
    if j == q.len() {
        assert forall|k: int| 0 <= k < n implies (0 <= k < n <==> #[trigger] starts_with(s, sa[k] as int, q.subrange(j, q.len() as int))) by {
            assert(sa[k] < n);
        }
    } else {
        lemma_backward_interval_suffix(s, sa, c, q, j + 1);
        assert(q.subrange(j, q.len() as int) =~= seq![q[j]] + q.subrange(j + 1, q.len() as int));
        let (lo, hi) = backward_interval(s, sa, c, q, j + 1);
        assert(1 <= q[j] < SIGMA);
        lemma_lf_step_interval(s, sa, c, q.subrange(j + 1, q.len() as int), q[j], lo, hi);
    }
}

/// Backward search is exact: on a reference with its suffix array and
/// C-table, the interval it reaches for a query holds exactly the ranks of
/// the suffixes that start with the query.
pub proof fn lemma_backward_search_exact(s: Seq<u8>, sa: Seq<usize>, c: Seq<usize>, q: Seq<u8>)
    requires
        is_reference(s),
        is_suffix_array(s, sa),
        is_c_table(s, c),
        is_body(q),
    ensures
        is_occurrence_interval(s, sa, q, backward_interval(s, sa, c, q, 0).0, backward_interval(s, sa, c, q, 0).1),
{
    lemma_backward_interval_suffix(s, sa, c, q, 0);
    assert(q.subrange(0, q.len() as int) =~= q);
}

/// A query at least as long as the reference occurs nowhere: backward
/// search ends on an empty interval.
pub proof fn lemma_long_query_not_found(s: Seq<u8>, sa: Seq<usize>, c: Seq<usize>, q: Seq<u8>)
    requires
        is_reference(s),
        is_suffix_array(s, sa),
        is_c_table(s, c),
        is_body(q),
        q.len() >= s.len(),
    ensures
        backward_interval(s, sa, c, q, 0).0 == backward_interval(s, sa, c, q, 0).1,
{
    lemma_backward_search_exact(s, sa, c, q);
    let (lo, hi) = backward_interval(s, sa, c, q, 0);
    let n = s.len() as int;
    if lo < hi {
        assert(starts_with(s, sa[lo] as int, q));
        assert(sa[lo] == 0);
        assert(s[0 + (n - 1)] == q[n - 1]);
    }
}

} // verus!
