//! Bounded-edit approximate search: the D-table and the branch-and-bound
//! recursion, with the laws its hits obey.

use vstd::prelude::*;
use vstd::string::StringExecFns;
use crate::exact_search::{
    backward_interval, is_occurrence_interval, lemma_lf_step_bounds, lemma_lf_step_interval, lf_step,
    starts_with,
};
use crate::suffix_array_construction::{is_reference, is_suffix_array};
use crate::o_table::OTable;
use crate::table_gen::{is_c_table, CTable};
use crate::util::{is_body, lemma_occ_monotone, occ, valid_text, SIGMA};

verus! {

/// Lower bounds on the edits needed for each prefix of a query.
pub type DTable = Vec<usize>;

/// One search hit: SA interval [lo, hi), CIGAR, number of edits.
pub type Hit = (usize, usize, String, usize);

/// A hit as mathematical values.
pub open spec fn hit_view(h: Hit) -> (int, int, Seq<char>, int) {
    (h.0 as int, h.1 as int, h.2@, h.3 as int)
}

/// The hits of a result vector as a set.
pub open spec fn hit_set(v: Seq<Hit>) -> Set<(int, int, Seq<char>, int)> {
    v.map_values(|h: Hit| hit_view(h)).to_set()
}

/// No two entries of the result vector are equal.
pub open spec fn distinct_hits(v: Seq<Hit>) -> bool {
    v.map_values(|h: Hit| hit_view(h)).no_duplicates()
}

/// State (start, end, edits) of the D-table scan after `i` query symbols, run
/// on the reverse reference's index.
pub open spec fn d_state(
    s: Seq<u8>,
    sa: Seq<usize>,
    c: Seq<usize>,
    q: Seq<u8>,
    n: int,
    i: int,
) -> (int, int, int)
    decreases i,
{
    if i <= 0 {
        (1, n - 1, 0)
    } else {
        let (start, end, edits) = d_state(s, sa, c, q, n, i - 1);
        let a = q[i - 1];
        let new_start = c[a as int] + occ(s, sa, a, start - 1) + 1;
        let new_end = c[a as int] + occ(s, sa, a, end);
        if new_start > new_end {
            (1, n - 1, edits + 1)
        } else {
            (new_start, new_end, edits)
        }
    }
}

/// D[i] is the edit count of the scan after q[0..=i].
pub open spec fn is_d_table(
    s: Seq<u8>,
    sa: Seq<usize>,
    c: Seq<usize>,
    q: Seq<u8>,
    n: int,
    d: Seq<usize>,
) -> bool {
    &&& d.len() == q.len()
    &&& forall|i: int| 0 <= i < q.len() ==> #[trigger] d[i] == d_state(s, sa, c, q, n, i + 1).2
}

proof fn lemma_d_state_monotone(s: Seq<u8>, sa: Seq<usize>, c: Seq<usize>, q: Seq<u8>, n: int, i: int, j: int)
    requires
        0 <= i <= j,
    ensures
        d_state(s, sa, c, q, n, i).2 <= d_state(s, sa, c, q, n, j).2,
        0 <= d_state(s, sa, c, q, n, j).2 <= j,
    decreases j,
{
    if j > 0 {
        if i < j {
            lemma_d_state_monotone(s, sa, c, q, n, i, j - 1);
        } else {
            lemma_d_state_monotone(s, sa, c, q, n, 0, j - 1);
        }
    }
}

/// The D-table is non-decreasing.
pub proof fn lemma_d_table_monotone(
    s: Seq<u8>,
    sa: Seq<usize>,
    c: Seq<usize>,
    q: Seq<u8>,
    n: int,
    d: Seq<usize>,
    i: int,
)
    requires
        is_d_table(s, sa, c, q, n, d),
        0 <= i < d.len() - 1,
    ensures
        d[i] <= d[i + 1],
{
    lemma_d_state_monotone(s, sa, c, q, n, i + 1, i + 2);
}

/// The pruning bound of a node with `j` query symbols left to consume.
pub open spec fn lower_bound(d: Seq<usize>, j: int) -> int {
    if j >= 1 {
        d[j - 1] as int
    } else {
        0
    }
}

/// The hits of the search node that still has to consume q[0..j), may spend
/// `e` more edits, stands on the SA interval [lo, hi), has built `cigar` so
/// far and spent `used` edits.
pub open spec fn node_hits(
    s: Seq<u8>,
    sa: Seq<usize>,
    c: Seq<usize>,
    q: Seq<u8>,
    d: Seq<usize>,
    j: int,
    e: int,
    lo: int,
    hi: int,
    cigar: Seq<char>,
    used: int,
) -> Set<(int, int, Seq<char>, int)>
    decreases j + e + 1, 5int,
{
    if j < 0 || e < 0 || e < lower_bound(d, j) {
        Set::empty()
    } else if j == 0 {
        set![(lo, hi, cigar, used)]
    } else {
        match_hits(s, sa, c, q, d, j, e, lo, hi, cigar, used, 1).union(
            node_hits(s, sa, c, q, d, j - 1, e - 1, lo, hi, seq!['I'] + cigar, used + 1),
        ).union(delete_hits(s, sa, c, q, d, j, e, lo, hi, cigar, used, 1))
    }
}

/// The hits of the match or substitute steps on symbols a..4.
pub open spec fn match_hits(
    s: Seq<u8>,
    sa: Seq<usize>,
    c: Seq<usize>,
    q: Seq<u8>,
    d: Seq<usize>,
    j: int,
    e: int,
    lo: int,
    hi: int,
    cigar: Seq<char>,
    used: int,
    a: int,
) -> Set<(int, int, Seq<char>, int)>
    decreases j + e + 1, 5 - a,
{
    if j < 1 || e < 0 || a < 1 || a >= SIGMA {
        Set::empty()
    } else {
        let cost: int = if a == q[j - 1] {
            0
        } else {
            1
        };
        let (nlo, nhi) = lf_step(s, sa, c, a as u8, lo, hi);
        let here = if e - cost < 0 || nlo >= nhi {
            Set::empty()
        } else {
            node_hits(
                s,
                sa,
                c,
                q,
                d,
                j - 1,
                e - cost,
                nlo,
                nhi,
                seq![if cost == 0 { 'M' } else { 'S' }] + cigar,
                used + cost,
            )
        };
        here.union(match_hits(s, sa, c, q, d, j, e, lo, hi, cigar, used, a + 1))
    }
}

/// The hits of the deletion steps on symbols a..4.
pub open spec fn delete_hits(
    s: Seq<u8>,
    sa: Seq<usize>,
    c: Seq<usize>,
    q: Seq<u8>,
    d: Seq<usize>,
    j: int,
    e: int,
    lo: int,
    hi: int,
    cigar: Seq<char>,
    used: int,
    a: int,
) -> Set<(int, int, Seq<char>, int)>
    decreases j + e + 1, 5 - a,
{
    if j < 1 || e < 0 || a < 1 || a >= SIGMA {
        Set::empty()
    } else {
        let (nlo, nhi) = lf_step(s, sa, c, a as u8, lo, hi);
        let here = if nlo >= nhi {
            Set::empty()
        } else {
            node_hits(s, sa, c, q, d, j, e - 1, nlo, nhi, seq!['D'] + cigar, used + 1)
        };
        here.union(delete_hits(s, sa, c, q, d, j, e, lo, hi, cigar, used, a + 1))
    }
}

/// The result of the search: the root expands one match/substitute level and
/// one insertion, then the nodes below follow the full recursion.
pub open spec fn search_hits(
    s: Seq<u8>,
    sa: Seq<usize>,
    c: Seq<usize>,
    q: Seq<u8>,
    d: Seq<usize>,
    k: int,
) -> Set<(int, int, Seq<char>, int)> {
    match_hits(s, sa, c, q, d, q.len() as int, k, 0, s.len() as int, Seq::empty(), 0, 1).union(
        node_hits(s, sa, c, q, d, q.len() - 1, k - 1, 0, s.len() as int, seq!['I'], 1),
    )
}

/// Prepends a one-letter operation to a CIGAR string.
fn prepend(tag: &str, cigar: &String) -> (r: String)
    ensures
        r@ == tag@ + cigar@,
{
    let head: String = tag.to_owned();
    head.concat(cigar.as_str())
}

/// Adds `h` to the result unless an equal hit is already there.
fn insert_hit(out: &mut Vec<Hit>, h: Hit)
    requires
        distinct_hits(old(out)@),
    ensures
        distinct_hits(final(out)@),
        hit_set(final(out)@) == hit_set(old(out)@).insert(hit_view(h)),
{
    let ghost v0 = out@.map_values(|x: Hit| hit_view(x));
    let mut i: usize = 0;
    while i < out.len()
        invariant
            i <= out.len(),
            out@ == old(out)@,
            distinct_hits(out@),
            v0 == out@.map_values(|x: Hit| hit_view(x)),
            forall|k: int| 0 <= k < i ==> #[trigger] v0[k] != hit_view(h),
        decreases out.len() - i,
    {
        let o = &out[i];
        if o.0 == h.0 && o.1 == h.1 && o.2 == h.2 && o.3 == h.3 {
            proof {
                assert(v0[i as int] == hit_view(h));
                assert(hit_set(out@) =~= hit_set(out@).insert(hit_view(h)));
            }
            return;
        }
        i = i + 1;
    }
    out.push(h);
    proof {
        let v1 = out@.map_values(|x: Hit| hit_view(x));
        assert(v1 =~= v0.push(hit_view(h)));
        v0.lemma_push_to_set_commute(hit_view(h));
        assert(v1.no_duplicates()) by {
            assert forall|x: int, y: int| 0 <= x < v1.len() && 0 <= y < v1.len() && x != y implies v1[x] != v1[y] by {
                if x < v0.len() && y < v0.len() {
                    assert(v1[x] == v0[x] && v1[y] == v0[y]);
                }
            }
        }
    }
}

/// What one search node reads: the query, the forward index and the D-table.
struct InexactRecursionParams<'a> {
    query: &'a [u8],
    o_table: &'a OTable<'a>,
    c_table: &'a [usize],
    d_table: &'a [usize],
}

spec fn params_ok(p: &InexactRecursionParams) -> bool {
    &&& p.o_table.wf()
    &&& valid_text(p.o_table.text(), p.o_table.sa())
    &&& p.o_table.text().len() <= usize::MAX / 8
    &&& is_c_table(p.o_table.text(), p.c_table@)
    &&& is_body(p.query@)
    &&& p.d_table@.len() == p.query@.len()
}

spec fn params_node(
    p: &InexactRecursionParams,
    j: int,
    e: int,
    lo: int,
    hi: int,
    cigar: Seq<char>,
    used: int,
) -> Set<(int, int, Seq<char>, int)> {
    node_hits(p.o_table.text(), p.o_table.sa(), p.c_table@, p.query@, p.d_table@, j, e, lo, hi, cigar, used)
}

/// The match and substitution steps of a node: one child per symbol whose
/// extension keeps the interval non-empty and the edits within budget.
fn match_steps(
    params: &InexactRecursionParams,
    j: usize,
    edits_left: usize,
    left: usize,
    right: usize,
    cigar: &String,
    edits_total: usize,
    out: &mut Vec<Hit>,
)
    requires
        params_ok(params),
        1 <= j <= params.query@.len(),
        left <= params.o_table.text().len(),
        right <= params.o_table.text().len(),
        edits_total + edits_left <= usize::MAX,
        distinct_hits(old(out)@),
    ensures
        distinct_hits(final(out)@),
        hit_set(final(out)@) == hit_set(old(out)@).union(
            match_hits(
                params.o_table.text(),
                params.o_table.sa(),
                params.c_table@,
                params.query@,
                params.d_table@,
                j as int,
                edits_left as int,
                left as int,
                right as int,
                cigar@,
                edits_total as int,
                1,
            ),
        ),
    decreases j + edits_left, 0int,
{
    let ghost s = params.o_table.text();
    let ghost sa = params.o_table.sa();
    let ghost c = params.c_table@;
    let ghost q = params.query@;
    let ghost d = params.d_table@;
    let ghost e = edits_left as int;
    let ghost out0 = hit_set(out@);
    let current_char = params.query[j - 1];
    let mut a: u8 = 1;
    while a < 5
        invariant
            params_ok(params),
            s == params.o_table.text(),
            sa == params.o_table.sa(),
            c == params.c_table@,
            q == params.query@,
            d == params.d_table@,
            1 <= j <= q.len(),
            current_char == q[j - 1],
            e == edits_left,
            left <= s.len(),
            right <= s.len(),
            edits_total + edits_left <= usize::MAX,
            1 <= a <= 5,
            distinct_hits(out@),
            hit_set(out@).union(match_hits(s, sa, c, q, d, j as int, e, left as int, right as int, cigar@, edits_total as int, a as int))
                == out0.union(match_hits(s, sa, c, q, d, j as int, e, left as int, right as int, cigar@, edits_total as int, 1)),
        decreases 5 - a,
    {
        proof {
            lemma_lf_step_bounds(s, sa, c, a, left as int);
            lemma_lf_step_bounds(s, sa, c, a, right as int);
        }
        let new_left = params.c_table[a as usize] + params.o_table.get(a, left);
        let new_right = params.c_table[a as usize] + params.o_table.get(a, right);
        let cost: usize = if a == current_char {
            0
        } else {
            1
        };
        let ghost before = hit_set(out@);
        let ghost tag = seq![if cost == 0 { 'M' } else { 'S' }];
        if edits_left >= cost && new_left < new_right {
            let next = if cost == 0 {
                proof {
                    reveal_strlit("M");
                }
                prepend("M", cigar)
            } else {
                proof {
                    reveal_strlit("S");
                }
                prepend("S", cigar)
            };
            assert(next@ == tag + cigar@);
            inexact_recursion(params, j - 1, edits_left - cost, new_left, new_right, next, edits_total + cost, out);
        }
        proof {
            let rest = match_hits(s, sa, c, q, d, j as int, e, left as int, right as int, cigar@, edits_total as int, a + 1);
            let here = if e - cost < 0 || new_left >= new_right {
                Set::empty()
            } else {
                node_hits(s, sa, c, q, d, j - 1, e - cost, new_left as int, new_right as int, tag + cigar@, edits_total + cost)
            };
            assert(match_hits(s, sa, c, q, d, j as int, e, left as int, right as int, cigar@, edits_total as int, a as int) == here.union(rest));
            assert(hit_set(out@) == before.union(here));
            assert(hit_set(out@).union(rest) =~= before.union(here.union(rest)));
        }
        a = a + 1;
    }
    proof {
        assert(a == 5);
        assert(match_hits(s, sa, c, q, d, j as int, e, left as int, right as int, cigar@, edits_total as int, 5) =~= Set::empty());
        assert(hit_set(out@) =~= out0.union(match_hits(s, sa, c, q, d, j as int, e, left as int, right as int, cigar@, edits_total as int, 1)));
    }
}

/// Explores the search node (j, edits_left, [left, right), cigar) and adds
/// every hit below it to `out`.
fn inexact_recursion(
    params: &InexactRecursionParams,
    j: usize,
    edits_left: usize,
    left: usize,
    right: usize,
    cigar: String,
    edits_total: usize,
    out: &mut Vec<Hit>,
)
    requires
        params_ok(params),
        j <= params.query@.len(),
        left <= params.o_table.text().len(),
        right <= params.o_table.text().len(),
        edits_total + edits_left <= usize::MAX,
        distinct_hits(old(out)@),
    ensures
        distinct_hits(final(out)@),
        hit_set(final(out)@) == hit_set(old(out)@).union(
            params_node(params, j as int, edits_left as int, left as int, right as int, cigar@, edits_total as int),
        ),
    decreases j + edits_left, 1int,
{
    let ghost s = params.o_table.text();
    let ghost sa = params.o_table.sa();
    let ghost c = params.c_table@;
    let ghost q = params.query@;
    let ghost d = params.d_table@;
    let ghost e = edits_left as int;
    let ghost out0 = hit_set(out@);
    let lower = if j >= 1 {
        params.d_table[j - 1]
    } else {
        0
    };
    if edits_left < lower {
        proof {
            assert(out0.union(params_node(params, j as int, e, left as int, right as int, cigar@, edits_total as int)) =~= out0);
        }
        return;
    }
    if j == 0 {
        insert_hit(out, (left, right, cigar, edits_total));
        proof {
            assert(hit_set(out@) =~= out0.union(params_node(params, j as int, e, left as int, right as int, cigar@, edits_total as int)));
        }
        return;
    }
    // Match and substitution steps.
    match_steps(params, j, edits_left, left, right, &cigar, edits_total, out);
    let ghost after_match = hit_set(out@);
    proof {
        assert(after_match =~= out0.union(match_hits(s, sa, c, q, d, j as int, e, left as int, right as int, cigar@, edits_total as int, 1)));
    }

    // Insertion step: consume q[j - 1] without moving in the reference.
    proof {
        reveal_strlit("I");
    }
    if edits_left >= 1 {
        let next = prepend("I", &cigar);
        assert(next@ == seq!['I'] + cigar@);
        inexact_recursion(params, j - 1, edits_left - 1, left, right, next, edits_total + 1, out);
    }
    let ghost ins = node_hits(s, sa, c, q, d, j - 1, e - 1, left as int, right as int, seq!['I'] + cigar@, edits_total + 1);
    proof {
        if edits_left < 1 {
            assert(ins =~= Set::empty());
        }
        assert(hit_set(out@) =~= after_match.union(ins));
    }
    let ghost after_ins = hit_set(out@);

    // Deletion steps: move in the reference without consuming the query.
    let mut a: u8 = 1;
    while a < 5
        invariant
            params_ok(params),
            s == params.o_table.text(),
            sa == params.o_table.sa(),
            c == params.c_table@,
            q == params.query@,
            d == params.d_table@,
            1 <= j <= q.len(),
            e == edits_left,
            left <= s.len(),
            right <= s.len(),
            edits_total + edits_left <= usize::MAX,
            1 <= a <= 5,
            distinct_hits(out@),
            hit_set(out@).union(delete_hits(s, sa, c, q, d, j as int, e, left as int, right as int, cigar@, edits_total as int, a as int))
                == after_ins.union(delete_hits(s, sa, c, q, d, j as int, e, left as int, right as int, cigar@, edits_total as int, 1)),
        decreases 5 - a,
    {
        proof {
            lemma_lf_step_bounds(s, sa, c, a, left as int);
            lemma_lf_step_bounds(s, sa, c, a, right as int);
        }
        let new_left = params.c_table[a as usize] + params.o_table.get(a, left);
        let new_right = params.c_table[a as usize] + params.o_table.get(a, right);
        let ghost before = hit_set(out@);
        if edits_left >= 1 && new_left < new_right {
            proof {
                reveal_strlit("D");
            }
            let next = prepend("D", &cigar);
            assert(next@ == seq!['D'] + cigar@);
            inexact_recursion(params, j, edits_left - 1, new_left, new_right, next, edits_total + 1, out);
        }
        proof {
            let rest = delete_hits(s, sa, c, q, d, j as int, e, left as int, right as int, cigar@, edits_total as int, a + 1);
            let here = if new_left >= new_right {
                Set::empty()
            } else {
                node_hits(s, sa, c, q, d, j as int, e - 1, new_left as int, new_right as int, seq!['D'] + cigar@, edits_total + 1)
            };
            assert(delete_hits(s, sa, c, q, d, j as int, e, left as int, right as int, cigar@, edits_total as int, a as int) == here.union(rest));
            if e < 1 {
                assert(here =~= Set::empty());
            }
            assert(hit_set(out@) == before.union(here));
            assert(hit_set(out@).union(rest) =~= before.union(here.union(rest)));
        }
        a = a + 1;
    }
    proof {
        let total = params_node(params, j as int, e, left as int, right as int, cigar@, edits_total as int);
        let mh = match_hits(s, sa, c, q, d, j as int, e, left as int, right as int, cigar@, edits_total as int, 1);
        let dh = delete_hits(s, sa, c, q, d, j as int, e, left as int, right as int, cigar@, edits_total as int, 1);
        assert(total == mh.union(ins).union(dh));
        assert(a == 5);
        assert(delete_hits(s, sa, c, q, d, j as int, e, left as int, right as int, cigar@, edits_total as int, 5) =~= Set::empty());
        assert(hit_set(out@).union(Set::empty()) == after_ins.union(dh));
        assert(hit_set(out@) =~= after_ins.union(dh));
        assert(after_ins == after_match.union(ins));
        assert(after_match == out0.union(mh));
        assert(hit_set(out@) =~= out0.union(total));
    }
}

/// Builds the D-table of `query` by backward search on the reverse index.
pub fn calculate_d_table(
    reference: &[u8],
    query: &[u8],
    c_table: &[usize],
    o_rev_table: &OTable,
) -> (r: DTable)
    requires
        o_rev_table.wf(),
        o_rev_table.text().len() == reference.len(),
        is_c_table(o_rev_table.text(), c_table@),
        is_body(query@),
    ensures
        is_d_table(o_rev_table.text(), o_rev_table.sa(), c_table@, query@, reference.len() as int, r@),
        forall|i: int| 0 <= i < r.len() - 1 ==> r@[i] <= #[trigger] r@[i + 1],
{
    let ghost s = o_rev_table.text();
    let ghost sa = o_rev_table.sa();
    proof {
        o_rev_table.lemma_wf_text();
    }
    let n = reference.len();
    let mut start: usize = 1;
    let mut end: usize = n - 1;
    let mut edits_left: usize = 0;
    let mut d_table: DTable = Vec::new();
    let mut i: usize = 0;
    while i < query.len()
        invariant
            o_rev_table.wf(),
            s == o_rev_table.text(),
            sa == o_rev_table.sa(),
            valid_text(s, sa),
            s.len() <= usize::MAX / 8,
            n == s.len(),
            is_c_table(s, c_table@),
            is_body(query@),
            i <= query.len(),
            d_table.len() == i,
            (start as int, end as int, edits_left as int) == d_state(s, sa, c_table@, query@, n as int, i as int),
            1 <= start <= n + 1,
            end <= n,
            edits_left <= i,
            forall|k: int| 0 <= k < i ==> #[trigger] d_table@[k] == d_state(s, sa, c_table@, query@, n as int, k + 1).2,
        decreases query.len() - i,
    {
        let a = query[i];
        proof {
            assert(1 <= query@[i as int] < SIGMA);
            lemma_lf_step_bounds(s, sa, c_table@, a, start - 1);
            lemma_lf_step_bounds(s, sa, c_table@, a, end as int);
        }
        start = c_table[a as usize] + o_rev_table.get(a, start - 1) + 1;
        end = c_table[a as usize] + o_rev_table.get(a, end);
        if start > end {
            start = 1;
            end = n - 1;
            edits_left = edits_left + 1;
        }
        d_table.push(edits_left);
        i = i + 1;
    }
    proof {
        assert forall|k: int| 0 <= k < d_table.len() - 1 implies d_table@[k] <= #[trigger] d_table@[k + 1] by {
            lemma_d_state_monotone(s, sa, c_table@, query@, n as int, k + 1, k + 2);
        }
    }
    d_table
}

/// Everything an approximate search reads.
#[derive(Copy, Clone)]
pub struct ApproxSearchParams<'a> {
    pub reference: &'a [u8],
    pub query: &'a [u8],
    pub o_table: &'a OTable<'a>,
    pub c_table: &'a CTable,
    pub rev_o_table: &'a OTable<'a>,
    pub edits: usize,
}

/// The forward index is built on `reference`, the reverse index on a text of
/// the same length and symbol counts, and the query is a non-empty body.
pub open spec fn valid_search(p: ApproxSearchParams) -> bool {
    &&& p.o_table.wf()
    &&& p.rev_o_table.wf()
    &&& p.o_table.text() == p.reference@
    &&& p.rev_o_table.text().len() == p.reference@.len()
    &&& is_c_table(p.reference@, p.c_table@)
    &&& is_c_table(p.rev_o_table.text(), p.c_table@)
    &&& is_body(p.query@)
    &&& p.query@.len() >= 1
}

/// The D-table of `q` as a sequence.
pub open spec fn d_table_of(s: Seq<u8>, sa: Seq<usize>, c: Seq<usize>, q: Seq<u8>, n: int) -> Seq<usize> {
    Seq::new(q.len(), |i: int| d_state(s, sa, c, q, n, i + 1).2 as usize)
}

/// The hits that an approximate search returns.
pub open spec fn approx_hits(p: ApproxSearchParams) -> Set<(int, int, Seq<char>, int)> {
    search_hits(
        p.reference@,
        p.o_table.sa(),
        p.c_table@,
        p.query@,
        d_table_of(
            p.rev_o_table.text(),
            p.rev_o_table.sa(),
            p.c_table@,
            p.query@,
            p.reference@.len() as int,
        ),
        p.edits as int,
    )
}

/// Approximate search with up to `params.edits` edits: every hit (lo, hi,
/// CIGAR, edits) of the branch-and-bound recursion, each once.
pub fn approx_search(params: ApproxSearchParams) -> (r: Vec<Hit>)
    requires
        valid_search(params),
    ensures
        distinct_hits(r@),
        hit_set(r@) == approx_hits(params),
{
    let d_table = calculate_d_table(params.reference, params.query, params.c_table, params.rev_o_table);
    let ghost s = params.o_table.text();
    let ghost sa = params.o_table.sa();
    let ghost c = params.c_table@;
    let ghost q = params.query@;
    let ghost d = d_table@;
    proof {
        params.o_table.lemma_wf_text();
        let ds = d_table_of(params.rev_o_table.text(), params.rev_o_table.sa(), c, q, s.len() as int);
        assert forall|i: int| 0 <= i < q.len() implies d[i] == #[trigger] ds[i] by {
            lemma_d_state_monotone(params.rev_o_table.text(), params.rev_o_table.sa(), c, q, s.len() as int, 0, i + 1);
        }
        assert(d =~= ds);
    }
    let inner = InexactRecursionParams {
        query: params.query,
        o_table: params.o_table,
        c_table: params.c_table.as_slice(),
        d_table: d_table.as_slice(),
    };
    let left: usize = 0;
    let right = params.reference.len();
    let j = params.query.len();
    let mut result: Vec<Hit> = Vec::new();
    let empty = String::new();
    proof {
        assert(hit_set(result@) =~= Set::empty());
    }

    // M-operations
    match_steps(&inner, j, params.edits, left, right, &empty, 0, &mut result);
    let ghost after_match = hit_set(result@);

    // I-operation
    proof {
        reveal_strlit("I");
    }
    if params.edits >= 1 {
        let cigar = prepend("I", &empty);
        assert(cigar@ == seq!['I']);
        inexact_recursion(&inner, j - 1, params.edits - 1, left, right, cigar, 1, &mut result);
    }
    proof {
        let ins = node_hits(s, sa, c, q, d, q.len() - 1, params.edits - 1, 0, s.len() as int, seq!['I'], 1);
        if params.edits < 1 {
            assert(ins =~= Set::empty());
        }
        assert(hit_set(result@) =~= after_match.union(ins));
        assert(hit_set(result@) =~= approx_hits(params));
    }
    result
}

/// Occurrences of `ch` in a CIGAR string.
pub open spec fn count_op(cigar: Seq<char>, ch: char) -> nat
    decreases cigar.len(),
{
    if cigar.len() == 0 {
        0
    } else {
        (if cigar[0] == ch {
            1nat
        } else {
            0nat
        }) + count_op(cigar.drop_first(), ch)
    }
}

/// The CIGAR operations that consume a query symbol: M, S and I.
pub open spec fn query_ops(cigar: Seq<char>) -> nat {
    count_op(cigar, 'M') + count_op(cigar, 'S') + count_op(cigar, 'I')
}

/// A CIGAR over {M, S, I, D}.
pub open spec fn cigar_alphabet(cigar: Seq<char>) -> bool {
    forall|i: int|
        0 <= i < cigar.len() ==> (#[trigger] cigar[i] == 'M' || cigar[i] == 'S' || cigar[i] == 'I' || cigar[i]
            == 'D')
}

/// What every hit satisfies: a non-empty interval within [0, n], a CIGAR
/// over {M, S, I, D} that consumes the whole query, and an edit count equal
/// to its non-M operations and within the budget.
pub open spec fn consistent_hit(h: (int, int, Seq<char>, int), qlen: int, n: int, k: int) -> bool {
    &&& 0 <= h.0 < h.1 <= n
    &&& cigar_alphabet(h.2)
    &&& h.3 == h.2.len() - count_op(h.2, 'M')
    &&& query_ops(h.2) == qlen
    &&& h.3 <= k
}

proof fn lemma_count_op_len(cigar: Seq<char>, ch: char)
    ensures
        count_op(cigar, ch) <= cigar.len(),
    decreases cigar.len(),
{
    if cigar.len() > 0 {
        lemma_count_op_len(cigar.drop_first(), ch);
    }
}

proof fn lemma_count_op_prepend(x: char, cigar: Seq<char>, ch: char)
    ensures
        count_op(seq![x] + cigar, ch) == (if x == ch {
            1nat
        } else {
            0nat
        }) + count_op(cigar, ch),
{
    assert((seq![x] + cigar).drop_first() =~= cigar);
}

proof fn lemma_prepend_ok(x: char, cigar: Seq<char>)
    requires
        x == 'M' || x == 'S' || x == 'I' || x == 'D',
        cigar_alphabet(cigar),
    ensures
        cigar_alphabet(seq![x] + cigar),
        count_op(seq![x] + cigar, 'M') == (if x == 'M' {
            1nat
        } else {
            0nat
        }) + count_op(cigar, 'M'),
        query_ops(seq![x] + cigar) == (if x == 'D' {
            0nat
        } else {
            1nat
        }) + query_ops(cigar),
{
    lemma_count_op_prepend(x, cigar, 'M');
    lemma_count_op_prepend(x, cigar, 'S');
    lemma_count_op_prepend(x, cigar, 'I');
    assert forall|i: int| 0 <= i < (seq![x] + cigar).len() implies #[trigger] (seq![x] + cigar)[i] == 'M' || (seq![x]
        + cigar)[i] == 'S' || (seq![x] + cigar)[i] == 'I' || (seq![x] + cigar)[i] == 'D' by {
        if i > 0 {
            assert((seq![x] + cigar)[i] == cigar[i - 1]);
        }
    }
}

/// The state of a node from which only consistent hits can come.
pub open spec fn node_ok(
    s: Seq<u8>,
    qlen: int,
    k: int,
    j: int,
    e: int,
    lo: int,
    hi: int,
    cigar: Seq<char>,
    used: int,
) -> bool {
    &&& 0 <= lo < hi <= s.len()
    &&& 0 <= j <= qlen
    &&& cigar_alphabet(cigar)
    &&& used == cigar.len() - count_op(cigar, 'M')
    &&& query_ops(cigar) + j == qlen
    &&& used + e == k
}

proof fn lemma_node_hits_consistent(
    s: Seq<u8>,
    sa: Seq<usize>,
    c: Seq<usize>,
    q: Seq<u8>,
    d: Seq<usize>,
    k: int,
    j: int,
    e: int,
    lo: int,
    hi: int,
    cigar: Seq<char>,
    used: int,
)
    requires
        valid_text(s, sa),
        is_c_table(s, c),
        node_ok(s, q.len() as int, k, j, e, lo, hi, cigar, used),
    ensures
        forall|h| #[trigger] node_hits(s, sa, c, q, d, j, e, lo, hi, cigar, used).contains(h) ==> consistent_hit(
            h,
            q.len() as int,
            s.len() as int,
            k,
        ),
    decreases j + e + 1, 5int,
{
    let qlen = q.len() as int;
    let n = s.len() as int;
    if j < 0 || e < 0 || e < lower_bound(d, j) {
        assert(node_hits(s, sa, c, q, d, j, e, lo, hi, cigar, used) =~= Set::empty());
    } else if j == 0 {
        assert(node_hits(s, sa, c, q, d, j, e, lo, hi, cigar, used) == set![(lo, hi, cigar, used)]);
    } else {
        let mh = match_hits(s, sa, c, q, d, j, e, lo, hi, cigar, used, 1);
        let ins = node_hits(s, sa, c, q, d, j - 1, e - 1, lo, hi, seq!['I'] + cigar, used + 1);
        let dh = delete_hits(s, sa, c, q, d, j, e, lo, hi, cigar, used, 1);
        assert(node_hits(s, sa, c, q, d, j, e, lo, hi, cigar, used) == mh.union(ins).union(dh));
        lemma_match_hits_consistent(s, sa, c, q, d, k, j, e, lo, hi, cigar, used, 1);
        lemma_delete_hits_consistent(s, sa, c, q, d, k, j, e, lo, hi, cigar, used, 1);
        lemma_prepend_ok('I', cigar);
        lemma_count_op_len(cigar, 'M');
        lemma_node_hits_consistent(s, sa, c, q, d, k, j - 1, e - 1, lo, hi, seq!['I'] + cigar, used + 1);
        assert forall|h| mh.union(ins).union(dh).contains(h) implies consistent_hit(h, qlen, n, k) by {
            if mh.contains(h) {
            } else if ins.contains(h) {
            } else {
                assert(dh.contains(h));
            }
        }
    }
}

proof fn lemma_match_hits_consistent(
    s: Seq<u8>,
    sa: Seq<usize>,
    c: Seq<usize>,
    q: Seq<u8>,
    d: Seq<usize>,
    k: int,
    j: int,
    e: int,
    lo: int,
    hi: int,
    cigar: Seq<char>,
    used: int,
    a: int,
)
    requires
        valid_text(s, sa),
        is_c_table(s, c),
        node_ok(s, q.len() as int, k, j, e, lo, hi, cigar, used),
    ensures
        forall|h| #[trigger] match_hits(s, sa, c, q, d, j, e, lo, hi, cigar, used, a).contains(h) ==> consistent_hit(
            h,
            q.len() as int,
            s.len() as int,
            k,
        ),
    decreases j + e + 1, 5 - a,
{
    if j < 1 || e < 0 || a < 1 || a >= SIGMA {
    } else {
        let cost: int = if a == q[j - 1] {
            0
        } else {
            1
        };
        let nlo = lf_step(s, sa, c, a as u8, lo, hi).0;
        let nhi = lf_step(s, sa, c, a as u8, lo, hi).1;
        let x = if cost == 0 {
            'M'
        } else {
            'S'
        };
        let here = if e - cost < 0 || nlo >= nhi {
            Set::empty()
        } else {
            node_hits(s, sa, c, q, d, j - 1, e - cost, nlo, nhi, seq![x] + cigar, used + cost)
        };
        let rest = match_hits(s, sa, c, q, d, j, e, lo, hi, cigar, used, a + 1);
        assert(match_hits(s, sa, c, q, d, j, e, lo, hi, cigar, used, a) == here.union(rest));
        if !(e - cost < 0 || nlo >= nhi) {
            lemma_lf_step_bounds(s, sa, c, a as u8, lo);
            lemma_lf_step_bounds(s, sa, c, a as u8, hi);
            lemma_prepend_ok(x, cigar);
            lemma_node_hits_consistent(s, sa, c, q, d, k, j - 1, e - cost, nlo, nhi, seq![x] + cigar, used + cost);
        }
        lemma_match_hits_consistent(s, sa, c, q, d, k, j, e, lo, hi, cigar, used, a + 1);
        assert forall|h| here.union(rest).contains(h) implies consistent_hit(h, q.len() as int, s.len() as int, k) by {
            if here.contains(h) {
            } else {
                assert(rest.contains(h));
            }
        }
    }
}

proof fn lemma_delete_hits_consistent(
    s: Seq<u8>,
    sa: Seq<usize>,
    c: Seq<usize>,
    q: Seq<u8>,
    d: Seq<usize>,
    k: int,
    j: int,
    e: int,
    lo: int,
    hi: int,
    cigar: Seq<char>,
    used: int,
    a: int,
)
    requires
        valid_text(s, sa),
        is_c_table(s, c),
        node_ok(s, q.len() as int, k, j, e, lo, hi, cigar, used),
    ensures
        forall|h| #[trigger] delete_hits(s, sa, c, q, d, j, e, lo, hi, cigar, used, a).contains(h) ==> consistent_hit(
            h,
            q.len() as int,
            s.len() as int,
            k,
        ),
    decreases j + e + 1, 5 - a,
{
    if j < 1 || e < 0 || a < 1 || a >= SIGMA {
    } else {
        let nlo = lf_step(s, sa, c, a as u8, lo, hi).0;
        let nhi = lf_step(s, sa, c, a as u8, lo, hi).1;
        let here = if nlo >= nhi {
            Set::empty()
        } else {
            node_hits(s, sa, c, q, d, j, e - 1, nlo, nhi, seq!['D'] + cigar, used + 1)
        };
        let rest = delete_hits(s, sa, c, q, d, j, e, lo, hi, cigar, used, a + 1);
        assert(delete_hits(s, sa, c, q, d, j, e, lo, hi, cigar, used, a) == here.union(rest));
        if nlo < nhi {
            lemma_lf_step_bounds(s, sa, c, a as u8, lo);
            lemma_lf_step_bounds(s, sa, c, a as u8, hi);
            lemma_prepend_ok('D', cigar);
            lemma_node_hits_consistent(s, sa, c, q, d, k, j, e - 1, nlo, nhi, seq!['D'] + cigar, used + 1);
        }
        lemma_delete_hits_consistent(s, sa, c, q, d, k, j, e, lo, hi, cigar, used, a + 1);
        assert forall|h| here.union(rest).contains(h) implies consistent_hit(h, q.len() as int, s.len() as int, k) by {
            if here.contains(h) {
            } else {
                assert(rest.contains(h));
            }
        }
    }
}

/// Every hit of an approximate search has a non-empty SA interval, a CIGAR
/// over {M, S, I, D} whose M, S and I operations consume the query exactly,
/// and an edit count that equals the CIGAR's non-M operations and does not
/// exceed the budget.
pub proof fn lemma_hits_consistent(p: ApproxSearchParams, h: (int, int, Seq<char>, int))
    requires
        valid_search(p),
        approx_hits(p).contains(h),
    ensures
        consistent_hit(h, p.query@.len() as int, p.reference@.len() as int, p.edits as int),
{
    p.o_table.lemma_wf_text();
    let s = p.reference@;
    let sa = p.o_table.sa();
    let c = p.c_table@;
    let q = p.query@;
    let d = d_table_of(p.rev_o_table.text(), p.rev_o_table.sa(), c, q, s.len() as int);
    let k = p.edits as int;
    let empty = Seq::<char>::empty();
    assert(cigar_alphabet(empty));
    assert(query_ops(empty) == 0);
    lemma_match_hits_consistent(s, sa, c, q, d, k, q.len() as int, k, 0, s.len() as int, empty, 0, 1);
    lemma_prepend_ok('I', empty);
    assert(seq!['I'] + empty =~= seq!['I']);
    lemma_node_hits_consistent(s, sa, c, q, d, k, q.len() - 1, k - 1, 0, s.len() as int, seq!['I'], 1);
}

/// `m` match operations.
pub open spec fn all_matches(m: int) -> Seq<char> {
    Seq::new(m as nat, |i: int| 'M')
}

/// Backward search over q[0..j) from the interval [lo, hi).
pub open spec fn steps_from(
    s: Seq<u8>,
    sa: Seq<usize>,
    c: Seq<usize>,
    q: Seq<u8>,
    j: int,
    lo: int,
    hi: int,
) -> (int, int)
    decreases j,
{
    if j <= 0 {
        (lo, hi)
    } else {
        let (nlo, nhi) = lf_step(s, sa, c, q[j - 1], lo, hi);
        steps_from(s, sa, c, q, j - 1, nlo, nhi)
    }
}

proof fn lemma_steps_from_backward(s: Seq<u8>, sa: Seq<usize>, c: Seq<usize>, q: Seq<u8>, j: int)
    requires
        0 <= j <= q.len(),
    ensures
        steps_from(s, sa, c, q, j, backward_interval(s, sa, c, q, j).0, backward_interval(s, sa, c, q, j).1)
            == backward_interval(s, sa, c, q, 0),
    decreases j,
{
    if j > 0 {
        lemma_steps_from_backward(s, sa, c, q, j - 1);
    }
}

proof fn lemma_steps_from_empty(s: Seq<u8>, sa: Seq<usize>, c: Seq<usize>, q: Seq<u8>, j: int, lo: int, hi: int)
    requires
        lo >= hi,
    ensures
        steps_from(s, sa, c, q, j, lo, hi).0 >= steps_from(s, sa, c, q, j, lo, hi).1,
    decreases j,
{
    if j > 0 {
        lemma_occ_monotone(s, sa, q[j - 1], hi, lo);
        let (nlo, nhi) = lf_step(s, sa, c, q[j - 1], lo, hi);
        lemma_steps_from_empty(s, sa, c, q, j - 1, nlo, nhi);
    }
}

proof fn lemma_delete_hits_no_budget(
    s: Seq<u8>,
    sa: Seq<usize>,
    c: Seq<usize>,
    q: Seq<u8>,
    d: Seq<usize>,
    j: int,
    lo: int,
    hi: int,
    cigar: Seq<char>,
    a: int,
)
    ensures
        delete_hits(s, sa, c, q, d, j, 0, lo, hi, cigar, 0, a) =~= Set::empty(),
    decreases 5 - a,
{
    if !(j < 1 || a < 1 || a >= SIGMA) {
        let (nlo, nhi) = lf_step(s, sa, c, a as u8, lo, hi);
        assert(node_hits(s, sa, c, q, d, j, -1, nlo, nhi, seq!['D'] + cigar, 1) =~= Set::empty());
        lemma_delete_hits_no_budget(s, sa, c, q, d, j, lo, hi, cigar, a + 1);
    }
}

/// With no edits left only the symbol of the query extends the interval.
proof fn lemma_match_hits_no_budget(
    s: Seq<u8>,
    sa: Seq<usize>,
    c: Seq<usize>,
    q: Seq<u8>,
    d: Seq<usize>,
    j: int,
    lo: int,
    hi: int,
    cigar: Seq<char>,
    a: int,
)
    requires
        1 <= j <= q.len(),
        1 <= q[j - 1] < SIGMA,
        1 <= a <= SIGMA,
    ensures
        match_hits(s, sa, c, q, d, j, 0, lo, hi, cigar, 0, a) == (if a <= q[j - 1] && lf_step(
            s,
            sa,
            c,
            q[j - 1],
            lo,
            hi,
        ).0 < lf_step(s, sa, c, q[j - 1], lo, hi).1 {
            node_hits(
                s,
                sa,
                c,
                q,
                d,
                j - 1,
                0,
                lf_step(s, sa, c, q[j - 1], lo, hi).0,
                lf_step(s, sa, c, q[j - 1], lo, hi).1,
                seq!['M'] + cigar,
                0,
            )
        } else {
            Set::empty()
        }),
    decreases 5 - a,
{
    if a < SIGMA {
        lemma_match_hits_no_budget(s, sa, c, q, d, j, lo, hi, cigar, a + 1);
        let rest = match_hits(s, sa, c, q, d, j, 0, lo, hi, cigar, 0, a + 1);
        let here = match_hits(s, sa, c, q, d, j, 0, lo, hi, cigar, 0, a);
        if a == q[j - 1] {
            assert(rest =~= Set::empty());
            assert(here =~= match_hits(s, sa, c, q, d, j, 0, lo, hi, cigar, 0, a));
        }
        assert(here =~= (if a <= q[j - 1] && lf_step(s, sa, c, q[j - 1], lo, hi).0 < lf_step(
            s,
            sa,
            c,
            q[j - 1],
            lo,
            hi,
        ).1 {
            node_hits(
                s,
                sa,
                c,
                q,
                d,
                j - 1,
                0,
                lf_step(s, sa, c, q[j - 1], lo, hi).0,
                lf_step(s, sa, c, q[j - 1], lo, hi).1,
                seq!['M'] + cigar,
                0,
            )
        } else {
            Set::empty()
        }));
    } else {
        assert(match_hits(s, sa, c, q, d, j, 0, lo, hi, cigar, 0, a) =~= Set::empty());
    }
}

/// Without edits a node follows backward search: its only possible hit is
/// the interval that backward search reaches, with matches only; there is
/// none when that interval is empty, and there is one when no D-table
/// entry below it prunes.
proof fn lemma_node_no_budget(
    s: Seq<u8>,
    sa: Seq<usize>,
    c: Seq<usize>,
    q: Seq<u8>,
    d: Seq<usize>,
    j: int,
    lo: int,
    hi: int,
    cigar: Seq<char>,
)
    requires
        0 <= j <= q.len(),
        is_body(q),
        lo < hi,
    ensures
        forall|h| #[trigger] node_hits(s, sa, c, q, d, j, 0, lo, hi, cigar, 0).contains(h) ==> h == (
            steps_from(s, sa, c, q, j, lo, hi).0,
            steps_from(s, sa, c, q, j, lo, hi).1,
            all_matches(j) + cigar,
            0int,
        ),
        steps_from(s, sa, c, q, j, lo, hi).0 >= steps_from(s, sa, c, q, j, lo, hi).1 ==> node_hits(
            s,
            sa,
            c,
            q,
            d,
            j,
            0,
            lo,
            hi,
            cigar,
            0,
        ) =~= Set::empty(),
        steps_from(s, sa, c, q, j, lo, hi).0 < steps_from(s, sa, c, q, j, lo, hi).1 && (forall|i: int|
            0 <= i < j ==> #[trigger] d[i] == 0) ==> node_hits(s, sa, c, q, d, j, 0, lo, hi, cigar, 0) =~= set![
            (
                steps_from(s, sa, c, q, j, lo, hi).0,
                steps_from(s, sa, c, q, j, lo, hi).1,
                all_matches(j) + cigar,
                0int,
            ),
        ],
    decreases j,
{
    let node = node_hits(s, sa, c, q, d, j, 0, lo, hi, cigar, 0);
    if j == 0 {
        assert(all_matches(0) + cigar =~= cigar);
    } else if 0 < lower_bound(d, j) {
        assert(node =~= Set::empty());
    } else {
        assert(1 <= q[j - 1] < SIGMA);
        let (nlo, nhi) = lf_step(s, sa, c, q[j - 1], lo, hi);
        lemma_match_hits_no_budget(s, sa, c, q, d, j, lo, hi, cigar, 1);
        lemma_delete_hits_no_budget(s, sa, c, q, d, j, lo, hi, cigar, 1);
        assert(node_hits(s, sa, c, q, d, j - 1, -1, lo, hi, seq!['I'] + cigar, 1) =~= Set::empty());
        assert(all_matches(j - 1) + (seq!['M'] + cigar) =~= all_matches(j) + cigar);
        if nlo < nhi {
            lemma_node_no_budget(s, sa, c, q, d, j - 1, nlo, nhi, seq!['M'] + cigar);
            assert(node =~= node_hits(s, sa, c, q, d, j - 1, 0, nlo, nhi, seq!['M'] + cigar, 0));
        } else {
            lemma_steps_from_empty(s, sa, c, q, j - 1, nlo, nhi);
            assert(node =~= Set::empty());
        }
    }
}

/// With no edits allowed, approximate search agrees with exact backward
/// search as far as pruning lets it: its only possible hit is the exact
/// interval with a CIGAR of matches only and no edits; it returns nothing
/// when the exact interval is empty; and it returns that hit when the
/// interval is non-empty and no D-table entry that prunes (all but the
/// last) is positive.
pub proof fn lemma_zero_edits(p: ApproxSearchParams)
    requires
        valid_search(p),
        p.edits == 0,
    ensures
        ({
            let (lo, hi) = backward_interval(p.reference@, p.o_table.sa(), p.c_table@, p.query@, 0);
            let m = all_matches(p.query@.len() as int);
            let d = d_table_of(
                p.rev_o_table.text(),
                p.rev_o_table.sa(),
                p.c_table@,
                p.query@,
                p.reference@.len() as int,
            );
            &&& forall|h| #[trigger] approx_hits(p).contains(h) ==> h == (lo, hi, m, 0int)
            &&& lo >= hi ==> approx_hits(p) =~= Set::empty()
            &&& lo < hi && (forall|i: int| 0 <= i < d.len() - 1 ==> #[trigger] d[i] == 0) ==> approx_hits(p) =~= set![
                (lo, hi, m, 0int),
            ]
        }),
{
    let s = p.reference@;
    let sa = p.o_table.sa();
    let c = p.c_table@;
    let q = p.query@;
    let n = s.len() as int;
    let j = q.len() as int;
    let d = d_table_of(p.rev_o_table.text(), p.rev_o_table.sa(), c, q, n);
    p.o_table.lemma_wf_text();
    let empty = Seq::<char>::empty();
    assert(1 <= q[j - 1] < SIGMA);
    lemma_match_hits_no_budget(s, sa, c, q, d, j, 0, n, empty, 1);
    assert(node_hits(s, sa, c, q, d, j - 1, -1, 0, n, seq!['I'], 1) =~= Set::empty());
    lemma_steps_from_backward(s, sa, c, q, j);
    assert(backward_interval(s, sa, c, q, j) == (0int, n));
    let (nlo, nhi) = lf_step(s, sa, c, q[j - 1], 0, n);
    assert(steps_from(s, sa, c, q, j, 0, n) == steps_from(s, sa, c, q, j - 1, nlo, nhi));
    assert(all_matches(j - 1) + (seq!['M'] + empty) =~= all_matches(j));
    assert(approx_hits(p) =~= match_hits(s, sa, c, q, d, j, 0, 0, n, empty, 0, 1));
    if nlo < nhi {
        lemma_node_no_budget(s, sa, c, q, d, j - 1, nlo, nhi, seq!['M'] + empty);
    } else {
        lemma_steps_from_empty(s, sa, c, q, j - 1, nlo, nhi);
    }
}

/// `count` copies of `sym`.
pub open spec fn repeat(count: usize, sym: u8) -> Seq<u8> {
    Seq::new(count as nat, |i: int| sym)
}

/// The CIGAR that a list of runs stands for.
pub open spec fn expand_runs(runs: Seq<(usize, u8)>) -> Seq<u8>
    decreases runs.len(),
{
    if runs.len() == 0 {
        Seq::empty()
    } else {
        expand_runs(runs.drop_last()) + repeat(runs.last().0, runs.last().1)
    }
}

/// Run-length form of a CIGAR string: each run is (length, operation),
/// runs are non-empty and neighbouring runs have different operations.
pub fn cigar_runs(cigar: &[u8]) -> (r: Vec<(usize, u8)>)
    ensures
        expand_runs(r@) == cigar@,
        forall|k: int| 0 <= k < r.len() ==> (#[trigger] r@[k]).0 >= 1,
        forall|k: int| 0 < k < r.len() ==> (#[trigger] r@[k]).1 != r@[k - 1].1,
{
    let mut runs: Vec<(usize, u8)> = Vec::new();
    let mut i: usize = 0;
    while i < cigar.len()
        invariant
            i <= cigar.len(),
            expand_runs(runs@) == cigar@.take(i as int),
            forall|k: int| 0 <= k < runs.len() ==> (#[trigger] runs@[k]).0 >= 1 && runs@[k].0 <= i,
            forall|k: int| 0 < k < runs.len() ==> (#[trigger] runs@[k]).1 != runs@[k - 1].1,
        decreases cigar.len() - i,
    {
        let b = cigar[i];
        let ghost before = runs@;
        let n = runs.len();
        if n > 0 && runs[n - 1].1 == b {
            let (count, sym) = runs[n - 1];
            runs.set(n - 1, (count + 1, sym));
            proof {
                assert(runs@.drop_last() =~= before.drop_last());
                assert(repeat((count + 1) as usize, sym) =~= repeat(count, sym).push(b));
            }
        } else {
            runs.push((1, b));
            proof {
                assert(runs@.drop_last() =~= before);
                assert(repeat(1, b) =~= seq![b]);
            }
        }
        assert(cigar@.take(i + 1) =~= cigar@.take(i as int).push(b));
        i = i + 1;
    }
    assert(cigar@.take(i as int) =~= cigar@);
    runs
}

/// `cigar` aligns the query `q` to the reference string `w`: M copies an
/// equal symbol, S a different one, I consumes a query symbol only, D a
/// reference symbol only.
pub open spec fn aligns(q: Seq<u8>, cigar: Seq<char>, w: Seq<u8>) -> bool
    decreases cigar.len(),
{
    if cigar.len() == 0 {
        q.len() == 0 && w.len() == 0
    } else if cigar[0] == 'M' {
        q.len() > 0 && w.len() > 0 && q[0] == w[0] && aligns(q.drop_first(), cigar.drop_first(), w.drop_first())
    } else if cigar[0] == 'S' {
        q.len() > 0 && w.len() > 0 && q[0] != w[0] && aligns(q.drop_first(), cigar.drop_first(), w.drop_first())
    } else if cigar[0] == 'I' {
        q.len() > 0 && aligns(q.drop_first(), cigar.drop_first(), w)
    } else if cigar[0] == 'D' {
        w.len() > 0 && aligns(q, cigar.drop_first(), w.drop_first())
    } else {
        false
    }
}

/// A hit is a genuine approximate occurrence: its CIGAR aligns the query to
/// a string whose occurrences are exactly the SA interval of the hit.
pub open spec fn sound_hit(s: Seq<u8>, sa: Seq<usize>, q: Seq<u8>, h: (int, int, Seq<char>, int)) -> bool {
    exists|w: Seq<u8>| is_body(w) && aligns(q, h.2, w) && is_occurrence_interval(s, sa, w, h.0, h.1)
}

proof fn lemma_aligns_prepend(x: char, y: Seq<u8>, qs: Seq<u8>, cigar: Seq<char>, z: Seq<u8>, w: Seq<u8>)
    requires
        aligns(qs, cigar, w),
        x == 'M' ==> y.len() == 1 && z.len() == 1 && y[0] == z[0],
        x == 'S' ==> y.len() == 1 && z.len() == 1 && y[0] != z[0],
        x == 'I' ==> y.len() == 1 && z.len() == 0,
        x == 'D' ==> y.len() == 0 && z.len() == 1,
        x == 'M' || x == 'S' || x == 'I' || x == 'D',
    ensures
        aligns(y + qs, seq![x] + cigar, z + w),
{
    assert((seq![x] + cigar).drop_first() =~= cigar);
    if y.len() == 1 {
        assert((y + qs).drop_first() =~= qs);
    } else {
        assert(y + qs =~= qs);
    }
    if z.len() == 1 {
        assert((z + w).drop_first() =~= w);
    } else {
        assert(z + w =~= w);
    }
}

/// The search state of a node is sound: the CIGAR built so far aligns the
/// consumed query suffix to a string whose occurrence interval is [lo, hi).
spec fn node_sound(s: Seq<u8>, sa: Seq<usize>, q: Seq<u8>, j: int, lo: int, hi: int, cigar: Seq<char>) -> bool {
    exists|w: Seq<u8>|
        is_body(w) && aligns(q.subrange(j, q.len() as int), cigar, w) && is_occurrence_interval(s, sa, w, lo, hi)
}

proof fn lemma_step_sound(
    s: Seq<u8>,
    sa: Seq<usize>,
    c: Seq<usize>,
    q: Seq<u8>,
    j: int,
    lo: int,
    hi: int,
    cigar: Seq<char>,
    x: char,
    a: u8,
)
    requires
        is_reference(s),
        is_suffix_array(s, sa),
        is_c_table(s, c),
        1 <= a < SIGMA,
        0 <= j <= q.len(),
        node_sound(s, sa, q, j, lo, hi, cigar),
        x == 'M' ==> j >= 1 && q[j - 1] == a,
        x == 'S' ==> j >= 1 && q[j - 1] != a,
        x == 'D',
    ensures
        node_sound(s, sa, q, j, lf_step(s, sa, c, a, lo, hi).0, lf_step(s, sa, c, a, lo, hi).1, seq![x] + cigar),
{
    let w = choose|w: Seq<u8>|
        is_body(w) && aligns(q.subrange(j, q.len() as int), cigar, w) && is_occurrence_interval(s, sa, w, lo, hi);
    lemma_lf_step_interval(s, sa, c, w, a, lo, hi);
    lemma_aligns_prepend(x, Seq::empty(), q.subrange(j, q.len() as int), cigar, seq![a], w);
    assert(Seq::<u8>::empty() + q.subrange(j, q.len() as int) =~= q.subrange(j, q.len() as int));
    let (nlo, nhi) = lf_step(s, sa, c, a, lo, hi);
    assert(is_body(seq![a] + w)) by {
        assert forall|i: int| 0 <= i < (seq![a] + w).len() implies 1 <= #[trigger] (seq![a] + w)[i] < SIGMA by {
            if i > 0 {
                assert((seq![a] + w)[i] == w[i - 1]);
            }
        }
    }
    assert(is_body(seq![a] + w) && aligns(q.subrange(j, q.len() as int), seq![x] + cigar, seq![a] + w) && is_occurrence_interval(
        s,
        sa,
        seq![a] + w,
        nlo,
        nhi,
    ));
}

proof fn lemma_match_step_sound(
    s: Seq<u8>,
    sa: Seq<usize>,
    c: Seq<usize>,
    q: Seq<u8>,
    j: int,
    lo: int,
    hi: int,
    cigar: Seq<char>,
    x: char,
    a: u8,
)
    requires
        is_reference(s),
        is_suffix_array(s, sa),
        is_c_table(s, c),
        1 <= a < SIGMA,
        1 <= j <= q.len(),
        node_sound(s, sa, q, j, lo, hi, cigar),
        x == 'M' && q[j - 1] == a || x == 'S' && q[j - 1] != a,
    ensures
        node_sound(
            s,
            sa,
            q,
            j - 1,
            lf_step(s, sa, c, a, lo, hi).0,
            lf_step(s, sa, c, a, lo, hi).1,
            seq![x] + cigar,
        ),
{
    let w = choose|w: Seq<u8>|
        is_body(w) && aligns(q.subrange(j, q.len() as int), cigar, w) && is_occurrence_interval(s, sa, w, lo, hi);
    lemma_lf_step_interval(s, sa, c, w, a, lo, hi);
    lemma_aligns_prepend(x, seq![q[j - 1]], q.subrange(j, q.len() as int), cigar, seq![a], w);
    assert(seq![q[j - 1]] + q.subrange(j, q.len() as int) =~= q.subrange(j - 1, q.len() as int));
    let (nlo, nhi) = lf_step(s, sa, c, a, lo, hi);
    assert(is_body(seq![a] + w)) by {
        assert forall|i: int| 0 <= i < (seq![a] + w).len() implies 1 <= #[trigger] (seq![a] + w)[i] < SIGMA by {
            if i > 0 {
                assert((seq![a] + w)[i] == w[i - 1]);
            }
        }
    }
    assert(is_body(seq![a] + w) && aligns(q.subrange(j - 1, q.len() as int), seq![x] + cigar, seq![a] + w)
        && is_occurrence_interval(s, sa, seq![a] + w, nlo, nhi));
}

proof fn lemma_insert_step_sound(
    s: Seq<u8>,
    sa: Seq<usize>,
    q: Seq<u8>,
    j: int,
    lo: int,
    hi: int,
    cigar: Seq<char>,
)
    requires
        1 <= j <= q.len(),
        node_sound(s, sa, q, j, lo, hi, cigar),
    ensures
        node_sound(s, sa, q, j - 1, lo, hi, seq!['I'] + cigar),
{
    let w = choose|w: Seq<u8>|
        is_body(w) && aligns(q.subrange(j, q.len() as int), cigar, w) && is_occurrence_interval(s, sa, w, lo, hi);
    lemma_aligns_prepend('I', seq![q[j - 1]], q.subrange(j, q.len() as int), cigar, Seq::empty(), w);
    assert(seq![q[j - 1]] + q.subrange(j, q.len() as int) =~= q.subrange(j - 1, q.len() as int));
    assert(Seq::<u8>::empty() + w =~= w);
    assert(is_body(w) && aligns(q.subrange(j - 1, q.len() as int), seq!['I'] + cigar, w) && is_occurrence_interval(s, sa, w, lo, hi));
}

proof fn lemma_node_hits_sound(
    s: Seq<u8>,
    sa: Seq<usize>,
    c: Seq<usize>,
    q: Seq<u8>,
    d: Seq<usize>,
    j: int,
    e: int,
    lo: int,
    hi: int,
    cigar: Seq<char>,
    used: int,
)
    requires
        is_reference(s),
        is_suffix_array(s, sa),
        is_c_table(s, c),
        0 <= j <= q.len(),
        node_sound(s, sa, q, j, lo, hi, cigar),
    ensures
        forall|h| #[trigger] node_hits(s, sa, c, q, d, j, e, lo, hi, cigar, used).contains(h) ==> sound_hit(s, sa, q, h),
    decreases j + e + 1, 5int,
{
    if j < 0 || e < 0 || e < lower_bound(d, j) {
        assert(node_hits(s, sa, c, q, d, j, e, lo, hi, cigar, used) =~= Set::empty());
    } else if j == 0 {
        assert(node_hits(s, sa, c, q, d, j, e, lo, hi, cigar, used) == set![(lo, hi, cigar, used)]);
        assert(q.subrange(0, q.len() as int) =~= q);
        let w = choose|w: Seq<u8>|
            is_body(w) && aligns(q.subrange(j, q.len() as int), cigar, w) && is_occurrence_interval(s, sa, w, lo, hi);
        assert(is_body(w) && aligns(q, cigar, w) && is_occurrence_interval(s, sa, w, lo, hi));
        let h0 = (lo, hi, cigar, used);
        assert(is_body(w) && aligns(q, h0.2, w) && is_occurrence_interval(s, sa, w, h0.0, h0.1));
        assert(sound_hit(s, sa, q, h0));
    } else {
        let mh = match_hits(s, sa, c, q, d, j, e, lo, hi, cigar, used, 1);
        let ins = node_hits(s, sa, c, q, d, j - 1, e - 1, lo, hi, seq!['I'] + cigar, used + 1);
        let dh = delete_hits(s, sa, c, q, d, j, e, lo, hi, cigar, used, 1);
        assert(node_hits(s, sa, c, q, d, j, e, lo, hi, cigar, used) == mh.union(ins).union(dh));
        lemma_match_hits_sound(s, sa, c, q, d, j, e, lo, hi, cigar, used, 1);
        lemma_delete_hits_sound(s, sa, c, q, d, j, e, lo, hi, cigar, used, 1);
        lemma_insert_step_sound(s, sa, q, j, lo, hi, cigar);
        lemma_node_hits_sound(s, sa, c, q, d, j - 1, e - 1, lo, hi, seq!['I'] + cigar, used + 1);
        assert forall|h| mh.union(ins).union(dh).contains(h) implies sound_hit(s, sa, q, h) by {
            if mh.contains(h) {
            } else if ins.contains(h) {
            } else {
                assert(dh.contains(h));
            }
        }
    }
}

proof fn lemma_match_hits_sound(
    s: Seq<u8>,
    sa: Seq<usize>,
    c: Seq<usize>,
    q: Seq<u8>,
    d: Seq<usize>,
    j: int,
    e: int,
    lo: int,
    hi: int,
    cigar: Seq<char>,
    used: int,
    a: int,
)
    requires
        is_reference(s),
        is_suffix_array(s, sa),
        is_c_table(s, c),
        0 <= j <= q.len(),
        node_sound(s, sa, q, j, lo, hi, cigar),
    ensures
        forall|h| #[trigger] match_hits(s, sa, c, q, d, j, e, lo, hi, cigar, used, a).contains(h) ==> sound_hit(
            s,
            sa,
            q,
            h,
        ),
    decreases j + e + 1, 5 - a,
{
    if j < 1 || e < 0 || a < 1 || a >= SIGMA {
        assert(match_hits(s, sa, c, q, d, j, e, lo, hi, cigar, used, a) =~= Set::empty());
    } else {
        let cost: int = if a == q[j - 1] {
            0
        } else {
            1
        };
        let nlo = lf_step(s, sa, c, a as u8, lo, hi).0;
        let nhi = lf_step(s, sa, c, a as u8, lo, hi).1;
        let x = if cost == 0 {
            'M'
        } else {
            'S'
        };
        let here = if e - cost < 0 || nlo >= nhi {
            Set::empty()
        } else {
            node_hits(s, sa, c, q, d, j - 1, e - cost, nlo, nhi, seq![x] + cigar, used + cost)
        };
        let rest = match_hits(s, sa, c, q, d, j, e, lo, hi, cigar, used, a + 1);
        assert(match_hits(s, sa, c, q, d, j, e, lo, hi, cigar, used, a) == here.union(rest));
        if !(e - cost < 0 || nlo >= nhi) {
            lemma_match_step_sound(s, sa, c, q, j, lo, hi, cigar, x, a as u8);
            lemma_node_hits_sound(s, sa, c, q, d, j - 1, e - cost, nlo, nhi, seq![x] + cigar, used + cost);
        }
        lemma_match_hits_sound(s, sa, c, q, d, j, e, lo, hi, cigar, used, a + 1);
        assert forall|h| here.union(rest).contains(h) implies sound_hit(s, sa, q, h) by {
            if here.contains(h) {
            } else {
                assert(rest.contains(h));
            }
        }
    }
}

proof fn lemma_delete_hits_sound(
    s: Seq<u8>,
    sa: Seq<usize>,
    c: Seq<usize>,
    q: Seq<u8>,
    d: Seq<usize>,
    j: int,
    e: int,
    lo: int,
    hi: int,
    cigar: Seq<char>,
    used: int,
    a: int,
)
    requires
        is_reference(s),
        is_suffix_array(s, sa),
        is_c_table(s, c),
        0 <= j <= q.len(),
        node_sound(s, sa, q, j, lo, hi, cigar),
    ensures
        forall|h| #[trigger] delete_hits(s, sa, c, q, d, j, e, lo, hi, cigar, used, a).contains(h) ==> sound_hit(
            s,
            sa,
            q,
            h,
        ),
    decreases j + e + 1, 5 - a,
{
    if j < 1 || e < 0 || a < 1 || a >= SIGMA {
        assert(delete_hits(s, sa, c, q, d, j, e, lo, hi, cigar, used, a) =~= Set::empty());
    } else {
        let nlo = lf_step(s, sa, c, a as u8, lo, hi).0;
        let nhi = lf_step(s, sa, c, a as u8, lo, hi).1;
        let here = if nlo >= nhi {
            Set::empty()
        } else {
            node_hits(s, sa, c, q, d, j, e - 1, nlo, nhi, seq!['D'] + cigar, used + 1)
        };
        let rest = delete_hits(s, sa, c, q, d, j, e, lo, hi, cigar, used, a + 1);
        assert(delete_hits(s, sa, c, q, d, j, e, lo, hi, cigar, used, a) == here.union(rest));
        if nlo < nhi {
            lemma_step_sound(s, sa, c, q, j, lo, hi, cigar, 'D', a as u8);
            lemma_node_hits_sound(s, sa, c, q, d, j, e - 1, nlo, nhi, seq!['D'] + cigar, used + 1);
        }
        lemma_delete_hits_sound(s, sa, c, q, d, j, e, lo, hi, cigar, used, a + 1);
        assert forall|h| here.union(rest).contains(h) implies sound_hit(s, sa, q, h) by {
            if here.contains(h) {
            } else {
                assert(rest.contains(h));
            }
        }
    }
}

/// Every hit of an approximate search is a genuine approximate occurrence:
/// when the forward index holds the suffix array of a reference, the hit's
/// CIGAR aligns the query to a string whose occurrences in the reference
/// are exactly the hit's SA interval.
pub proof fn lemma_hits_sound(p: ApproxSearchParams, h: (int, int, Seq<char>, int))
    requires
        valid_search(p),
        is_reference(p.reference@),
        is_suffix_array(p.reference@, p.o_table.sa()),
        approx_hits(p).contains(h),
    ensures
        sound_hit(p.reference@, p.o_table.sa(), p.query@, h),
{
    let s = p.reference@;
    let sa = p.o_table.sa();
    let c = p.c_table@;
    let q = p.query@;
    let n = s.len() as int;
    let j = q.len() as int;
    let d = d_table_of(p.rev_o_table.text(), p.rev_o_table.sa(), c, q, n);
    let k = p.edits as int;
    let empty_c = Seq::<char>::empty();
    let empty_w = Seq::<u8>::empty();
    assert(q.subrange(j, j) =~= Seq::<u8>::empty());
    assert(aligns(q.subrange(j, j), empty_c, empty_w));
    assert(is_body(empty_w));
    assert(is_occurrence_interval(s, sa, empty_w, 0, n)) by {
        assert forall|x: int| 0 <= x < n implies (0 <= x < n <==> #[trigger] starts_with(s, sa[x] as int, empty_w)) by {
            assert(sa[x] < n);
        }
    }
    assert(node_sound(s, sa, q, j, 0, n, empty_c));
    lemma_match_hits_sound(s, sa, c, q, d, j, k, 0, n, empty_c, 0, 1);
    lemma_insert_step_sound(s, sa, q, j, 0, n, empty_c);
    assert(seq!['I'] + empty_c =~= seq!['I']);
    lemma_node_hits_sound(s, sa, c, q, d, j - 1, k - 1, 0, n, seq!['I'], 1);
}

proof fn lemma_aligns_lengths(q: Seq<u8>, cigar: Seq<char>, w: Seq<u8>)
    requires
        aligns(q, cigar, w),
    ensures
        q.len() + count_op(cigar, 'D') == w.len() + count_op(cigar, 'I'),
    decreases cigar.len(),
{
    if cigar.len() > 0 {
        if cigar[0] == 'M' || cigar[0] == 'S' {
            lemma_aligns_lengths(q.drop_first(), cigar.drop_first(), w.drop_first());
        } else if cigar[0] == 'I' {
            lemma_aligns_lengths(q.drop_first(), cigar.drop_first(), w);
        } else {
            lemma_aligns_lengths(q, cigar.drop_first(), w.drop_first());
        }
    }
}

proof fn lemma_count_m_i(cigar: Seq<char>)
    ensures
        count_op(cigar, 'M') + count_op(cigar, 'I') <= cigar.len(),
    decreases cigar.len(),
{
    if cigar.len() > 0 {
        lemma_count_m_i(cigar.drop_first());
    }
}

/// A query longer than the reference's body plus the edit budget has no
/// approximate occurrence: the search returns nothing.
pub proof fn lemma_long_query_no_hits(p: ApproxSearchParams)
    requires
        valid_search(p),
        is_reference(p.reference@),
        is_suffix_array(p.reference@, p.o_table.sa()),
        p.query@.len() > p.reference@.len() - 1 + p.edits,
    ensures
        approx_hits(p) =~= Set::empty(),
{
    let s = p.reference@;
    let sa = p.o_table.sa();
    let q = p.query@;
    let n = s.len() as int;
    assert forall|h| !approx_hits(p).contains(h) by {
        if approx_hits(p).contains(h) {
            lemma_hits_consistent(p, h);
            lemma_hits_sound(p, h);
            let w = choose|w: Seq<u8>| is_body(w) && aligns(q, h.2, w) && is_occurrence_interval(s, sa, w, h.0, h.1);
            assert(starts_with(s, sa[h.0] as int, w));
            let p0 = sa[h.0] as int;
            if p0 + w.len() == n && w.len() > 0 {
                assert(s[p0 + (w.len() - 1)] == w[w.len() - 1]);
            }
            lemma_aligns_lengths(q, h.2, w);
            lemma_count_m_i(h.2);
        }
    }
}

} // verus!
