//! The C-table and the full (unsampled) O-table.

use vstd::prelude::*;
use crate::suffix_array_construction::is_permutation;
use crate::util::{bwt, bwt_at, count_sym, occ, over_alphabet, lemma_occ_step, SIGMA};

verus! {

/// The C-table: one bucket start per symbol.
pub type CTable = Vec<usize>;

/// Positions j < i with s[j] < c.
pub open spec fn count_less(s: Seq<u8>, c: int, i: int) -> nat
    decreases i,
{
    if i <= 0 {
        0
    } else {
        count_less(s, c, i - 1) + if (s[i - 1] as int) < c {
            1nat
        } else {
            0nat
        }
    }
}

/// C[c] for every symbol c of the alphabet.
pub open spec fn is_c_table(s: Seq<u8>, c: Seq<usize>) -> bool {
    &&& c.len() == SIGMA
    &&& forall|a: int| 0 <= a < SIGMA ==> #[trigger] c[a] == count_less(s, a, s.len() as int)
}

pub proof fn lemma_count_less_step(s: Seq<u8>, c: int, i: int)
    requires
        0 <= c < 256,
    ensures
        count_less(s, c + 1, i) == count_less(s, c, i) + count_sym(s, c as u8, i),
    decreases i,
{
    if i > 0 {
        lemma_count_less_step(s, c, i - 1);
    }
}

pub proof fn lemma_count_less_bound(s: Seq<u8>, c: int, i: int)
    requires
        0 <= i,
    ensures
        count_less(s, c, i) <= i,
    decreases i,
{
    if i > 0 {
        lemma_count_less_bound(s, c, i - 1);
    }
}

pub proof fn lemma_count_sym_bound(s: Seq<u8>, a: u8, i: int)
    requires
        0 <= i,
    ensures
        count_sym(s, a, i) <= i,
    decreases i,
{
    if i > 0 {
        lemma_count_sym_bound(s, a, i - 1);
    }
}

/// Counts each symbol and takes prefix sums.
pub fn generate_c_table(reference: &[u8]) -> (r: CTable)
    requires
        over_alphabet(reference@),
    ensures
        is_c_table(reference@, r@),
{
    let ghost s = reference@;
    let n = reference.len();
    let mut counts: Vec<usize> = vec![0; 5];
    let mut j: usize = 0;
    while j < n
        invariant
            s == reference@,
            n == s.len(),
            over_alphabet(s),
            j <= n,
            counts.len() == SIGMA,
            forall|b: int| 0 <= b < SIGMA ==> #[trigger] counts@[b] == count_sym(s, b as u8, j as int),
        decreases n - j,
    {
        let c = reference[j] as usize;
        proof {
            lemma_count_sym_bound(s, c as u8, j as int);
        }
        counts.set(c, counts[c] + 1);
        j = j + 1;
    }
    let mut c_table: Vec<usize> = vec![0];
    proof {
        lemma_count_less_zero(s, n as int);
    }
    let mut i: usize = 1;
    while i < SIGMA
        invariant
            s == reference@,
            n == s.len(),
            1 <= i <= SIGMA,
            c_table.len() == i,
            counts.len() == SIGMA,
            forall|b: int| 0 <= b < SIGMA ==> #[trigger] counts@[b] == count_sym(s, b as u8, n as int),
            forall|a: int| 0 <= a < i ==> #[trigger] c_table@[a] == count_less(s, a, n as int),
        decreases SIGMA - i,
    {
        proof {
            lemma_count_less_step(s, (i - 1) as int, n as int);
            lemma_count_less_bound(s, i as int, n as int);
        }
        let v = c_table[i - 1] + counts[i - 1];
        c_table.push(v);
        i = i + 1;
    }
    c_table
}

pub proof fn lemma_count_less_zero(s: Seq<u8>, i: int)
    ensures
        count_less(s, 0, i) == 0,
    decreases i,
{
    if i > 0 {
        lemma_count_less_zero(s, i - 1);
    }
}

/// The full, unsampled O-table: row i holds Occ(a, i) for every symbol a.
pub fn generate_o_table_naive(reference: &[u8], suffix_array: &[usize]) -> (r: Vec<Vec<usize>>)
    requires
        reference.len() >= 1,
        over_alphabet(reference@),
        is_permutation(suffix_array@, reference.len() as int),
    ensures
        r.len() == reference.len() + 1,
        forall|i: int| 0 <= i <= reference.len() ==> (#[trigger] r@[i]).len() == SIGMA,
        forall|i: int, a: int|
            0 <= i <= reference.len() && 0 <= a < SIGMA ==> #[trigger] r@[i]@[a] == occ(
                reference@,
                suffix_array@,
                a as u8,
                i,
            ),
{
    let ghost s = reference@;
    let ghost sa = suffix_array@;
    let n = suffix_array.len();
    let mut rank: Vec<usize> = vec![0; 5];
    let mut rows: Vec<Vec<usize>> = Vec::new();
    rows.push(rank.clone());
    let mut i: usize = 0;
    while i < n
        invariant
            s == reference@,
            sa == suffix_array@,
            n == s.len(),
            over_alphabet(s),
            is_permutation(sa, n as int),
            i <= n,
            rows.len() == i + 1,
            rank.len() == SIGMA,
            forall|a: int| 0 <= a < SIGMA ==> #[trigger] rank@[a] == occ(s, sa, a as u8, i as int),
            forall|k: int| 0 <= k <= i ==> (#[trigger] rows@[k]).len() == SIGMA,
            forall|k: int, a: int|
                0 <= k <= i && 0 <= a < SIGMA ==> #[trigger] rows@[k]@[a] == occ(s, sa, a as u8, k),
        decreases n - i,
    {
        let j = bwt(reference, suffix_array, i) as usize;
        proof {
            assert(sa[i as int] < n);
            lemma_occ_step(s, sa, j as u8, i as int);
        }
        rank.set(j, rank[j] + 1);
        rows.push(rank.clone());
        i = i + 1;
        assert forall|a: int| 0 <= a < SIGMA implies #[trigger] rank@[a] == occ(s, sa, a as u8, i as int) by {
            assert(bwt_at(s, sa, i - 1) == j);
        }
    }
    rows
}

} // verus!
