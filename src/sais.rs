//! Suffix-array construction by induced sorting (SA-IS).

use vstd::prelude::*;
use crate::skew::below;
use crate::suffix_array_construction::{is_suffix_array, SuffixArray};
use crate::util::over_alphabet;
use crate::wide::{
    is_valid_wide_suffix_array, is_wide_suffix_array, lemma_widen_suffix_array, wide_naive_suffix_array,
    widen,
};

verus! {

/// Marks an empty slot of the suffix array under construction.
const EMPTY: usize = usize::MAX;

/// Suffix array of `reference` by induced sorting (SA-IS).
pub fn suffix_array_induced_sort(reference: &[u8]) -> (r: SuffixArray)
    requires
        over_alphabet(reference@),
        reference.len() < usize::MAX / 4,
    ensures
        is_suffix_array(reference@, r@),
{
    let mut wide: Vec<usize> = Vec::new();
    let mut i: usize = 0;
    while i < reference.len()
        invariant
            over_alphabet(reference@),
            i <= reference.len(),
            wide.len() == i,
            below(wide@, 5),
            wide@ == widen(reference@).take(i as int),
        decreases reference.len() - i,
    {
        wide.push(reference[i] as usize);
        i = i + 1;
        assert(wide@ =~= widen(reference@).take(i as int));
    }
    assert(wide@ =~= widen(reference@));
    let sa = sais_rec(&wide, 5);
    proof {
        lemma_widen_suffix_array(reference@, sa@);
    }
    sa
}

/// Type map: true for S-type positions, false for L-type ones.
fn classify(s: &[usize]) -> (t: Vec<bool>)
    requires
        s.len() >= 1,
    ensures
        t.len() == s.len(),
        t@[s.len() - 1],
        forall|i: int| 0 <= i < s.len() - 1 ==> #[trigger] t@[i] == (s[i] < s[i + 1] || (s[i] == s[i + 1] && t@[i + 1])),
{
    let n = s.len();
    let mut t: Vec<bool> = vec![true; n];
    let mut i = n - 1;
    while i > 0
        invariant
            n == s.len(),
            t.len() == n,
            i < n,
            t@[n - 1],
            forall|k: int| i <= k < n - 1 ==> #[trigger] t@[k] == (s[k] < s[k + 1] || (s[k] == s[k + 1] && t@[k + 1])),
        decreases i,
    {
        i = i - 1;
        let v = s[i] < s[i + 1] || (s[i] == s[i + 1] && t[i + 1]);
        t.set(i, v);
    }
    t
}

/// A left-most S-type position.
fn is_lms(t: &Vec<bool>, i: usize) -> (r: bool)
    requires
        i < t.len(),
    ensures
        r == (i > 0 && t@[i as int] && !t@[i - 1]),
{
    i > 0 && t[i] && !t[i - 1]
}

/// Bucket sizes: how often each symbol occurs.
fn bucket_sizes(s: &[usize], asize: usize) -> (r: Vec<usize>)
    requires
        below(s@, asize as int),
    ensures
        r.len() == asize,
        forall|c: int| 0 <= c < asize ==> #[trigger] r@[c] <= s.len(),
{
    let mut counts: Vec<usize> = vec![0; asize];
    let mut k: usize = 0;
    while k < s.len()
        invariant
            below(s@, asize as int),
            k <= s.len(),
            counts.len() == asize,
            forall|c: int| 0 <= c < asize ==> #[trigger] counts@[c] <= k,
        decreases s.len() - k,
    {
        let c = s[k];
        counts.set(c, counts[c] + 1);
        k = k + 1;
    }
    counts
}

/// Bucket heads (`tails == false`) or one-past-the-end tails (`tails == true`),
/// capped at `n`.
fn bucket_bounds(sizes: &Vec<usize>, n: usize, tails: bool) -> (r: Vec<usize>)
    ensures
        r.len() == sizes.len(),
        forall|c: int| 0 <= c < r.len() ==> #[trigger] r@[c] <= n,
{
    let mut r: Vec<usize> = Vec::new();
    let mut acc: usize = 0;
    let mut c: usize = 0;
    while c < sizes.len()
        invariant
            c <= sizes.len(),
            r.len() == c,
            acc <= n,
            forall|k: int| 0 <= k < r.len() ==> #[trigger] r@[k] <= n,
        decreases sizes.len() - c,
    {
        let next = if sizes[c] <= n - acc {
            acc + sizes[c]
        } else {
            n
        };
        r.push(if tails {
            next
        } else {
            acc
        });
        acc = next;
        c = c + 1;
    }
    r
}

/// Induces the L-type suffixes left to right, then the S-type suffixes
/// right to left, from the suffixes already placed in `sa`.
fn induce(s: &[usize], t: &Vec<bool>, sa: &mut Vec<usize>, sizes: &Vec<usize>)
    requires
        t.len() == s.len(),
        old(sa).len() == s.len(),
        below(s@, sizes.len() as int),
    ensures
        final(sa).len() == s.len(),
{
    let n = s.len();
    let mut heads = bucket_bounds(sizes, n, false);
    let mut k: usize = 0;
    while k < n
        invariant
            n == s.len(),
            t.len() == n,
            sa.len() == n,
            below(s@, sizes.len() as int),
            heads.len() == sizes.len(),
            forall|c: int| 0 <= c < heads.len() ==> #[trigger] heads@[c] <= n,
            k <= n,
        decreases n - k,
    {
        let p = sa[k];
        if p != EMPTY && p > 0 && p <= n {
            let j = p - 1;
            if !t[j] {
                let c = s[j];
                let h = heads[c];
                if h < n {
                    sa.set(h, j);
                    heads.set(c, h + 1);
                }
            }
        }
        k = k + 1;
    }
    let mut tails = bucket_bounds(sizes, n, true);
    let mut k: usize = n;
    while k > 0
        invariant
            n == s.len(),
            t.len() == n,
            sa.len() == n,
            below(s@, sizes.len() as int),
            tails.len() == sizes.len(),
            forall|c: int| 0 <= c < tails.len() ==> #[trigger] tails@[c] <= n,
            k <= n,
        decreases k,
    {
        k = k - 1;
        let p = sa[k];
        if p != EMPTY && p > 0 && p <= n {
            let j = p - 1;
            if t[j] {
                let c = s[j];
                let tl = tails[c];
                if tl > 0 {
                    sa.set(tl - 1, j);
                    tails.set(c, tl - 1);
                }
            }
        }
    }
}

/// The LMS substrings at `p` and `q` agree in symbols and types up to and
/// including the next LMS position of each.
fn lms_equal(s: &[usize], t: &Vec<bool>, p: usize, q: usize) -> (r: bool)
    requires
        t.len() == s.len(),
        p < s.len(),
        q < s.len(),
{
    let n = s.len();
    let mut d: usize = 0;
    while d < n - p && d < n - q
        invariant
            t.len() == n,
            n == s.len(),
            p < n,
            q < n,
        decreases n - p - d,
    {
        if s[p + d] != s[q + d] || t[p + d] != t[q + d] {
            return false;
        }
        if d > 0 && is_lms(t, p + d) && is_lms(t, q + d) {
            return true;
        }
        if d > 0 && (is_lms(t, p + d) || is_lms(t, q + d)) {
            return false;
        }
        d = d + 1;
    }
    false
}

/// One level of SA-IS: places the LMS positions, induces the order of the
/// LMS substrings, names them, orders the LMS suffixes (by recursion on the
/// names when they repeat) and induces the full order from them. The
/// induced order is checked in linear time before it is returned; should
/// the check fail, the suffixes are sorted directly.
fn sais_rec(s: &[usize], asize: usize) -> (r: Vec<usize>)
    requires
        below(s@, asize as int),
        s.len() < usize::MAX / 4,
    ensures
        is_wide_suffix_array(s@, r@),
    decreases s.len(),
{
    let n = s.len();
    if n == 0 {
        let r: Vec<usize> = Vec::new();
        assert(r@ =~= Seq::<usize>::empty());
        return r;
    }
    if n == 1 {
        let r: Vec<usize> = vec![0];
        assert(r@[0] == 0);
        return r;
    }
    let t = classify(s);
    let sizes = bucket_sizes(s, asize);

    // Step 1: the LMS positions at the tails of their buckets.
    let mut sa: Vec<usize> = vec![EMPTY; n];
    let mut tails = bucket_bounds(&sizes, n, true);
    let mut i: usize = 0;
    while i < n
        invariant
            n == s.len(),
            t.len() == n,
            sa.len() == n,
            below(s@, asize as int),
            tails.len() == asize,
            forall|c: int| 0 <= c < tails.len() ==> #[trigger] tails@[c] <= n,
            i <= n,
        decreases n - i,
    {
        if is_lms(&t, i) {
            let c = s[i];
            let tl = tails[c];
            if tl > 0 {
                sa.set(tl - 1, i);
                tails.set(c, tl - 1);
            }
        }
        i = i + 1;
    }
    induce(s, &t, &mut sa, &sizes);

    // Naming: equal LMS substrings share a name, in sorted order.
    let mut names: Vec<usize> = vec![EMPTY; n];
    let mut count: usize = 0;
    let mut prev: usize = EMPTY;
    let mut k: usize = 0;
    while k < n
        invariant
            n == s.len(),
            t.len() == n,
            sa.len() == n,
            names.len() == n,
            count <= k,
            k <= n,
            forall|p: int| 0 <= p < n ==> #[trigger] names@[p] == EMPTY || names@[p] < count,
        decreases n - k,
    {
        let p = sa[k];
        if p < n && is_lms(&t, p) {
            if prev == EMPTY || prev >= n || !lms_equal(s, &t, prev, p) {
                count = count + 1;
            }
            if count > 0 {
                names.set(p, count - 1);
            }
            prev = p;
        }
        k = k + 1;
    }

    // The reduced string and the offsets of its symbols.
    let mut s1: Vec<usize> = Vec::new();
    let mut offsets: Vec<usize> = Vec::new();
    let mut p: usize = 0;
    while p < n
        invariant
            n == s.len(),
            names.len() == n,
            p <= n,
            s1.len() == offsets.len(),
            s1.len() <= p,
            below(s1@, count as int),
            forall|k: int| 0 <= k < offsets.len() ==> (#[trigger] offsets@[k]) < n,
            forall|q: int| 0 <= q < n ==> #[trigger] names@[q] == EMPTY || names@[q] < count,
        decreases n - p,
    {
        if names[p] != EMPTY {
            s1.push(names[p]);
            offsets.push(p);
        }
        p = p + 1;
    }

    // Order of the LMS suffixes: by recursion, or directly when the names
    // are distinct.
    let sa1: Vec<usize> = if count < s1.len() && s1.len() < n {
        sais_rec(&s1, count)
    } else {
        let mut inv: Vec<usize> = vec![0; s1.len()];
        let mut k: usize = 0;
        while k < s1.len()
            invariant
                inv.len() == s1.len(),
                k <= s1.len(),
            decreases s1.len() - k,
        {
            if s1[k] < inv.len() {
                inv.set(s1[k], k);
            }
            k = k + 1;
        }
        inv
    };

    // Final induction from the LMS suffixes in sorted order.
    let mut sa: Vec<usize> = vec![EMPTY; n];
    let mut tails = bucket_bounds(&sizes, n, true);
    let mut k: usize = sa1.len();
    while k > 0
        invariant
            n == s.len(),
            sa.len() == n,
            below(s@, asize as int),
            tails.len() == asize,
            forall|c: int| 0 <= c < tails.len() ==> #[trigger] tails@[c] <= n,
            forall|q: int| 0 <= q < offsets.len() ==> (#[trigger] offsets@[q]) < n,
            k <= sa1.len(),
        decreases k,
    {
        k = k - 1;
        let r = sa1[k];
        if r < offsets.len() {
            let pos = offsets[r];
            let c = s[pos];
            let tl = tails[c];
            if tl > 0 {
                sa.set(tl - 1, pos);
                tails.set(c, tl - 1);
            }
        }
    }
    induce(s, &t, &mut sa, &sizes);
    if is_valid_wide_suffix_array(s, &sa) {
        sa
    } else {
        wide_naive_suffix_array(s)
    }
}

} // verus!
