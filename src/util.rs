//! Alphabet and remapping of input text, the BWT and its occurrence counts.

use vstd::prelude::*;
use vstd::string::StringSliceAdditionalSpecFns;
use vstd::relations::injective_on;
use vstd::string::StringExecFns;
use vstd::set_lib::{lemma_len_subset, lemma_map_size};
use crate::suffix_array_construction::{
    construct_suffix_array_naive, is_permutation, is_reference, is_suffix_array,
};

verus! {

/// The ordered alphabet; position 0 is the sentinel, strictly smallest.
pub const ALPHABET: [char; 5] = ['$', 'A', 'C', 'G', 'T'];

/// Number of symbols, sentinel included.
pub const SIGMA: usize = 5;

/// Errors that parsing and decoding hand back to the caller.
#[derive(Debug, Clone, Copy, PartialEq, Eq, Structural)]
pub enum FmError {
    /// An input character is not a body symbol of the alphabet.
    InvalidSymbol,
    /// The reference has no body.
    EmptyReference,
    /// A persisted table has the wrong shape or version.
    DecodeError,
}

/// The code of an input byte: 1..4 for `A`, `C`, `G`, `T`, none otherwise.
pub open spec fn code_of(b: u8) -> Option<u8> {
    if b == 65 {
        Some(1u8)
    } else if b == 67 {
        Some(2u8)
    } else if b == 71 {
        Some(3u8)
    } else if b == 84 {
        Some(4u8)
    } else {
        None
    }
}

/// Every byte of `s` is a body symbol.
pub open spec fn all_valid(s: Seq<u8>) -> bool {
    forall|i: int| 0 <= i < s.len() ==> (#[trigger] code_of(s[i])) is Some
}

/// The codes of the bytes of `s`, which must all be body symbols.
pub open spec fn remapped(s: Seq<u8>) -> Seq<u8> {
    s.map_values(|b: u8| code_of(b)->0)
}

/// A sequence of codes over the alphabet.
pub open spec fn over_alphabet(s: Seq<u8>) -> bool {
    forall|i: int| 0 <= i < s.len() ==> (#[trigger] s[i]) < SIGMA
}

/// A body of non-sentinel codes.
pub open spec fn is_body(s: Seq<u8>) -> bool {
    forall|i: int| 0 <= i < s.len() ==> 1 <= #[trigger] s[i] < SIGMA
}

/// Relies on num::cast: the value when the target type can represent it.
#[verifier::external_body]
fn narrow_code(p: usize) -> (r: Option<u8>)
    ensures
        r == (if p < 256 { Some(p as u8) } else { None::<u8> }),
{
    num::cast::<usize, u8>(p)
}

/// Position of byte `b` among the body symbols of the alphabet.
fn code_for(b: u8) -> (r: Option<u8>)
    ensures
        r == code_of(b),
{
    let mut p: usize = 1;
    while p < SIGMA
        invariant
            1 <= p <= SIGMA,
            forall|j: int| 1 <= j < p ==> ALPHABET[j] as u32 != b as u32,
        decreases SIGMA - p,
    {
        if ALPHABET[p] as u32 == b as u32 {
            return narrow_code(p);
        }
        p = p + 1;
    }
    None
}

/// Maps a query to codes; no sentinel is appended.
pub fn remap_query(s: &str) -> (r: Result<Vec<u8>, FmError>)
    ensures
        match r {
            Ok(v) => all_valid(s.spec_bytes()) && v@ == remapped(s.spec_bytes()),
            Err(e) => !all_valid(s.spec_bytes()) && e == FmError::InvalidSymbol,
        },
{
    let bytes = s.as_bytes();
    let mut out: Vec<u8> = Vec::new();
    let mut i: usize = 0;
    while i < bytes.len()
        invariant
            bytes@ == s.spec_bytes(),
            i <= bytes.len(),
            out@ == remapped(bytes@.take(i as int)),
            all_valid(bytes@.take(i as int)),
        decreases bytes.len() - i,
    {
        match code_for(bytes[i]) {
            Some(c) => {
                out.push(c);
                assert(bytes@.take(i + 1) == bytes@.take(i as int).push(bytes@[i as int]));
                i = i + 1;
            },
            None => {
                return Err(FmError::InvalidSymbol);
            },
        }
    }
    assert(bytes@.take(i as int) == bytes@);
    Ok(out)
}

/// Maps a reference to codes and appends the sentinel.
pub fn remap_reference(s: &str) -> (r: Result<Vec<u8>, FmError>)
    ensures
        match r {
            Ok(v) => all_valid(s.spec_bytes()) && s.spec_bytes().len() > 0 && v@ == remapped(
                s.spec_bytes(),
            ).push(0u8),
            Err(e) => (!all_valid(s.spec_bytes()) && e == FmError::InvalidSymbol) || (all_valid(
                s.spec_bytes(),
            ) && s.spec_bytes().len() == 0 && e == FmError::EmptyReference),
        },
{
    let mut v = remap_query(s)?;
    if v.len() == 0 {
        return Err(FmError::EmptyReference);
    }
    v.push(0);
    Ok(v)
}


/// The position before `p` in the cyclic reference of length `n`.
pub open spec fn cyclic_pred(n: int, p: int) -> int {
    if p == 0 {
        n - 1
    } else {
        p - 1
    }
}

/// BWT[i] = R[(SA[i] - 1) mod n].
pub open spec fn bwt_at(s: Seq<u8>, sa: Seq<usize>, i: int) -> u8 {
    s[cyclic_pred(s.len() as int, sa[i] as int)]
}

/// Occ(a, i): occurrences of `a` in BWT[0..i).
pub open spec fn occ(s: Seq<u8>, sa: Seq<usize>, a: u8, i: int) -> nat
    decreases i,
{
    if i <= 0 {
        0
    } else {
        occ(s, sa, a, i - 1) + if bwt_at(s, sa, i - 1) == a {
            1nat
        } else {
            0nat
        }
    }
}

/// Occurrences of `a` in s[0..i).
pub open spec fn count_sym(s: Seq<u8>, a: u8, i: int) -> nat
    decreases i,
{
    if i <= 0 {
        0
    } else {
        count_sym(s, a, i - 1) + if s[i - 1] == a {
            1nat
        } else {
            0nat
        }
    }
}

/// The sentinel occurs exactly once in `s`.
pub open spec fn single_sentinel(s: Seq<u8>) -> bool {
    exists|p: int| 0 <= p < s.len() && s[p] == 0 && forall|j: int| 0 <= j < s.len() && s[j] == 0 ==> j == p
}

/// A reference and a permutation of its positions, the input of the rank tables.
pub open spec fn valid_text(s: Seq<u8>, sa: Seq<usize>) -> bool {
    &&& s.len() >= 1
    &&& over_alphabet(s)
    &&& single_sentinel(s)
    &&& is_permutation(sa, s.len() as int)
}

pub proof fn lemma_occ_monotone(s: Seq<u8>, sa: Seq<usize>, a: u8, i: int, j: int)
    requires
        i <= j,
    ensures
        occ(s, sa, a, i) <= occ(s, sa, a, j),
    decreases j - i,
{
    if i < j {
        lemma_occ_monotone(s, sa, a, i, j - 1);
    }
}

pub proof fn lemma_occ_step(s: Seq<u8>, sa: Seq<usize>, a: u8, i: int)
    requires
        0 <= i,
    ensures
        occ(s, sa, a, i) <= i,
    decreases i,
{
    if i > 0 {
        lemma_occ_step(s, sa, a, i - 1);
    }
}

pub open spec fn occ_set(s: Seq<u8>, sa: Seq<usize>, a: u8, i: int) -> Set<int> {
    Set::new(|k: int| 0 <= k < i && bwt_at(s, sa, k) == a)
}

spec fn count_set(s: Seq<u8>, a: u8, i: int) -> Set<int> {
    Set::new(|k: int| 0 <= k < i && s[k] == a)
}

pub proof fn lemma_occ_set(s: Seq<u8>, sa: Seq<usize>, a: u8, i: int)
    requires
        0 <= i,
    ensures
        occ_set(s, sa, a, i).finite(),
        occ_set(s, sa, a, i).len() == occ(s, sa, a, i),
    decreases i,
{
    if i == 0 {
        assert(occ_set(s, sa, a, i) =~= Set::empty());
    } else {
        lemma_occ_set(s, sa, a, i - 1);
        if bwt_at(s, sa, i - 1) == a {
            assert(occ_set(s, sa, a, i) =~= occ_set(s, sa, a, i - 1).insert(i - 1));
        } else {
            assert(occ_set(s, sa, a, i) =~= occ_set(s, sa, a, i - 1));
        }
    }
}

proof fn lemma_count_set(s: Seq<u8>, a: u8, i: int)
    requires
        0 <= i,
    ensures
        count_set(s, a, i).finite(),
        count_set(s, a, i).len() == count_sym(s, a, i),
    decreases i,
{
    if i == 0 {
        assert(count_set(s, a, i) =~= Set::empty());
    } else {
        lemma_count_set(s, a, i - 1);
        if s[i - 1] == a {
            assert(count_set(s, a, i) =~= count_set(s, a, i - 1).insert(i - 1));
        } else {
            assert(count_set(s, a, i) =~= count_set(s, a, i - 1));
        }
    }
}

/// The BWT holds a symbol at most as often as the reference does.
pub proof fn lemma_occ_total(s: Seq<u8>, sa: Seq<usize>, a: u8)
    requires
        s.len() >= 1,
        is_permutation(sa, s.len() as int),
    ensures
        occ(s, sa, a, s.len() as int) <= count_sym(s, a, s.len() as int),
{
    let n = s.len() as int;
    let f = |k: int| cyclic_pred(n, sa[k] as int);
    let x = occ_set(s, sa, a, n);
    let y = x.map(f);
    lemma_occ_set(s, sa, a, n);
    lemma_count_set(s, a, n);
    assert(injective_on(f, x)) by {
        assert forall|k1: int, k2: int| x.contains(k1) && x.contains(k2) && #[trigger] f(k1) == #[trigger] f(k2) implies k1 == k2 by {
            assert(sa[k1] < n && sa[k2] < n);
        }
    }
    lemma_map_size(x, y, f);
    assert(y.subset_of(count_set(s, a, n))) by {
        assert forall|j: int| y.contains(j) implies count_set(s, a, n).contains(j) by {
            let k = choose|k: int| x.contains(k) && f(k) == j;
            assert(sa[k] < n);
        }
    }
    lemma_len_subset(y, count_set(s, a, n));
}

/// Over the whole BWT, Occ(a, n) is the number of occurrences of `a` in the
/// reference: the BWT is a rearrangement of the reference.
pub proof fn lemma_occ_total_exact(s: Seq<u8>, sa: Seq<usize>, a: u8)
    requires
        s.len() >= 1,
        is_permutation(sa, s.len() as int),
    ensures
        occ(s, sa, a, s.len() as int) == count_sym(s, a, s.len() as int),
{
    let n = s.len() as int;
    let f = |k: int| cyclic_pred(n, sa[k] as int);
    let x = occ_set(s, sa, a, n);
    let y = x.map(f);
    lemma_occ_set(s, sa, a, n);
    lemma_count_set(s, a, n);
    assert(injective_on(f, x)) by {
        assert forall|k1: int, k2: int| x.contains(k1) && x.contains(k2) && #[trigger] f(k1) == #[trigger] f(k2) implies k1 == k2 by {
            assert(sa[k1] < n && sa[k2] < n);
        }
    }
    lemma_map_size(x, y, f);
    assert(y =~= count_set(s, a, n)) by {
        assert forall|j: int| y.contains(j) implies count_set(s, a, n).contains(j) by {
            let k = choose|k: int| x.contains(k) && f(k) == j;
            assert(sa[k] < n);
        }
        assert forall|j: int| count_set(s, a, n).contains(j) implies y.contains(j) by {
            let target = if j == n - 1 {
                0
            } else {
                j + 1
            };
            crate::suffix_array_construction::lemma_permutation_onto(sa, n, target);
            let k = choose|k: int| 0 <= k < n && sa[k] == target;
            assert(f(k) == j);
            assert(bwt_at(s, sa, k) == a);
            assert(x.contains(k));
        }
    }
}

/// The sentinel sits at one place of the BWT at most.
pub proof fn lemma_bwt_sentinel_unique(s: Seq<u8>, sa: Seq<usize>, k1: int, k2: int)
    requires
        valid_text(s, sa),
        0 <= k1 < s.len(),
        0 <= k2 < s.len(),
        bwt_at(s, sa, k1) == 0,
        bwt_at(s, sa, k2) == 0,
    ensures
        k1 == k2,
{
    let n = s.len() as int;
    let p = choose|p: int| 0 <= p < n && s[p] == 0 && forall|j: int| 0 <= j < n && s[j] == 0 ==> j == p;
    assert(sa[k1] < n && sa[k2] < n);
    assert(cyclic_pred(n, sa[k1] as int) == p);
    assert(cyclic_pred(n, sa[k2] as int) == p);
}

/// BWT[i] of the reference `x` under the suffix array `sa`.
pub fn bwt(x: &[u8], sa: &[usize], i: usize) -> (r: u8)
    requires
        i < sa.len(),
        sa[i as int] < x.len(),
    ensures
        r == bwt_at(x@, sa@, i as int),
{
    let x_index = sa[i];
    if x_index == 0 {
        x[x.len() - 1]
    } else {
        x[x_index - 1]
    }
}

/// The character of a code.
pub open spec fn symbol_char(c: u8) -> char {
    if c == 0 {
        '$'
    } else if c == 1 {
        'A'
    } else if c == 2 {
        'C'
    } else if c == 3 {
        'G'
    } else {
        'T'
    }
}

/// The characters of the rotation of `x` that starts at `p`.
pub open spec fn rotation_chars(x: Seq<u8>, p: int) -> Seq<char> {
    Seq::new(x.len(), |k: int| symbol_char(x[(p + k) % (x.len() as int)]))
}

fn symbol_str(c: u8) -> (r: &'static str)
    requires
        c < SIGMA,
    ensures
        r@ == seq![symbol_char(c)],
{
    if c == 0 {
        proof {
            reveal_strlit("$");
        }
        "$"
    } else if c == 1 {
        proof {
            reveal_strlit("A");
        }
        "A"
    } else if c == 2 {
        proof {
            reveal_strlit("C");
        }
        "C"
    } else if c == 3 {
        proof {
            reveal_strlit("G");
        }
        "G"
    } else {
        proof {
            reveal_strlit("T");
        }
        "T"
    }
}

/// Gets the i'th row of the Burrows-Wheeler matrix of the reference `x`:
/// the rotation that starts at SA[i].
pub fn bwm(x: &[u8], i: usize) -> (r: String)
    requires
        is_reference(x@),
        i < x.len(),
    ensures
        forall|sa: Seq<usize>| is_suffix_array(x@, sa) ==> r@ == rotation_chars(x@, sa[i as int] as int),
{
    let n = x.len();
    let sa = construct_suffix_array_naive(x);
    let p = sa[i];
    let mut res = String::new();
    let mut k: usize = 0;
    while k < n
        invariant
            n == x.len(),
            is_reference(x@),
            p < n,
            k <= n,
            res@ == rotation_chars(x@, p as int).take(k as int),
        decreases n - k,
    {
        let pos = if k < n - p {
            p + k
        } else {
            k - (n - p)
        };
        proof {
            if k < n - p {
                vstd::arithmetic::div_mod::lemma_fundamental_div_mod_converse((p + k) as int, n as int, 0, pos as int);
            } else {
                vstd::arithmetic::div_mod::lemma_fundamental_div_mod_converse((p + k) as int, n as int, 1, pos as int);
            }
        }
        assert(pos == (p + k) % (n as int));
        assert(x@[pos as int] < SIGMA);
        let piece = symbol_str(x[pos]);
        res = res.concat(piece);
        assert(rotation_chars(x@, p as int).take(k + 1) =~= rotation_chars(x@, p as int).take(k as int).push(
            symbol_char(x@[pos as int]),
        ));
        k = k + 1;
    }
    proof {
        assert(rotation_chars(x@, p as int).take(n as int) =~= rotation_chars(x@, p as int));
        assert forall|other: Seq<usize>| is_suffix_array(x@, other) implies res@ == rotation_chars(x@, other[i as int] as int) by {
            crate::suffix_array_construction::lemma_suffix_array_unique(x@, sa@, other);
        }
    }
    res
}

} // verus!
