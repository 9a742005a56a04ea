//! The sampled O-table and its persisted form.

use vstd::prelude::*;
use vstd::arithmetic::div_mod::{
    lemma_div_is_ordered, lemma_fundamental_div_mod, lemma_fundamental_div_mod_converse,
};
use crate::codec::{encode_words, words_bytes};
use crate::util::{FmError, 
    bwt, bwt_at, lemma_bwt_sentinel_unique, lemma_occ_monotone, lemma_occ_step, occ, valid_text, ALPHABET, SIGMA,
};

verus! {

/// The sampled rank index. For each non-sentinel symbol `a` it stores
/// Occ(a, q·S) for every sample q; lookups between samples scan the BWT,
/// which is read through the reference and its suffix array. The sentinel
/// row is kept as one number: the first i with Occ($, i) = 1.
pub struct OTable<'a> {
    array: Vec<usize>,
    stride: usize,
    spacing: usize,
    sentinel: usize,
    string: &'a [u8],
    suffix_array: &'a [usize],
}

proof fn lemma_row_index(a: int, stride: int, q: int)
    requires
        0 <= a < 4,
        0 <= q < stride,
    ensures
        0 <= a * stride + q < 4 * stride,
        a * stride + q < (a + 1) * stride,
{
    assert(a * stride + q < (a + 1) * stride) by (nonlinear_arith)
        requires
            0 <= q < stride,
    ;
    assert((a + 1) * stride <= 4 * stride) by (nonlinear_arith)
        requires
            a + 1 <= 4,
            stride > 0,
    ;
    assert(0 <= a * stride) by (nonlinear_arith)
        requires
            0 <= a,
            stride > 0,
    ;
}

proof fn lemma_rows_disjoint(a1: int, a2: int, stride: int, q1: int, q2: int)
    requires
        0 <= a1 < 4,
        0 <= a2 < 4,
        0 <= q1 < stride,
        0 <= q2 < stride,
        a1 != a2 || q1 != q2,
    ensures
        a1 * stride + q1 != a2 * stride + q2,
{
    if a1 < a2 {
        lemma_row_index(a1, stride, q1);
        assert((a1 + 1) * stride <= a2 * stride) by (nonlinear_arith)
            requires
                a1 + 1 <= a2,
                stride > 0,
        ;
    } else if a2 < a1 {
        lemma_row_index(a2, stride, q2);
        assert((a2 + 1) * stride <= a1 * stride) by (nonlinear_arith)
            requires
                a2 + 1 <= a1,
                stride > 0,
        ;
    }
}

/// Format version of a persisted O-table.
pub const OTABLE_VERSION: u64 = 1;

/// The stored count of row `a` at sample `q`.
spec fn stored(array: Seq<usize>, stride: int, a: int, q: int) -> usize {
    array[(a - 1) * stride + q]
}

impl<'a> OTable<'a> {
    /// The reference the table indexes.
    pub closed spec fn text(&self) -> Seq<u8> {
        self.string@
    }

    /// The suffix array of the reference.
    pub closed spec fn sa(&self) -> Seq<usize> {
        self.suffix_array@
    }

    /// The sample period S.
    pub closed spec fn period(&self) -> nat {
        self.spacing as nat
    }


    /// Shape and contents agree with the reference and its suffix array.
    pub closed spec fn wf(&self) -> bool {
        let n = self.string@.len() as int;
        &&& valid_text(self.string@, self.suffix_array@)
        &&& n <= usize::MAX / 8
        &&& self.spacing >= 1
        &&& self.stride == n / (self.spacing as int) + 1
        &&& self.array@.len() == 4 * self.stride
        &&& forall|a: int, q: int|
            1 <= a < SIGMA && 0 <= q < self.stride ==> #[trigger] stored(self.array@, self.stride as int, a, q) == occ(
                self.string@,
                self.suffix_array@,
                a as u8,
                q * self.spacing,
            )
        &&& 1 <= self.sentinel <= n + 1
        &&& forall|i: int|
            0 <= i <= n ==> #[trigger] occ(self.string@, self.suffix_array@, 0u8, i) == if i
                >= self.sentinel {
                1nat
            } else {
                0nat
            }
    }

    /// The shape of the table agrees with the reference and the period; the
    /// stored counts are not constrained.
    pub closed spec fn fits(&self) -> bool {
        let n = self.string@.len() as int;
        &&& valid_text(self.string@, self.suffix_array@)
        &&& n <= usize::MAX / 8
        &&& self.spacing >= 1
        &&& self.stride == n / (self.spacing as int) + 1
        &&& self.array@.len() == 4 * self.stride
        &&& 1 <= self.sentinel <= n + 1
    }

    /// The words that persist the table: version, n, number of symbols,
    /// period, sentinel position, then the samples row by row.
    pub closed spec fn blob(&self) -> Seq<u64> {
        seq![
            OTABLE_VERSION,
            self.string@.len() as u64,
            SIGMA as u64,
            self.spacing as u64,
            self.sentinel as u64,
        ] + self.array@.map_values(|x: usize| x as u64)
    }

    /// A well-formed table indexes a valid reference of addressable size.
    pub proof fn lemma_wf_text(&self)
        requires
            self.wf(),
        ensures
            valid_text(self.text(), self.sa()),
            self.text().len() <= usize::MAX / 8,
            self.period() >= 1,
    {
    }

    /// Allocate and fill an O-table with sample period `spacing`.
    pub fn new(string: &'a [u8], suffix_array: &'a [usize], spacing: usize) -> (r: Self)
        requires
            valid_text(string@, suffix_array@),
            string.len() <= usize::MAX / 8,
            spacing >= 1,
        ensures
            r.wf(),
            r.text() == string@,
            r.sa() == suffix_array@,
            r.period() == spacing,
    {
        let n = string.len();
        let stride = n / spacing + 1;
        let mut o_table = OTable {
            array: vec![0; 4 * stride],
            stride,
            spacing,
            sentinel: n + 1,
            string,
            suffix_array,
        };
        let ghost s = string@;
        let ghost sa = suffix_array@;
        let mut counter: Vec<usize> = vec![0; 5];
        let mut q: usize = 1;
        let mut rem: usize = spacing;
        let mut i: usize = 0;
        proof {
            lemma_fundamental_div_mod(n as int, spacing as int);
            assert forall|a: int, qq: int| 1 <= a < SIGMA && 0 <= qq < 1 implies #[trigger] stored(o_table.array@, o_table.stride as int, 
                a,
                qq,
            ) == occ(s, sa, a as u8, qq * spacing) by {
                lemma_row_index(a - 1, stride as int, qq);
            }
        }
        while i < n
            invariant
                s == string@,
                sa == suffix_array@,
                n == s.len(),
                o_table.string@ == s,
                o_table.suffix_array@ == sa,
                valid_text(s, sa),
                n <= usize::MAX / 8,
                spacing >= 1,
                o_table.spacing == spacing,
                o_table.stride == stride,
                stride <= n + 1,
                stride == (n as int) / (spacing as int) + 1,
                o_table.array@.len() == 4 * stride,
                i <= n,
                counter.len() == SIGMA,
                forall|a: int| 0 <= a < SIGMA ==> #[trigger] counter@[a] == occ(s, sa, a as u8, i as int),
                1 <= q <= stride,
                1 <= rem <= spacing,
                i + rem == q * spacing,
                forall|a: int, qq: int|
                    1 <= a < SIGMA && 0 <= qq < q ==> #[trigger] stored(o_table.array@, o_table.stride as int, a, qq) == occ(
                        s,
                        sa,
                        a as u8,
                        qq * spacing,
                    ),
                1 <= o_table.sentinel <= n + 1,
                o_table.sentinel <= i || o_table.sentinel == n + 1,
                o_table.sentinel <= i ==> bwt_at(s, sa, o_table.sentinel - 1) == 0,
                forall|j: int|
                    0 <= j <= i ==> #[trigger] occ(s, sa, 0u8, j) == if j >= o_table.sentinel {
                        1nat
                    } else {
                        0nat
                    },
            decreases n - i,
        {
            let c = bwt(string, suffix_array, i);
            proof {
                assert(sa[i as int] < n);
                lemma_occ_step(s, sa, c, i as int);
                if c == 0 && o_table.sentinel <= i {
                    lemma_bwt_sentinel_unique(s, sa, i as int, o_table.sentinel - 1);
                }
            }
            let ghost old_sent = o_table.sentinel;
            proof {
                if c == 0 {
                    assert(old_sent == n + 1);
                }
            }
            counter.set(c as usize, counter[c as usize] + 1);
            if c == 0 {
                o_table.sentinel = i + 1;
            }
            i = i + 1;
            assert forall|a: int| 0 <= a < SIGMA implies #[trigger] counter@[a] == occ(s, sa, a as u8, i as int) by {
                assert(bwt_at(s, sa, i - 1) == c);
            }
            assert forall|j: int| 0 <= j <= i implies #[trigger] occ(s, sa, 0u8, j) == if j >= o_table.sentinel {
                1nat
            } else {
                0nat
            } by {
                if j == i {
                    assert(bwt_at(s, sa, i - 1) == c);
                    assert(occ(s, sa, 0u8, j) == occ(s, sa, 0u8, j - 1) + if c == 0 {
                        1nat
                    } else {
                        0nat
                    });
                }
            }
            if rem == 1 {
                proof {
                    assert(i == q * spacing);
                    lemma_div_is_ordered(i as int, n as int, spacing as int);
                    lemma_fundamental_div_mod_converse(i as int, spacing as int, q as int, 0);
                }
                let ghost sent = o_table.sentinel;
                let mut a: usize = 1;
                while a < SIGMA
                    invariant
                        1 <= a <= SIGMA,
                        o_table.sentinel == sent,
                        s == string@,
                        sa == suffix_array@,
                        o_table.string@ == s,
                        o_table.suffix_array@ == sa,
                        o_table.spacing == spacing,
                        o_table.stride == stride,
                        o_table.array@.len() == 4 * stride,
                        1 <= q < stride,
                        stride <= n + 1,
                        n <= usize::MAX / 8,
                        i == q * spacing,
                        spacing >= 1,
                        (i as int) % (spacing as int) == 0,
                        (i as int) / (spacing as int) == q,
                        i <= n,
                        counter.len() == SIGMA,
                        forall|b: int| 0 <= b < SIGMA ==> #[trigger] counter@[b] == occ(s, sa, b as u8, i as int),
                        forall|b: int, qq: int|
                            1 <= b < SIGMA && 0 <= qq < q ==> #[trigger] stored(o_table.array@, o_table.stride as int, b, qq) == occ(
                                s,
                                sa,
                                b as u8,
                                qq * spacing,
                            ),
                        forall|b: int| 1 <= b < a ==> #[trigger] stored(o_table.array@, o_table.stride as int, b, q as int) == occ(
                            s,
                            sa,
                            b as u8,
                            q * spacing,
                        ),
                    decreases SIGMA - a,
                {
                    let ghost before = o_table;
                    o_table.set(a as u8, i, counter[a]);
                    proof {
                        assert(o_table.array@ == before.array@.update(
                            (a - 1) * stride + q,
                            counter@[a as int],
                        ));
                        lemma_row_index((a - 1) as int, stride as int, q as int);
                        assert forall|b: int, qq: int|
                            1 <= b < SIGMA && 0 <= qq < q implies #[trigger] stored(o_table.array@, o_table.stride as int, b, qq) == occ(
                            s,
                            sa,
                            b as u8,
                            qq * spacing,
                        ) by {
                            lemma_rows_disjoint(b - 1, (a - 1) as int, stride as int, qq, q as int);
                            lemma_row_index(b - 1, stride as int, qq);
                            assert(stored(o_table.array@, o_table.stride as int, b, qq) == stored(before.array@, before.stride as int, b, qq));
                        }
                        assert forall|b: int| 1 <= b < a + 1 implies #[trigger] stored(o_table.array@, o_table.stride as int, b, q as int)
                            == occ(s, sa, b as u8, q * spacing) by {
                            if b < a {
                                lemma_rows_disjoint(b - 1, (a - 1) as int, stride as int, q as int, q as int);
                                lemma_row_index(b - 1, stride as int, q as int);
                                assert(stored(o_table.array@, o_table.stride as int, b, q as int) == stored(before.array@, before.stride as int, b, q as int));
                            }
                        }
                    }
                    a = a + 1;
                }
                q = q + 1;
                rem = spacing;
                proof {
                    assert(i + rem == q * spacing) by (nonlinear_arith)
                        requires
                            i == (q - 1) * spacing,
                            rem == spacing,
                    ;
                }
            } else {
                rem = rem - 1;
            }
        }
        proof {
            assert((q - 1) * spacing == q * spacing - spacing) by (nonlinear_arith);
            lemma_fundamental_div_mod_converse(
                n as int,
                spacing as int,
                (q - 1) as int,
                (n - (q - 1) * spacing) as int,
            );
            assert((q - 1) * spacing == q * spacing - spacing) by (nonlinear_arith);
        }
        o_table
    }

    /// Index of the sample below `i` in row `a`, and how many BWT positions
    /// past that sample remain to be scanned.
    fn calc_index(&self, a: u8, i: usize) -> (r: (usize, usize))
        requires
            self.wf(),
            1 <= a < SIGMA,
            i <= self.text().len(),
        ensures
            r.0 == (a - 1) * self.stride + (i as int) / (self.spacing as int),
            r.0 < self.array@.len(),
            r.1 == (i as int) % (self.spacing as int),
            i - r.1 == ((i as int) / (self.spacing as int)) * self.spacing,
    {
        proof {
            lemma_div_is_ordered(i as int, self.string@.len() as int, self.spacing as int);
            lemma_row_index((a - 1) as int, self.stride as int, (i as int) / (self.spacing as int));
            lemma_fundamental_div_mod(i as int, self.spacing as int);
            assert(((i as int) / (self.spacing as int)) * self.spacing == self.spacing * ((i as int) / (self.spacing as int))) by (nonlinear_arith);
        }
        let row = a as usize - 1;
        assert(row * self.stride <= 4 * self.stride) by (nonlinear_arith)
            requires
                row < 4,
        ;
        let base = row * self.stride;
        (base + i / self.spacing, i % self.spacing)
    }

    /// (number of symbols, number of positions 0..=n).
    pub fn shape(&self) -> (r: (usize, usize))
        requires
            self.wf(),
        ensures
            r == (SIGMA, (self.text().len() + 1) as usize),
    {
        (ALPHABET.len(), self.string.len() + 1)
    }

    /// Occurrences of `character` in BWT[from..to).
    fn find_count(&self, from: usize, to: usize, character: u8) -> (r: usize)
        requires
            self.wf(),
            from <= to <= self.text().len(),
        ensures
            r == occ(self.text(), self.sa(), character, to as int) - occ(
                self.text(),
                self.sa(),
                character,
                from as int,
            ),
    {
        let ghost s = self.string@;
        let ghost sa = self.suffix_array@;
        let mut count: usize = 0;
        let mut i = from;
        proof {
            lemma_occ_monotone(s, sa, character, from as int, to as int);
        }
        while i < to
            invariant
                self.wf(),
                s == self.string@,
                sa == self.suffix_array@,
                from <= i <= to,
                to <= s.len(),
                count == occ(s, sa, character, i as int) - occ(s, sa, character, from as int),
            decreases to - i,
        {
            proof {
                assert(sa[i as int] < s.len());
                lemma_occ_monotone(s, sa, character, from as int, i as int);
                lemma_occ_step(s, sa, character, i as int);
            }
            if character == bwt(self.string, self.suffix_array, i) {
                count = count + 1;
            }
            i = i + 1;
        }
        count
    }

    /// Occ(a, i): occurrences of `a` in BWT[0..i).
    pub fn get(&self, a: u8, i: usize) -> (r: usize)
        requires
            self.wf(),
            a < SIGMA,
            i <= self.text().len(),
        ensures
            r == occ(self.text(), self.sa(), a, i as int),
    {
        if a == 0 {
            return if i >= self.sentinel {
                1
            } else {
                0
            };
        }
        let (idx, rest) = self.calc_index(a, i);
        proof {
            lemma_div_is_ordered(i as int, self.string@.len() as int, self.spacing as int);
            let q = (i as int) / (self.spacing as int);
            assert(stored(self.array@, self.stride as int, a as int, q) == occ(
                self.string@,
                self.suffix_array@,
                a,
                q * self.spacing,
            ));
            lemma_occ_step(self.string@, self.suffix_array@, a, i as int);
            lemma_occ_monotone(self.string@, self.suffix_array@, a, i - rest, i as int);
        }
        if rest == 0 {
            self.array[idx]
        } else {
            self.array[idx] + self.find_count(i - rest, i, a)
        }
    }

    /// Encodes the table as bytes; the reference and the suffix array are
    /// not part of it.
    pub fn to_bytes(&self) -> (r: Option<Vec<u8>>)
        requires
            self.wf(),
        ensures
            r is Some,
            r matches Some(b) ==> b@ == words_bytes(self.blob()),
    {
        let mut words: Vec<u64> = Vec::new();
        words.push(OTABLE_VERSION);
        words.push(self.string.len() as u64);
        words.push(SIGMA as u64);
        words.push(self.spacing as u64);
        words.push(self.sentinel as u64);
        let ghost head = words@;
        let mut k: usize = 0;
        while k < self.array.len()
            invariant
                k <= self.array.len(),
                words@ == head + self.array@.take(k as int).map_values(|x: usize| x as u64),
            decreases self.array.len() - k,
        {
            words.push(self.array[k] as u64);
            k = k + 1;
            assert(self.array@.take(k as int).map_values(|x: usize| x as u64) =~= self.array@.take(k - 1).map_values(
                |x: usize| x as u64,
            ).push(self.array@[k - 1] as u64));
        }
        assert(self.array@.take(k as int) =~= self.array@);
        assert(words@ =~= self.blob());
        encode_words(&words)
    }

    /// Reads a table for `string` and `suffix_array` with period `spacing`
    /// from bytes. The bytes are accepted only when they begin with the
    /// encoding of the table that these inputs determine (version, n, number
    /// of symbols, period, sentinel position and every sample); otherwise the
    /// result is `DecodeError`.
    pub fn from_bytes(
        bytes: &[u8],
        string: &'a [u8],
        suffix_array: &'a [usize],
        spacing: usize,
    ) -> (r: Result<Self, FmError>)
        requires
            valid_text(string@, suffix_array@),
            string.len() <= usize::MAX / 8,
            spacing >= 1,
        ensures
            match r {
                Ok(t) => t.wf() && t.text() == string@ && t.sa() == suffix_array@ && t.period() == spacing
                    && words_bytes(t.blob()) =~= bytes@.take(words_bytes(t.blob()).len() as int),
                Err(e) => e == FmError::DecodeError,
            },
            forall|t0: OTable|
                #![trigger t0.blob()]
                t0.wf() && t0.text() == string@ && t0.sa() == suffix_array@ && t0.period() == spacing && bytes@
                    == words_bytes(t0.blob()) ==> (r matches Ok(t) && t.blob() == t0.blob()),
    {
        let fresh = OTable::new(string, suffix_array, spacing);
        let expected = match fresh.to_bytes() {
            Some(b) => b,
            None => {
                return Err(FmError::DecodeError);
            },
        };
        proof {
            assert forall|t0: OTable|
                #![trigger t0.blob()]
                t0.wf() && t0.text() == string@ && t0.sa() == suffix_array@ && t0.period() == spacing
                    implies t0.blob() == fresh.blob() by {
                lemma_blob_unique(&fresh, &t0);
            }
        }
        if expected.len() > bytes.len() {
            return Err(FmError::DecodeError);
        }
        let mut k: usize = 0;
        while k < expected.len()
            invariant
                k <= expected.len() <= bytes.len(),
                forall|j: int| 0 <= j < k ==> bytes@[j] == expected@[j],
                expected@ == words_bytes(fresh.blob()),
                forall|t0: OTable|
                    #![trigger t0.blob()]
                    t0.wf() && t0.text() == string@ && t0.sa() == suffix_array@ && t0.period() == spacing
                        ==> t0.blob() == fresh.blob(),
            decreases expected.len() - k,
        {
            if bytes[k] != expected[k] {
                return Err(FmError::DecodeError);
            }
            k = k + 1;
        }
        assert(expected@ =~= bytes@.take(expected@.len() as int));
        Ok(fresh)
    }

    /// Writes a sample; `i` must lie on a sample boundary.
    fn set(&mut self, a: u8, i: usize, v: usize)
        requires
            1 <= a < SIGMA,
            old(self).spacing >= 1,
            (i as int) % (old(self).spacing as int) == 0,
            (i as int) / (old(self).spacing as int) < old(self).stride,
            old(self).array@.len() == 4 * old(self).stride,
            old(self).stride <= usize::MAX / 4,
        ensures
            final(self).array@ == old(self).array@.update(
                (a - 1) * old(self).stride + (i as int) / (old(self).spacing as int),
                v,
            ),
            final(self).stride == old(self).stride,
            final(self).spacing == old(self).spacing,
            final(self).sentinel == old(self).sentinel,
            final(self).string == old(self).string,
            final(self).suffix_array == old(self).suffix_array,
    {
        proof {
            lemma_row_index((a - 1) as int, self.stride as int, (i as int) / (self.spacing as int));
        }
        let row = a as usize - 1;
        assert(row * self.stride <= 4 * self.stride) by (nonlinear_arith)
            requires
                row < 4,
        ;
        let base = row * self.stride;
        let idx = base + i / self.spacing;
        self.array.set(idx, v);
    }
}

/// Persisting a well-formed table and reading it back yields a table that
/// answers every lookup as the first one does: a table of the same shape
/// with the same persisted words is well-formed and counts the same Occ.
pub proof fn lemma_reload_agrees(t: &OTable, t2: &OTable)
    requires
        t.wf(),
        t2.fits(),
        t2.text() == t.text(),
        t2.sa() == t.sa(),
        t2.period() == t.period(),
        t2.blob() == t.blob(),
    ensures
        t2.wf(),
        forall|a: u8, i: int| occ(t2.text(), t2.sa(), a, i) == occ(t.text(), t.sa(), a, i),
{
    let m1 = t.array@.map_values(|x: usize| x as u64);
    let m2 = t2.array@.map_values(|x: usize| x as u64);
    assert(t.blob().subrange(5, t.blob().len() as int) =~= m1);
    assert(t2.blob().subrange(5, t2.blob().len() as int) =~= m2);
    assert(t2.array@ =~= t.array@) by {
        assert forall|k: int| 0 <= k < t.array@.len() implies t2.array@[k] == t.array@[k] by {
            assert(m1[k] == m2[k]);
        }
    }
    assert(t.blob()[4] == t.sentinel as u64);
    assert(t2.blob()[4] == t2.sentinel as u64);
    assert(t2.sentinel == t.sentinel);
    assert(t2.stride == t.stride);
    assert(t2.string@ == t.string@);
    assert(t2.suffix_array@ == t.suffix_array@);
    assert(t2.spacing == t.spacing);
}

/// Two well-formed tables of the same reference, suffix array and period
/// persist the same words.
proof fn lemma_blob_unique(t1: &OTable, t2: &OTable)
    requires
        t1.wf(),
        t2.wf(),
        t1.text() == t2.text(),
        t1.sa() == t2.sa(),
        t1.period() == t2.period(),
    ensures
        t1.blob() == t2.blob(),
{
    let n = t1.string@.len() as int;
    let s = t1.string@;
    let sa = t1.suffix_array@;
    if t1.sentinel < t2.sentinel {
        assert(occ(s, sa, 0u8, t1.sentinel as int) == 1);
    } else if t2.sentinel < t1.sentinel {
        assert(occ(s, sa, 0u8, t2.sentinel as int) == 1);
    }
    assert(t1.stride == t2.stride);
    let stride = t1.stride as int;
    assert forall|idx: int| 0 <= idx < t1.array@.len() implies t1.array@[idx] == t2.array@[idx] by {
        lemma_fundamental_div_mod(idx, stride);
        let a = idx / stride + 1;
        let q = idx % stride;
        assert(0 <= idx / stride < 4) by (nonlinear_arith)
            requires
                0 <= idx < 4 * stride,
                stride > 0,
        ;
        assert(idx == (a - 1) * stride + q) by (nonlinear_arith)
            requires
                idx == stride * (idx / stride) + idx % stride,
                a == idx / stride + 1,
                q == idx % stride,
        ;
        assert(stored(t1.array@, stride, a, q) == occ(s, sa, a as u8, q * t1.spacing));
        assert(stored(t2.array@, stride, a, q) == occ(s, sa, a as u8, q * t2.spacing));
    }
    assert(t1.array@ =~= t2.array@);
    assert(t1.blob() =~= t2.blob());
}

} // verus!
