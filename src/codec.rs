//! Word-list encoding of persisted tables, through bincode.

use vstd::prelude::*;

verus! {

/// The eight little-endian bytes of `x`.
pub open spec fn le_bytes(x: u64) -> Seq<u8> {
    seq![
        x as u8,
        (x >> 8u64) as u8,
        (x >> 16u64) as u8,
        (x >> 24u64) as u8,
        (x >> 32u64) as u8,
        (x >> 40u64) as u8,
        (x >> 48u64) as u8,
        (x >> 56u64) as u8,
    ]
}

/// The number whose little-endian bytes are b0..b7.
pub open spec fn from_le(b0: u8, b1: u8, b2: u8, b3: u8, b4: u8, b5: u8, b6: u8, b7: u8) -> u64 {
    (b0 as u64) | ((b1 as u64) << 8u64) | ((b2 as u64) << 16u64) | ((b3 as u64) << 24u64) | ((b4 as u64)
        << 32u64) | ((b5 as u64) << 40u64) | ((b6 as u64) << 48u64) | ((b7 as u64) << 56u64)
}

/// The number held by the first eight bytes of `b`, little-endian.
pub open spec fn le_value(b: Seq<u8>) -> u64 {
    from_le(b[0], b[1], b[2], b[3], b[4], b[5], b[6], b[7])
}

/// The words of `v`, eight little-endian bytes each.
pub open spec fn words_body(v: Seq<u64>) -> Seq<u8>
    decreases v.len(),
{
    if v.len() == 0 {
        Seq::empty()
    } else {
        le_bytes(v[0]) + words_body(v.drop_first())
    }
}

/// The encoding of a list of words: its length as a word, then the words.
pub open spec fn words_bytes(v: Seq<u64>) -> Seq<u8> {
    le_bytes(v.len() as u64) + words_body(v)
}

/// Relies on bincode::serialize (fixed-width little-endian integers): a
/// `Vec<u64>` becomes its length as a u64, then each element as a u64; with
/// no size limit this serialization has no error path.
#[verifier::external_body]
pub(crate) fn encode_words(v: &Vec<u64>) -> (r: Option<Vec<u8>>)
    ensures
        r is Some,
        r matches Some(b) ==> b@ == words_bytes(v@),
{
    bincode::serialize(v).ok()
}

/// Relies on bincode::deserialize (fixed-width little-endian integers,
/// trailing bytes allowed): it reads a length word and that many words, and
/// succeeds whenever the bytes hold them.
#[verifier::external_body]
pub(crate) fn decode_words(b: &[u8]) -> (r: Option<Vec<u64>>)
    ensures
        r matches Some(v) ==> words_bytes(v@).len() <= b@.len() && words_bytes(v@) =~= b@.take(
            words_bytes(v@).len() as int,
        ),
        b@.len() >= 8 && b@.len() - 8 >= 8 * le_value(b@) ==> r is Some,
{
    bincode::deserialize::<Vec<u64>>(b).ok()
}

pub proof fn lemma_le_round_trip(x: u64)
    ensures
        le_value(le_bytes(x)) == x,
{
    assert(from_le(
        x as u8,
        (x >> 8u64) as u8,
        (x >> 16u64) as u8,
        (x >> 24u64) as u8,
        (x >> 32u64) as u8,
        (x >> 40u64) as u8,
        (x >> 48u64) as u8,
        (x >> 56u64) as u8,
    ) == x) by (bit_vector);
}

proof fn lemma_words_body_len(v: Seq<u64>)
    ensures
        words_body(v).len() == 8 * v.len(),
    decreases v.len(),
{
    if v.len() > 0 {
        lemma_words_body_len(v.drop_first());
    }
}

proof fn lemma_words_body_injective(v: Seq<u64>, w: Seq<u64>)
    requires
        v.len() == w.len(),
        words_body(v) == words_body(w),
    ensures
        v == w,
    decreases v.len(),
{
    if v.len() > 0 {
        lemma_words_body_len(v.drop_first());
        lemma_words_body_len(w.drop_first());
        let bv = words_body(v);
        assert(bv.take(8) =~= le_bytes(v[0]));
        assert(bv.take(8) =~= le_bytes(w[0]));
        lemma_le_round_trip(v[0]);
        lemma_le_round_trip(w[0]);
        assert(bv.skip(8) =~= words_body(v.drop_first()));
        assert(words_body(w).skip(8) =~= words_body(w.drop_first()));
        lemma_words_body_injective(v.drop_first(), w.drop_first());
        assert(v =~= w) by {
            assert forall|i: int| 0 <= i < v.len() implies v[i] == w[i] by {
                if i > 0 {
                    assert(v[i] == v.drop_first()[i - 1]);
                    assert(w[i] == w.drop_first()[i - 1]);
                }
            }
        }
    }
}

/// Decoding the encoding of a list of words gives the list back.
pub proof fn lemma_words_round_trip(v: Seq<u64>, w: Seq<u64>)
    requires
        v.len() <= u64::MAX,
        w.len() <= u64::MAX,
        words_bytes(w).len() <= words_bytes(v).len(),
        words_bytes(w) =~= words_bytes(v).take(words_bytes(w).len() as int),
    ensures
        w == v,
        words_bytes(v).len() >= 8 && words_bytes(v).len() - 8 >= 8 * le_value(words_bytes(v)),
{
    let bv = words_bytes(v);
    let bw = words_bytes(w);
    lemma_words_body_len(v);
    lemma_words_body_len(w);
    assert(bv.take(8) =~= le_bytes(v.len() as u64));
    assert(bw.take(8) =~= le_bytes(w.len() as u64));
    assert(bw.len() >= 8);
    assert forall|i: int| 0 <= i < 8 implies bw[i] == bv[i] by {
        assert(bw[i] == bv.take(bw.len() as int)[i]);
    }
    assert(bw.take(8) =~= bv.take(8));
    lemma_le_round_trip(v.len() as u64);
    lemma_le_round_trip(w.len() as u64);
    assert(le_value(bv) == le_value(bv.take(8)));
    assert(le_value(bw) == le_value(bw.take(8)));
    assert(w.len() == v.len());
    assert(bw =~= bv);
    assert(words_body(w) =~= bw.skip(8));
    assert(words_body(v) =~= bv.skip(8));
    lemma_words_body_injective(v, w);
}

} // verus!
