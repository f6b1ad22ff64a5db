//! Embedding blob codec: a vector of 32-bit words (the bit patterns of the
//! embedding's components) laid out as little-endian bytes, four per word,
//! and read back. Durable rows store embeddings in this form.
use vstd::prelude::*;

verus! {

/// The four little-endian bytes of one 32-bit word.
pub open spec fn le_bytes_of_word(w: u32) -> Seq<u8> {
    seq![
        (w & 0xff) as u8,
        ((w >> 8) & 0xff) as u8,
        ((w >> 16) & 0xff) as u8,
        ((w >> 24) & 0xff) as u8,
    ]
}

/// The little-endian byte serialization of a word vector.
pub open spec fn blob_of(v: Seq<u32>) -> Seq<u8>
    decreases v.len(),
{
    if v.len() == 0 {
        Seq::empty()
    } else {
        le_bytes_of_word(v[0]) + blob_of(v.skip(1))
    }
}

/// The word assembled from four little-endian bytes.
pub open spec fn word_of_le(b0: u8, b1: u8, b2: u8, b3: u8) -> u32 {
    (b0 as u32) | ((b1 as u32) << 8) | ((b2 as u32) << 16) | ((b3 as u32) << 24)
}

/// The words read from a byte sequence, four bytes at a time; a trailing
/// fragment shorter than four bytes is dropped.
pub open spec fn words_of(b: Seq<u8>) -> Seq<u32>
    decreases b.len(),
{
    if b.len() < 4 {
        Seq::empty()
    } else {
        seq![word_of_le(b[0], b[1], b[2], b[3])] + words_of(b.skip(4))
    }
}

pub proof fn lemma_blob_len(v: Seq<u32>)
    ensures
        blob_of(v).len() == 4 * v.len(),
    decreases v.len(),
{
    if v.len() > 0 {
        lemma_blob_len(v.skip(1));
    }
}

/// Reading back an encoded word vector yields the vector: the codec is a
/// bijection onto 4-byte-aligned blobs.
pub proof fn lemma_blob_round_trip(v: Seq<u32>)
    ensures
        words_of(blob_of(v)) == v,
    decreases v.len(),
{
    if v.len() > 0 {
        let w = v[0];
        let head = le_bytes_of_word(w);
        let rest = blob_of(v.skip(1));
        lemma_blob_len(v.skip(1));
        assert(blob_of(v) == head + rest);
        assert(blob_of(v).len() >= 4);
        assert(blob_of(v)[0] == head[0] && blob_of(v)[1] == head[1] && blob_of(v)[2] == head[2]
            && blob_of(v)[3] == head[3]);
        assert(word_of_le(
            (w & 0xff) as u8,
            ((w >> 8) & 0xff) as u8,
            ((w >> 16) & 0xff) as u8,
            ((w >> 24) & 0xff) as u8,
        ) == w) by (bit_vector);
        assert(blob_of(v).skip(4) =~= rest);
        lemma_blob_round_trip(v.skip(1));
        assert(words_of(blob_of(v)) =~= v);
    }
}

/// Serialize an embedding's words as little-endian bytes.
pub fn embedding_blob_encode(v: &[u32]) -> (r: Vec<u8>)
    ensures
        r@ == blob_of(v@),
        r@.len() == 4 * v@.len(),
    decreases v@.len(),
{
    proof {
        lemma_blob_len(v@);
    }
    let mut r: Vec<u8> = Vec::new();
    if v.len() == 0 {
        proof {
            assert(r@ =~= blob_of(v@));
        }
        return r;
    }
    let w = v[0];
    r.push((w & 0xff) as u8);
    r.push(((w >> 8) & 0xff) as u8);
    r.push(((w >> 16) & 0xff) as u8);
    r.push(((w >> 24) & 0xff) as u8);
    let rest = word_slice_tail(v, 1);
    let mut tail = embedding_blob_encode(rest);
    r.append(&mut tail);
    proof {
        assert(r@ =~= le_bytes_of_word(v@[0]) + blob_of(v@.skip(1)));
    }
    r
}

/// Read an embedding back from its little-endian byte serialization.
pub fn embedding_blob_decode(b: &[u8]) -> (r: Vec<u32>)
    ensures
        r@ == words_of(b@),
    decreases b@.len(),
{
    let mut r: Vec<u32> = Vec::new();
    if b.len() < 4 {
        proof {
            assert(r@ =~= words_of(b@));
        }
        return r;
    }
    let w = (b[0] as u32) | ((b[1] as u32) << 8) | ((b[2] as u32) << 16) | ((b[3] as u32) << 24);
    r.push(w);
    let rest = byte_slice_tail(b, 4);
    let mut tail = embedding_blob_decode(rest);
    r.append(&mut tail);
    proof {
        assert(r@ =~= seq![word_of_le(b@[0], b@[1], b@[2], b@[3])] + words_of(b@.skip(4)));
    }
    r
}

/// The subslice of `v` from `k` to the end.
fn word_slice_tail(v: &[u32], k: usize) -> (r: &[u32])
    requires
        k <= v@.len(),
    ensures
        r@ == v@.skip(k as int),
{
    let r = vstd::slice::slice_subrange(v, k, v.len());
    proof {
        assert(r@ =~= v@.skip(k as int));
    }
    r
}

/// The subslice of `b` from `k` to the end.
fn byte_slice_tail(b: &[u8], k: usize) -> (r: &[u8])
    requires
        k <= b@.len(),
    ensures
        r@ == b@.skip(k as int),
{
    let r = vstd::slice::slice_subrange(b, k, b.len());
    proof {
        assert(r@ =~= b@.skip(k as int));
    }
    r
}

} // verus!
