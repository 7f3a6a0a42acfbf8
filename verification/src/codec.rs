//! Binary codec for embedding vectors.
//!
//! An embedding vector of dimension `D` is persisted as exactly `4 * D`
//! bytes: each 32-bit word in order, little endian, with no header or length
//! prefix. A blob whose length is not a multiple of four is corrupt.

use vstd::prelude::*;
use vstd::bytes::{
    spec_u32_from_le_bytes, spec_u32_to_le_bytes, lemma_auto_spec_u32_to_from_le_bytes,
    u32_from_le_bytes, u32_to_le_bytes,
};
use vstd::slice::slice_subrange;
use crate::errors::DecodeError;

verus! {

/// The byte encoding of a sequence of 32-bit words: each word as four
/// little-endian bytes, in order.
pub open spec fn encode_words(ws: Seq<u32>) -> Seq<u8>
    decreases ws.len(),
{
    if ws.len() == 0 {
        Seq::empty()
    } else {
        spec_u32_to_le_bytes(ws.first()) + encode_words(ws.drop_first())
    }
}

/// The words read back from a byte sequence, four bytes at a time, little
/// endian. Meaningful when `bs.len()` is a multiple of four.
pub open spec fn decode_words(bs: Seq<u8>) -> Seq<u32>
    recommends
        bs.len() % 4 == 0,
    decreases bs.len(),
{
    if bs.len() < 4 {
        Seq::empty()
    } else {
        seq![spec_u32_from_le_bytes(bs.take(4))] + decode_words(bs.skip(4))
    }
}

/// An encoded vector occupies exactly four bytes per word.
pub proof fn lemma_encode_len(ws: Seq<u32>)
    ensures
        encode_words(ws).len() == 4 * ws.len(),
    decreases ws.len(),
{
    lemma_auto_spec_u32_to_from_le_bytes();
    if ws.len() > 0 {
        lemma_encode_len(ws.drop_first());
    }
}

/// Appending one word to a vector appends its four bytes to the encoding.
pub proof fn lemma_encode_push(ws: Seq<u32>, w: u32)
    ensures
        encode_words(ws.push(w)) == encode_words(ws) + spec_u32_to_le_bytes(w),
    decreases ws.len(),
{
    lemma_auto_spec_u32_to_from_le_bytes();
    if ws.len() == 0 {
        assert(ws.push(w).first() == w);
        assert(ws.push(w).drop_first() =~= Seq::<u32>::empty());
        assert(encode_words(ws.push(w)) =~= spec_u32_to_le_bytes(w) + encode_words(
            Seq::<u32>::empty(),
        ));
        assert(spec_u32_to_le_bytes(w) + encode_words(Seq::<u32>::empty())
            =~= spec_u32_to_le_bytes(w));
        assert(encode_words(ws) + spec_u32_to_le_bytes(w) =~= spec_u32_to_le_bytes(w));
    } else {
        assert(ws.push(w).drop_first() =~= ws.drop_first().push(w));
        assert(ws.push(w).first() == ws.first());
        lemma_encode_push(ws.drop_first(), w);
        assert(encode_words(ws.push(w)) =~= encode_words(ws) + spec_u32_to_le_bytes(w));
    }
}

/// Decoding inverts encoding: every vector of words survives a round trip
/// through the byte form unchanged.
pub proof fn lemma_decode_encode(ws: Seq<u32>)
    ensures
        decode_words(encode_words(ws)) == ws,
    decreases ws.len(),
{
    lemma_auto_spec_u32_to_from_le_bytes();
    lemma_encode_len(ws);
    if ws.len() == 0 {
        assert(decode_words(encode_words(ws)) =~= ws);
    } else {
        let bs = encode_words(ws);
        lemma_encode_len(ws.drop_first());
        assert(bs.take(4) =~= spec_u32_to_le_bytes(ws.first()));
        assert(bs.skip(4) =~= encode_words(ws.drop_first()));
        lemma_decode_encode(ws.drop_first());
        assert(decode_words(encode_words(ws)) =~= ws);
    }
}

/// Encoding inverts decoding: every well-formed blob (a length that is a
/// multiple of four) survives a round trip through the word form unchanged.
pub proof fn lemma_encode_decode(bs: Seq<u8>)
    requires
        bs.len() % 4 == 0,
    ensures
        encode_words(decode_words(bs)) == bs,
    decreases bs.len(),
{
    lemma_auto_spec_u32_to_from_le_bytes();
    if bs.len() < 4 {
        assert(bs.len() == 0);
        assert(encode_words(decode_words(bs)) =~= bs);
    } else {
        let ws = decode_words(bs);
        assert(ws.first() == spec_u32_from_le_bytes(bs.take(4)));
        assert(ws.drop_first() =~= decode_words(bs.skip(4)));
        lemma_encode_decode(bs.skip(4));
        assert(spec_u32_to_le_bytes(spec_u32_from_le_bytes(bs.take(4))) =~= bs.take(4));
        assert(encode_words(ws) =~= bs.take(4) + bs.skip(4));
        assert(bs.take(4) + bs.skip(4) =~= bs);
    }
}

/// A decoded vector holds one word for each four bytes.
pub proof fn lemma_decode_len(bs: Seq<u8>)
    requires
        bs.len() % 4 == 0,
    ensures
        decode_words(bs).len() == bs.len() / 4,
    decreases bs.len(),
{
    if bs.len() >= 4 {
        lemma_decode_len(bs.skip(4));
    }
}

/// Serialize an embedding vector to its persistent byte form.
pub fn encode_embedding(words: &Vec<u32>) -> (r: Vec<u8>)
    ensures
        r@ == encode_words(words@),
        r@.len() == 4 * words@.len(),
{
    let mut out: Vec<u8> = Vec::new();
    let n = words.len();
    assert(words@.take(0int) =~= Seq::<u32>::empty());
    for i in 0..n
        invariant
            n == words@.len(),
            out@ == encode_words(words@.take(i as int)),
            out@.len() == 4 * i,
    {
        let bytes = u32_to_le_bytes(words[i]);
        proof {
            lemma_encode_push(words@.take(i as int), words@[i as int]);
            assert(words@.take(i as int).push(words@[i as int]) =~= words@.take(i + 1));
        }
        let mut bytes = bytes;
        out.append(&mut bytes);
    }
    proof {
        assert(words@.take(n as int) =~= words@);
    }
    out
}

/// Deserialize a persisted blob back into an embedding vector.
///
/// Succeeds exactly when the blob's length is a multiple of four; a corrupt
/// blob is reported as [`DecodeError::BadLength`].
pub fn decode_embedding(bytes: &Vec<u8>) -> (r: Result<Vec<u32>, DecodeError>)
    ensures
        r is Ok <==> bytes@.len() % 4 == 0,
        r matches Ok(v) ==> v@ == decode_words(bytes@) && v@.len() == bytes@.len() / 4,
        r matches Err(e) ==> e == DecodeError::BadLength,
{
    let n = bytes.len();
    if n % 4 != 0 {
        return Err(DecodeError::BadLength);
    }
    let mut out: Vec<u32> = Vec::new();
    let mut i: usize = 0;
    proof {
        assert(bytes@.skip(0int) =~= bytes@);
    }
    while i < n
        invariant
            n == bytes@.len(),
            n % 4 == 0,
            i % 4 == 0,
            i <= n,
            out@ + decode_words(bytes@.skip(i as int)) == decode_words(bytes@),
            out@.len() == i / 4,
        decreases n - i,
    {
        assert(n - i >= 4) by {
            assert(i < n && i % 4 == 0 && n % 4 == 0);
        }
        let word = u32_from_le_bytes(slice_subrange(bytes.as_slice(), i, i + 4));
        proof {
            assert(bytes@.skip(i as int).take(4) =~= bytes@.subrange(i as int, i + 4));
            assert(bytes@.skip(i as int).skip(4) =~= bytes@.skip(i + 4));
            assert(decode_words(bytes@.skip(i as int)) == seq![word] + decode_words(
                bytes@.skip(i + 4),
            ));
            assert(out@.push(word) + decode_words(bytes@.skip(i + 4)) =~= out@ + decode_words(
                bytes@.skip(i as int),
            ));
        }
        out.push(word);
        i = i + 4;
    }
    proof {
        assert(decode_words(bytes@.skip(n as int)) =~= Seq::<u32>::empty());
        assert(out@ + decode_words(bytes@.skip(n as int)) =~= out@);
        lemma_decode_len(bytes@);
    }
    Ok(out)
}

} // verus!
