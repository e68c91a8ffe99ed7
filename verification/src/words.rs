//! The word codec: fixed-width little-endian integer fields, plus the
//! word-size-parameterized "word" fields whose width is 4 or 8 bytes
//! depending on the build of the format. Also the sequence-slicing lemmas
//! the page codecs lean on.

use vstd::prelude::*;
use vstd::bytes::*;
use vstd::slice::slice_subrange;
use vstd::seq_lib::*;

use crate::model::WordSize;

verus! {

/// `n` zero bytes.
pub open spec fn zeros(n: int) -> Seq<u8> {
    Seq::new(n as nat, |i: int| 0u8)
}

/// Little-endian encoding of `x` as a word of size `ws`. Meaningful when
/// `ws.fits(x)`.
pub open spec fn enc_word(ws: WordSize, x: u64) -> Seq<u8> {
    match ws {
        WordSize::Word32 => spec_u32_to_le_bytes(x as u32),
        WordSize::Word64 => spec_u64_to_le_bytes(x),
    }
}

/// The value of a word-sized little-endian byte sequence.
pub open spec fn word_from(ws: WordSize, s: Seq<u8>) -> u64 {
    match ws {
        WordSize::Word32 => spec_u32_from_le_bytes(s) as u64,
        WordSize::Word64 => spec_u64_from_le_bytes(s),
    }
}

/// The u16 stored little-endian at byte offset `p` of `s`.
pub open spec fn u16_at(s: Seq<u8>, p: int) -> u16 {
    spec_u16_from_le_bytes(s.subrange(p, p + 2))
}

/// The u32 stored little-endian at byte offset `p` of `s`.
pub open spec fn u32_at(s: Seq<u8>, p: int) -> u32 {
    spec_u32_from_le_bytes(s.subrange(p, p + 4))
}

/// The word stored little-endian at byte offset `p` of `s`.
pub open spec fn word_at(s: Seq<u8>, ws: WordSize, p: int) -> u64 {
    word_from(ws, s.subrange(p, p + ws.spec_len()))
}

/// All facts of the fixed-width little-endian codecs: lengths and round
/// trips in both directions.
pub proof fn le_facts()
    ensures
        forall|x: u16|
            {
                &&& #[trigger] spec_u16_to_le_bytes(x).len() == 2
                &&& spec_u16_from_le_bytes(spec_u16_to_le_bytes(x)) == x
            },
        forall|s: Seq<u8>|
            s.len() == 2 ==> #[trigger] spec_u16_to_le_bytes(spec_u16_from_le_bytes(s)) == s,
        forall|x: u32|
            {
                &&& #[trigger] spec_u32_to_le_bytes(x).len() == 4
                &&& spec_u32_from_le_bytes(spec_u32_to_le_bytes(x)) == x
            },
        forall|s: Seq<u8>|
            s.len() == 4 ==> #[trigger] spec_u32_to_le_bytes(spec_u32_from_le_bytes(s)) == s,
        forall|x: u64|
            #![trigger spec_u64_to_le_bytes(x)]
            {
                &&& spec_u64_to_le_bytes(x).len() == 8
                &&& spec_u64_from_le_bytes(spec_u64_to_le_bytes(x)) == x
            },
        forall|s: Seq<u8>|
            s.len() == 8 ==> #[trigger] spec_u64_to_le_bytes(spec_u64_from_le_bytes(s)) == s,
{
    lemma_auto_spec_u16_to_from_le_bytes();
    lemma_auto_spec_u32_to_from_le_bytes();
    lemma_auto_spec_u64_to_from_le_bytes();
}

/// An encoded word has the width the word size dictates.
pub proof fn lemma_enc_word_len(ws: WordSize, x: u64)
    ensures
        enc_word(ws, x).len() == ws.spec_len(),
{
    le_facts();
}

/// Encoding then decoding a word gives the value back, provided it fits.
pub proof fn lemma_word_round_trip(ws: WordSize, x: u64)
    requires
        ws.fits(x),
    ensures
        word_from(ws, enc_word(ws, x)) == x,
{
    le_facts();
    match ws {
        WordSize::Word32 => {
            assert(spec_u32_to_le_bytes(x as u32).len() == 4);
            assert(spec_u32_from_le_bytes(spec_u32_to_le_bytes(x as u32)) == x as u32);
            assert((x as u32) as u64 == x);
        },
        WordSize::Word64 => {
            assert(spec_u64_from_le_bytes(spec_u64_to_le_bytes(x)) == x);
        },
    }
}

/// A subrange taken inside the left half of a concatenation.
pub proof fn lemma_peel_left(a: Seq<u8>, b: Seq<u8>, i: int, j: int)
    requires
        0 <= i <= j <= a.len(),
    ensures
        (a + b).subrange(i, j) == a.subrange(i, j),
{
    assert((a + b).subrange(i, j) =~= a.subrange(i, j));
}

/// A subrange taken inside the right half of a concatenation.
pub proof fn lemma_peel_right(a: Seq<u8>, b: Seq<u8>, i: int, j: int)
    requires
        a.len() <= i <= j <= a.len() + b.len(),
    ensures
        (a + b).subrange(i, j) == b.subrange(i - a.len(), j - a.len()),
{
    assert((a + b).subrange(i, j) =~= b.subrange(i - a.len(), j - a.len()));
}

/// Concatenation of byte sequences is associative.
pub proof fn lemma_assoc(a: Seq<u8>, b: Seq<u8>, c: Seq<u8>)
    ensures
        (a + b) + c == a + (b + c),
{
    assert((a + b) + c =~= a + (b + c));
}

/// The subrange spanning a whole sequence is the sequence.
pub proof fn lemma_subrange_all(s: Seq<u8>)
    ensures
        s.subrange(0, s.len() as int) == s,
{
    assert(s.subrange(0, s.len() as int) =~= s);
}

/// Append a little-endian u16 to the buffer.
pub fn put_u16(buf: &mut Vec<u8>, x: u16)
    ensures
        final(buf)@ == old(buf)@ + spec_u16_to_le_bytes(x),
{
    let mut piece = u16_to_le_bytes(x);
    buf.append(&mut piece);
}

/// Append a little-endian u32 to the buffer.
pub fn put_u32(buf: &mut Vec<u8>, x: u32)
    ensures
        final(buf)@ == old(buf)@ + spec_u32_to_le_bytes(x),
{
    let mut piece = u32_to_le_bytes(x);
    buf.append(&mut piece);
}

/// Append a little-endian word of size `ws` to the buffer. The value must
/// fit the declared word size; the caller checks before narrowing.
pub fn put_word(buf: &mut Vec<u8>, ws: WordSize, x: u64)
    requires
        ws.fits(x),
    ensures
        final(buf)@ == old(buf)@ + enc_word(ws, x),
{
    match ws {
        WordSize::Word32 => {
            let mut piece = u32_to_le_bytes(x as u32);
            buf.append(&mut piece);
        },
        WordSize::Word64 => {
            let mut piece = u64_to_le_bytes(x);
            buf.append(&mut piece);
        },
    }
}

/// Append `n` zero bytes to the buffer.
pub fn put_zeros(buf: &mut Vec<u8>, n: usize)
    ensures
        final(buf)@ == old(buf)@ + zeros(n as int),
{
    let mut i: usize = 0;
    while i < n
        invariant
            i <= n,
            buf@ == old(buf)@ + zeros(i as int),
        decreases n - i,
    {
        buf.push(0u8);
        assert(zeros(i as int).push(0u8) =~= zeros(i + 1));
        i = i + 1;
    }
}

/// Read the little-endian u16 at byte offset `p`.
pub fn get_u16(v: &Vec<u8>, p: usize) -> (r: u16)
    requires
        p + 2 <= v@.len(),
    ensures
        r == u16_at(v@, p as int),
{
    let n = v.len();
    assert(p + 2 <= n);
    let s = slice_subrange(v.as_slice(), p, p + 2);
    u16_from_le_bytes(s)
}

/// Read the little-endian u32 at byte offset `p`.
pub fn get_u32(v: &Vec<u8>, p: usize) -> (r: u32)
    requires
        p + 4 <= v@.len(),
    ensures
        r == u32_at(v@, p as int),
{
    let n = v.len();
    assert(p + 4 <= n);
    let s = slice_subrange(v.as_slice(), p, p + 4);
    u32_from_le_bytes(s)
}

/// Read the little-endian word of size `ws` at byte offset `p`. The result
/// always fits the word size it was read under.
pub fn get_word(v: &Vec<u8>, ws: WordSize, p: usize) -> (r: u64)
    requires
        p + ws.spec_len() <= v@.len(),
    ensures
        r == word_at(v@, ws, p as int),
        ws.fits(r),
{
    let n = v.len();
    match ws {
        WordSize::Word32 => {
            assert(p + 4 <= n);
            let s = slice_subrange(v.as_slice(), p, p + 4);
            u32_from_le_bytes(s) as u64
        },
        WordSize::Word64 => {
            assert(p + 8 <= n);
            let s = slice_subrange(v.as_slice(), p, p + 8);
            u64_from_le_bytes(s)
        },
    }
}

/// Copy `v[start .. start + len]` into a fresh vector.
pub fn copy_range(v: &Vec<u8>, start: usize, len: usize) -> (r: Vec<u8>)
    requires
        start + len <= v@.len(),
    ensures
        r@ == v@.subrange(start as int, start + len),
{
    let n = v.len();
    assert(start + len <= n);
    let s = slice_subrange(v.as_slice(), start, start + len);
    vstd::slice::slice_to_vec(s)
}

} // verus!
