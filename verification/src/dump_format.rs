//! The binary tensor format of the weight dumps: `[ndims] [dims ...]
//! [values ...]`, each a little-endian 32-bit word. Values are carried as
//! their 32-bit patterns (an `f32` by `to_bits` / `from_bits`).
use vstd::arithmetic::mul::*;
use vstd::prelude::*;

verus! {

/// The four little-endian bytes of `x`.
pub open spec fn le_word(x: u32) -> Seq<u8> {
    seq![
        (x % 256) as u8,
        ((x / 256) % 256) as u8,
        ((x / 65536) % 256) as u8,
        (x / 16777216) as u8,
    ]
}

/// The little-endian bytes of each word of `ws`, in order.
pub open spec fn words_bytes(ws: Seq<u32>) -> Seq<u8>
    decreases ws.len(),
{
    if ws.len() == 0 {
        Seq::empty()
    } else {
        words_bytes(ws.drop_last()) + le_word(ws.last())
    }
}

/// Each dimension truncated to 32 bits, as the format stores it.
pub open spec fn dims_words(shape: Seq<usize>) -> Seq<u32> {
    shape.map_values(|d: usize| d as u32)
}

/// The bytes of a dump of a tensor of the given shape and value words: the
/// number of dimensions, the dimensions, then the values, each truncated to
/// 32 bits.
pub open spec fn tensor_bytes(shape: Seq<usize>, values: Seq<u32>) -> Seq<u8> {
    le_word(shape.len() as u32) + words_bytes(dims_words(shape)) + words_bytes(values)
}

/// The little-endian 32-bit word at byte offset `off` of `bytes`.
pub open spec fn word_at(bytes: Seq<u8>, off: int) -> u32 {
    (bytes[off] as int + 256 * bytes[off + 1] as int + 65536 * bytes[off + 2] as int + 16777216
        * bytes[off + 3] as int) as u32
}

/// The number of dimensions a dump declares.
pub open spec fn declared_ndims(bytes: Seq<u8>) -> nat {
    word_at(bytes, 0) as nat
}

/// The dimensions a dump declares (as many words as it says, after the
/// first).
pub open spec fn declared_dims(bytes: Seq<u8>) -> Seq<usize> {
    Seq::new(declared_ndims(bytes), |i: int| word_at(bytes, 4 + 4 * i) as usize)
}

/// The product of the dimensions: the number of values.
pub open spec fn dims_product(dims: Seq<usize>) -> nat
    decreases dims.len(),
{
    if dims.len() == 0 {
        1
    } else {
        dims_product(dims.drop_last()) * (dims.last() as nat)
    }
}

/// Every running product of the dimensions, left to right, fits in a
/// `usize`.
pub open spec fn products_fit(dims: Seq<usize>) -> bool {
    forall|k: int| 0 <= k <= dims.len() ==> #[trigger] dims_product(dims.take(k)) <= usize::MAX
}

/// Byte offset of the first value of a dump.
pub open spec fn values_offset(bytes: Seq<u8>) -> int {
    4 + 4 * (declared_ndims(bytes) as int)
}

/// A dump that can be read: the header and all its dimensions are present,
/// the running products of the dimensions fit in a `usize`, and all the
/// values that the dimensions call for are present. Bytes after them are
/// ignored.
pub open spec fn readable_dump(bytes: Seq<u8>) -> bool {
    &&& bytes.len() >= 4
    &&& bytes.len() >= values_offset(bytes)
    &&& products_fit(declared_dims(bytes))
    &&& bytes.len() >= values_offset(bytes) + 4 * dims_product(declared_dims(bytes))
}

/// The value words of a readable dump.
pub open spec fn dump_values(bytes: Seq<u8>) -> Seq<u32> {
    Seq::new(
        dims_product(declared_dims(bytes)),
        |j: int| word_at(bytes, values_offset(bytes) + 4 * j),
    )
}

/// `words_bytes` gives four bytes per word.
proof fn lemma_words_bytes_len(ws: Seq<u32>)
    ensures
        words_bytes(ws).len() == 4 * ws.len(),
    decreases ws.len(),
{
    if ws.len() > 0 {
        lemma_words_bytes_len(ws.drop_last());
    }
}

/// Byte `k` of word `i` sits at offset `4 * i + k`.
proof fn lemma_words_bytes_index(ws: Seq<u32>, i: int, k: int)
    requires
        0 <= i < ws.len(),
        0 <= k < 4,
    ensures
        words_bytes(ws)[4 * i + k] == le_word(ws[i])[k],
    decreases ws.len(),
{
    lemma_words_bytes_len(ws.drop_last());
    if i < ws.len() - 1 {
        lemma_words_bytes_index(ws.drop_last(), i, k);
    }
}

/// Reading back the four bytes of a word gives the word.
proof fn lemma_word_at_le_word(bytes: Seq<u8>, off: int, x: u32)
    requires
        0 <= off,
        off + 4 <= bytes.len(),
        bytes[off] == le_word(x)[0],
        bytes[off + 1] == le_word(x)[1],
        bytes[off + 2] == le_word(x)[2],
        bytes[off + 3] == le_word(x)[3],
    ensures
        word_at(bytes, off) == x,
{
    let b0 = x % 256;
    let b1 = (x / 256) % 256;
    let b2 = (x / 65536) % 256;
    let b3 = x / 16777216;
    assert(b3 < 256);
    assert((x % 256) + 256 * ((x / 256) % 256) + 65536 * ((x / 65536) % 256) + 16777216 * (x
        / 16777216) == x) by (bit_vector);
}

/// Reading the word `i` of `words_bytes(ws)` placed at offset `base` gives
/// `ws[i]`.
proof fn lemma_read_back_word(bytes: Seq<u8>, base: int, ws: Seq<u32>, i: int)
    requires
        0 <= base,
        0 <= i < ws.len(),
        base + 4 * ws.len() <= bytes.len(),
        bytes.subrange(base, base + 4 * ws.len()) == words_bytes(ws),
    ensures
        word_at(bytes, base + 4 * i) == ws[i],
{
    lemma_words_bytes_len(ws);
    let sub = bytes.subrange(base, base + 4 * ws.len());
    lemma_words_bytes_index(ws, i, 0);
    lemma_words_bytes_index(ws, i, 1);
    lemma_words_bytes_index(ws, i, 2);
    lemma_words_bytes_index(ws, i, 3);
    assert(bytes[base + 4 * i] == sub[4 * i]);
    assert(bytes[base + 4 * i + 1] == sub[4 * i + 1]);
    assert(bytes[base + 4 * i + 2] == sub[4 * i + 2]);
    assert(bytes[base + 4 * i + 3] == sub[4 * i + 3]);
    lemma_word_at_le_word(bytes, base + 4 * i, ws[i]);
}

/// Reading back a dump gives the shape and values it was written from,
/// provided the number of dimensions and every dimension fit in 32 bits, the
/// running products of the dimensions fit in a `usize`, and there are as
/// many values as the dimensions call for.
pub proof fn lemma_dump_round_trip(shape: Seq<usize>, values: Seq<u32>)
    requires
        shape.len() <= u32::MAX,
        forall|i: int| 0 <= i < shape.len() ==> #[trigger] shape[i] <= u32::MAX,
        products_fit(shape),
        values.len() == dims_product(shape),
    ensures
        readable_dump(tensor_bytes(shape, values)),
        declared_dims(tensor_bytes(shape, values)) == shape,
        dump_values(tensor_bytes(shape, values)) == values,
{
    let bytes = tensor_bytes(shape, values);
    let dw = dims_words(shape);
    lemma_words_bytes_len(dw);
    lemma_words_bytes_len(values);
    let n = shape.len() as int;
    assert(bytes.subrange(0, 4) == le_word(shape.len() as u32));
    lemma_word_at_le_word(bytes, 0, shape.len() as u32);
    assert(declared_ndims(bytes) == n);
    assert(bytes.subrange(4, 4 + 4 * n) =~= words_bytes(dw));
    assert forall|i: int| 0 <= i < n implies #[trigger] declared_dims(bytes)[i] == shape[i] by {
        lemma_read_back_word(bytes, 4, dw, i);
    }
    assert(declared_dims(bytes) =~= shape);
    let off = 4 + 4 * n;
    assert(bytes.subrange(off, off + 4 * values.len()) =~= words_bytes(values));
    assert forall|j: int| 0 <= j < values.len() implies #[trigger] dump_values(bytes)[j]
        == values[j] by {
        lemma_read_back_word(bytes, off, values, j);
    }
    assert(dump_values(bytes) =~= values);
}

/// Appends the four little-endian bytes of `x`.
fn push_word(out: &mut Vec<u8>, x: u32)
    ensures
        final(out)@ == old(out)@ + le_word(x),
{
    out.push((x % 256) as u8);
    out.push((x / 256 % 256) as u8);
    out.push((x / 65536 % 256) as u8);
    out.push((x / 16777216) as u8);
    assert(final(out)@ =~= old(out)@ + le_word(x));
}

/// Appends the little-endian bytes of each word of `ws`.
fn push_words(out: &mut Vec<u8>, ws: &[u32])
    ensures
        final(out)@ == old(out)@ + words_bytes(ws@),
{
    let ghost start = out@;
    let n = ws.len();
    for i in 0..n
        invariant
            n == ws@.len(),
            out@ == start + words_bytes(ws@.take(i as int)),
    {
        push_word(out, ws[i]);
        assert(ws@.take(i + 1).drop_last() =~= ws@.take(i as int));
        assert(out@ =~= start + words_bytes(ws@.take(i + 1)));
    }
    assert(ws@.take(n as int) =~= ws@);
}

/// The bytes of a dump of a tensor with the given shape and value words.
/// The number of dimensions and each dimension are truncated to 32 bits.
pub fn encode_tensor(shape: &[usize], values: &[u32]) -> (r: Vec<u8>)
    ensures
        r@ == tensor_bytes(shape@, values@),
{
    let mut out: Vec<u8> = Vec::new();
    push_word(&mut out, shape.len() as u32);
    let mut dims: Vec<u32> = Vec::new();
    let n = shape.len();
    for i in 0..n
        invariant
            n == shape@.len(),
            dims@ == dims_words(shape@.take(i as int)),
    {
        dims.push(shape[i] as u32);
        assert(dims@ =~= dims_words(shape@.take(i + 1)));
    }
    assert(shape@.take(n as int) =~= shape@);
    push_words(&mut out, dims.as_slice());
    push_words(&mut out, values);
    out
}

/// The little-endian word at byte offset `off`.
fn read_word(bytes: &[u8], off: usize) -> (r: u32)
    requires
        off + 4 <= bytes@.len(),
    ensures
        r == word_at(bytes@, off as int),
{
    let b0 = bytes[off] as u32;
    let b1 = bytes[off + 1] as u32;
    let b2 = bytes[off + 2] as u32;
    let b3 = bytes[off + 3] as u32;
    b0 + 256 * b1 + 65536 * b2 + 16777216 * b3
}

/// Reads a dump: its shape and value words, or `None` when the bytes end
/// before the header, the dimensions or the values that the dimensions call
/// for, or when a running product of the dimensions overflows a `usize`.
pub fn decode_tensor(bytes: &[u8]) -> (r: Option<(Vec<usize>, Vec<u32>)>)
    ensures
        r is Some <==> readable_dump(bytes@),
        r matches Some((shape, values)) ==> shape@ == declared_dims(bytes@) && values@
            == dump_values(bytes@),
{
    let len = bytes.len();
    if len < 4 {
        return None;
    }
    let ndims = read_word(bytes, 0) as usize;
    assert(ndims == declared_ndims(bytes@));
    let ghost dims_spec = declared_dims(bytes@);
    let mut shape: Vec<usize> = Vec::new();
    let mut total: usize = 1;
    let mut i: usize = 0;
    while i < ndims
        invariant
            len == bytes@.len(),
            len >= 4,
            ndims == declared_ndims(bytes@),
            dims_spec == declared_dims(bytes@),
            i <= ndims,
            4 + 4 * i <= len,
            shape@ == dims_spec.take(i as int),
            total == dims_product(dims_spec.take(i as int)),
            forall|k: int| 0 <= k <= i ==> #[trigger] dims_product(dims_spec.take(k)) <= usize::MAX,
        decreases ndims - i,
    {
        let off = 4 + 4 * i;
        if len - off < 4 {
            assert(len < values_offset(bytes@));
            return None;
        }
        let d = read_word(bytes, off) as usize;
        assert(d == dims_spec[i as int]);
        assert(dims_spec.take(i + 1).drop_last() =~= dims_spec.take(i as int));
        match total.checked_mul(d) {
            Some(t) => {
                assert(dims_product(dims_spec.take(i + 1)) == total * d);
                total = t;
            },
            None => {
                assert(dims_product(dims_spec.take(i + 1)) == total * d);
                assert(dims_product(dims_spec.take(i + 1)) > usize::MAX);
                assert(!products_fit(dims_spec));
                return None;
            },
        }
        shape.push(d);
        assert(shape@ =~= dims_spec.take(i + 1));
        i = i + 1;
    }
    assert(dims_spec.take(ndims as int) =~= dims_spec);
    let off = 4 + 4 * ndims;
    if (len - off) / 4 < total {
        return None;
    }
    let mut values: Vec<u32> = Vec::new();
    let mut j: usize = 0;
    while j < total
        invariant
            len == bytes@.len(),
            off == values_offset(bytes@),
            total == dims_product(declared_dims(bytes@)),
            off + 4 * total <= len,
            j <= total,
            values@ == dump_values(bytes@).take(j as int),
        decreases total - j,
    {
        values.push(read_word(bytes, off + 4 * j));
        assert(values@ =~= dump_values(bytes@).take(j + 1));
        j = j + 1;
    }
    assert(values@ =~= dump_values(bytes@));
    Some((shape, values))
}

} // verus!
