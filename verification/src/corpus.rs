//! The character-level dataset of the GPU training runs: 32-bit tokens and
//! batches sampled at random starts, laid out row-major for a
//! `BATCH_SIZE x BLOCK_SIZE` tensor.
use crate::slices::copy_range;
use crate::text::{same_text, text_chars};
use crate::vocab::{build_vocabulary, encode_chars, is_vocabulary};
use rand::Rng;
use vstd::prelude::*;

verus! {

/// Context length of the model, in characters.
pub const BLOCK_SIZE: usize = 256;

/// Number of sequences in a batch.
pub const BATCH_SIZE: usize = 64;

/// `tokens` encodes `text` against `itos`: one token per character, each the
/// position of that character in `itos`.
pub open spec fn is_u32_encoding(tokens: Seq<u32>, text: Seq<char>, itos: Seq<char>) -> bool {
    &&& tokens.len() == text.len()
    &&& forall|i: int|
        0 <= i < tokens.len() ==> #[trigger] tokens[i] < itos.len() && itos[tokens[i] as int]
            == text[i]
}

/// The windows of `BLOCK_SIZE` tokens of `data` that start `shift` tokens
/// after each entry of `starts`, concatenated in order.
pub open spec fn windows(data: Seq<u32>, starts: Seq<usize>, shift: int) -> Seq<u32>
    decreases starts.len(),
{
    if starts.len() == 0 {
        Seq::empty()
    } else {
        let s = starts.last() + shift;
        windows(data, starts.drop_last(), shift) + data.subrange(s, s + BLOCK_SIZE)
    }
}

/// Token `t` of row `b` of a flattened batch is token `starts[b] + shift + t`
/// of the data.
pub proof fn lemma_windows_index(data: Seq<u32>, starts: Seq<usize>, shift: int, b: int, t: int)
    requires
        0 <= shift,
        forall|i: int|
            0 <= i < starts.len() ==> #[trigger] starts[i] + shift + BLOCK_SIZE <= data.len(),
        0 <= b < starts.len(),
        0 <= t < BLOCK_SIZE,
    ensures
        windows(data, starts, shift).len() == starts.len() * BLOCK_SIZE,
        windows(data, starts, shift)[b * BLOCK_SIZE + t] == data[starts[b] + shift + t],
    decreases starts.len(),
{
    lemma_windows_len(data, starts, shift);
    let prefix = starts.drop_last();
    lemma_windows_len(data, prefix, shift);
    if b < starts.len() - 1 {
        lemma_windows_index(data, prefix, shift, b, t);
    }
}

/// In a flattened batch, the target at position `t` of row `b` is the input
/// at position `t + 1` of the same row: targets are the inputs shifted one
/// token ahead.
pub proof fn lemma_flat_targets_follow_inputs(data: Seq<u32>, starts: Seq<usize>, b: int, t: int)
    requires
        forall|i: int|
            0 <= i < starts.len() ==> #[trigger] starts[i] + BLOCK_SIZE + 1 <= data.len(),
        0 <= b < starts.len(),
        0 <= t < BLOCK_SIZE - 1,
    ensures
        windows(data, starts, 1)[b * BLOCK_SIZE + t] == windows(data, starts, 0)[b * BLOCK_SIZE + t
            + 1],
{
    lemma_windows_index(data, starts, 1, b, t);
    lemma_windows_index(data, starts, 0, b, t + 1);
}

/// A flattened batch holds `BLOCK_SIZE` tokens per start.
proof fn lemma_windows_len(data: Seq<u32>, starts: Seq<usize>, shift: int)
    requires
        0 <= shift,
        forall|i: int|
            0 <= i < starts.len() ==> #[trigger] starts[i] + shift + BLOCK_SIZE <= data.len(),
    ensures
        windows(data, starts, shift).len() == starts.len() * BLOCK_SIZE,
    decreases starts.len(),
{
    if starts.len() > 0 {
        lemma_windows_len(data, starts.drop_last(), shift);
    }
}

/// A character-level dataset with 32-bit tokens.
pub struct Dataset {
    pub train: Vec<u32>,
    pub val: Vec<u32>,
    pub vocab_size: usize,
    pub itos: Vec<char>,
}

/// The tokens of the split named `split` ("train" or "val").
pub open spec fn split_tokens(d: &Dataset, split: Seq<char>) -> Seq<u32> {
    if split == "train"@ {
        d.train@
    } else {
        d.val@
    }
}

/// A batch of the split named "train" is drawn from the training tokens, and
/// one of the split named "val" from the validation tokens: the two names
/// never select the same part of the data.
pub proof fn lemma_split_names_select_their_tokens(d: &Dataset)
    ensures
        split_tokens(d, "train"@) == d.train@,
        split_tokens(d, "val"@) == d.val@,
{
    reveal_strlit("train");
    reveal_strlit("val");
    assert("val"@.len() != "train"@.len());
}

/// A random start in `[0, max_start)` from rand's thread-local generator
/// (`rand::rng().random_range(0..max_start)`, which panics on an empty range).
/// The contract states the range only: the draw depends on the generator's
/// state, and its (uniform) distribution is not stated.
#[verifier::external_body]
fn random_start(max_start: usize) -> (r: usize)
    requires
        max_start > 0,
    ensures
        r < max_start,
{
    rand::rng().random_range(0..max_start)
}

/// The start of one batch row: a random token position in `[0, max_start)`.
/// A batch over a split of `len` tokens draws each of its starts by
/// `sample_start(len - BLOCK_SIZE - 1)`.
pub fn sample_start(max_start: usize) -> (r: usize)
    requires
        max_start > 0,
    ensures
        r < max_start,
{
    random_start(max_start)
}

impl Dataset {
    /// Builds the vocabulary of `text` (its distinct characters, sorted),
    /// encodes every character as its position in the vocabulary, and puts
    /// the first 90% of the tokens in the training split, the rest in the
    /// validation split.
    pub fn new(text: &str) -> (r: Self)
        ensures
            is_vocabulary(r.itos@, text@),
            r.vocab_size == r.itos.len(),
            is_u32_encoding(r.train@ + r.val@, text@, r.itos@),
            r.train.len() == crate::cpu_data::train_len(text@.len()),
    {
        let chars = text_chars(text);
        let itos = build_vocabulary(&chars);
        let tokens = encode_chars(&chars, &itos);
        let mut data: Vec<u32> = Vec::new();
        let n = tokens.len();
        for k in 0..n
            invariant
                n == tokens.len(),
                itos.len() <= 0x110000,
                crate::vocab::is_encoding(tokens@, chars@, itos@),
                data.len() == k,
                forall|j: int| 0 <= j < k ==> #[trigger] data@[j] as int == tokens@[j] as int,
        {
            assert(tokens@[k as int] < itos.len());
            data.push(tokens[k] as u32);
        }
        let split = crate::cpu_data::split_point(data.len());
        let ghost all = data@;
        let val = data.split_off(split);
        assert(data@ + val@ =~= all);
        Dataset { train: data, val, vocab_size: itos.len(), itos }
    }

    /// Samples `BATCH_SIZE` windows of `BLOCK_SIZE + 1` consecutive tokens
    /// from the split named `split`, each at a start drawn by
    /// `sample_start(len - BLOCK_SIZE - 1)`, that is at random in
    /// `[0, len - BLOCK_SIZE - 1)`; returns the inputs (each window without its
    /// last token) and the targets (each window without its first token),
    /// both flattened row by row.
    pub fn get_batch(&self, split: &str) -> (r: (Vec<u32>, Vec<u32>))
        requires
            split@ == "train"@ || split@ == "val"@,
            split_tokens(self, split@).len() > BLOCK_SIZE + 1,
        ensures
            exists|starts: Seq<usize>|
                {
                    &&& starts.len() == BATCH_SIZE
                    &&& forall|b: int|
                        0 <= b < BATCH_SIZE ==> #[trigger] starts[b] < split_tokens(
                            self,
                            split@,
                        ).len() - BLOCK_SIZE - 1
                    &&& forall|b: int|
                        0 <= b < BATCH_SIZE ==> call_ensures(
                            sample_start,
                            ((split_tokens(self, split@).len() - BLOCK_SIZE - 1) as usize,),
                            #[trigger] starts[b],
                        )
                    &&& r.0@ == windows(split_tokens(self, split@), starts, 0)
                    &&& r.1@ == windows(split_tokens(self, split@), starts, 1)
                },
    {
        let data = if same_text(split, "train") {
            &self.train
        } else {
            &self.val
        };
        let max_start = data.len() - BLOCK_SIZE - 1;
        let mut starts: Vec<usize> = Vec::new();
        for b in 0..BATCH_SIZE
            invariant
                max_start == data.len() - BLOCK_SIZE - 1,
                max_start > 0,
                starts.len() == b,
                forall|k: int| 0 <= k < b ==> #[trigger] starts@[k] < max_start,
                forall|k: int| 0 <= k < b ==> call_ensures(sample_start, (max_start,), #[trigger] starts@[k]),
        {
            starts.push(sample_start(max_start));
        }
        batch_from_starts(data, &starts)
    }
}

/// The windows of `data` at the given starts, flattened row by row: the
/// inputs take `BLOCK_SIZE` tokens from each start, the targets the same
/// number from one token later.
pub fn batch_from_starts(data: &Vec<u32>, starts: &Vec<usize>) -> (r: (Vec<u32>, Vec<u32>))
    requires
        forall|b: int|
            0 <= b < starts.len() ==> #[trigger] starts@[b] + BLOCK_SIZE + 1 <= data.len(),
    ensures
        r.0@ == windows(data@, starts@, 0),
        r.1@ == windows(data@, starts@, 1),
{
    let mut x: Vec<u32> = Vec::new();
    let mut y: Vec<u32> = Vec::new();
    let n = starts.len();
    for b in 0..n
        invariant
            n == starts.len(),
            forall|k: int|
                0 <= k < starts.len() ==> #[trigger] starts@[k] + BLOCK_SIZE + 1 <= data.len(),
            x@ == windows(data@, starts@.take(b as int), 0),
            y@ == windows(data@, starts@.take(b as int), 1),
    {
        let s = starts[b];
        let mut wx = copy_range(data, s, s + BLOCK_SIZE);
        let mut wy = copy_range(data, s + 1, s + BLOCK_SIZE + 1);
        x.append(&mut wx);
        y.append(&mut wy);
        assert(starts@.take(b + 1).drop_last() =~= starts@.take(b as int));
    }
    assert(starts@.take(n as int) =~= starts@);
    (x, y)
}

} // verus!
