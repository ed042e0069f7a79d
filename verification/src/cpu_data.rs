//! The character-level Shakespeare dataset of the CPU transformer: encoding,
//! train/validation split, decoding and deterministic batch sampling.
use crate::rng::{
    draw_below, lemma_round_of_zero, lemma_rounded_draw_below, round_exec, round_to_double, state_after,
    two_pow_53, Rng,
};
use vstd::arithmetic::div_mod::lemma_multiply_divide_lt;
use vstd::arithmetic::mul::lemma_mul_basics;
use crate::slices::copy_range;
use crate::text::{push_char, same_text, text_chars};
use crate::vocab::{build_vocabulary, decoded, encode_chars, is_encoding, is_vocabulary};
use vstd::prelude::*;

verus! {

/// Context length of the model, in characters.
pub const BLOCK_SIZE: usize = 256;

/// Number of sequences in a batch.
pub const BATCH_SIZE: usize = 32;

/// 0.9 as a double: `NINE_TENTHS / 2^53`.
pub open spec fn nine_tenths() -> nat {
    8106479329266893
}

/// Number of tokens that go to the training split: `n` as a double times 0.9
/// as a double, the product rounded to a double and truncated (90%, rounded
/// down).
pub open spec fn train_len(n: nat) -> nat {
    ((round_to_double(nine_tenths() * round_to_double(n)) as int) / two_pow_53()) as nat
}

/// A character-level dataset.
pub struct Dataset {
    pub train: Vec<usize>,
    pub val: Vec<usize>,
    pub vocab_size: usize,
    pub itos: Vec<char>,
}

/// The tokens of the split named `split` ("train" or "val").
pub open spec fn split_tokens(d: &Dataset, split: Seq<char>) -> Seq<usize> {
    if split == "train"@ {
        d.train@
    } else {
        d.val@
    }
}

/// A batch of the split named "train" is drawn from the training tokens, and
/// one of the split named "val" from the validation tokens: the two names
/// never select the same part of the data.
pub proof fn lemma_split_names_select_their_tokens(d: &Dataset)
    ensures
        split_tokens(d, "train"@) == d.train@,
        split_tokens(d, "val"@) == d.val@,
{
    reveal_strlit("train");
    reveal_strlit("val");
    assert("val"@.len() != "train"@.len());
}

/// The first token of batch row `b` when sampling from a generator in state
/// `s` over `n` tokens.
pub open spec fn batch_start(s: u64, b: nat, n: nat) -> int {
    draw_below(state_after(s, b), (n - BLOCK_SIZE - 1) as usize)
}

/// Rows `0..n` of `inputs` and `targets` are the windows sampled from
/// `data` by a generator that started in state `s0`: input row `b` is the
/// `BLOCK_SIZE` tokens from the `b`-th drawn start, target row `b` the same
/// window shifted one token later.
pub open spec fn sampled_rows(
    data: Seq<usize>,
    s0: u64,
    inputs: Seq<Vec<usize>>,
    targets: Seq<Vec<usize>>,
    n: nat,
) -> bool {
    forall|b: int|
        0 <= b < n ==> {
            let s = batch_start(s0, b as nat, data.len());
            &&& #[trigger] inputs[b]@ == data.subrange(s, s + BLOCK_SIZE)
            &&& targets[b]@ == data.subrange(s + 1, s + BLOCK_SIZE + 1)
        }
}

/// In every sampled row, the target at position `t` is the input at position
/// `t + 1`: targets are the inputs shifted one token ahead.
pub proof fn lemma_targets_follow_inputs(
    data: Seq<usize>,
    s0: u64,
    inputs: Seq<Vec<usize>>,
    targets: Seq<Vec<usize>>,
    n: nat,
    b: int,
    t: int,
)
    requires
        sampled_rows(data, s0, inputs, targets, n),
        data.len() >= BLOCK_SIZE + 1,
        0 <= b < n,
        0 <= t < BLOCK_SIZE - 1,
    ensures
        inputs[b]@.len() == BLOCK_SIZE,
        targets[b]@.len() == BLOCK_SIZE,
        targets[b]@[t] == inputs[b]@[t + 1],
{
    let max = (data.len() - BLOCK_SIZE - 1) as usize;
    crate::rng::lemma_draw_below_bound(state_after(s0, b as nat), max);
    let s = batch_start(s0, b as nat, data.len());
    assert(inputs[b]@ == data.subrange(s, s + BLOCK_SIZE));
}

/// Splits `n` tokens at 90%.
pub(crate) fn split_point(n: usize) -> (r: usize)
    ensures
        r == train_len(n as nat),
        r <= n,
{
    let m = round_exec(n as u128);
    assert(8106479329266893u128 * m < 0x100_0000_0000_0000_0000_0000_0000_0000u128) by (nonlinear_arith)
        requires
            m <= 2 * n,
            n < 0x1_0000_0000_0000_0000u128,
    ;
    let p = round_exec(8106479329266893u128 * m);
    proof {
        if n > 0 {
            lemma_rounded_draw_below(nine_tenths(), n as nat);
            lemma_multiply_divide_lt(p as int, two_pow_53(), n as int);
        } else {
            lemma_round_of_zero();
            lemma_mul_basics(nine_tenths() as int);
        }
    }
    (p / 9007199254740992) as usize
}

impl Dataset {
    /// Builds the vocabulary of `text` (its distinct characters, sorted),
    /// encodes every character as its position in the vocabulary, and puts
    /// the first 90% of the tokens in the training split, the rest in the
    /// validation split.
    pub fn new(text: &str) -> (r: Self)
        ensures
            is_vocabulary(r.itos@, text@),
            r.vocab_size == r.itos.len(),
            is_encoding(r.train@ + r.val@, text@, r.itos@),
            r.train.len() == train_len(text@.len()),
    {
        let chars = text_chars(text);
        let itos = build_vocabulary(&chars);
        let mut train = encode_chars(&chars, &itos);
        let n = split_point(train.len());
        let ghost data = train@;
        let val = train.split_off(n);
        assert(train@ + val@ =~= data);
        Dataset { train, val, vocab_size: itos.len(), itos }
    }

    /// The text that `tokens` stand for.
    pub fn decode(&self, tokens: &[usize]) -> (r: String)
        requires
            forall|i: int| 0 <= i < tokens@.len() ==> #[trigger] tokens@[i] < self.itos.len(),
        ensures
            r@ == decoded(self.itos@, tokens@),
    {
        let mut r = String::new();
        let n = tokens.len();
        for i in 0..n
            invariant
                n == tokens@.len(),
                forall|j: int| 0 <= j < tokens@.len() ==> #[trigger] tokens@[j] < self.itos.len(),
                r@ == decoded(self.itos@, tokens@.take(i as int)),
        {
            let c = self.itos[tokens[i]];
            push_char(&mut r, c);
            assert(decoded(self.itos@, tokens@.take(i + 1)) =~= decoded(
                self.itos@,
                tokens@.take(i as int),
            ).push(c));
        }
        assert(tokens@.take(n as int) =~= tokens@);
        r
    }

    /// Samples `BATCH_SIZE` windows of `BLOCK_SIZE + 1` consecutive tokens
    /// from the split named `split`; row `b` of the inputs is the window
    /// without its last token, row `b` of the targets the window without its
    /// first. The window starts are drawn from `rng` in order.
    pub fn get_batch(&self, split: &str, rng: &mut Rng) -> (r: (Vec<Vec<usize>>, Vec<Vec<usize>>))
        requires
            split@ == "train"@ || split@ == "val"@,
            split_tokens(self, split@).len() >= BLOCK_SIZE + 1,
        ensures
            r.0.len() == BATCH_SIZE,
            r.1.len() == BATCH_SIZE,
            sampled_rows(split_tokens(self, split@), old(rng)@, r.0@, r.1@, BATCH_SIZE as nat),
            final(rng)@ == state_after(old(rng)@, BATCH_SIZE as nat),
    {
        let data = if same_text(split, "train") {
            &self.train
        } else {
            &self.val
        };
        assert(data@ == split_tokens(self, split@));
        let max_start = data.len() - BLOCK_SIZE - 1;
        let mut inputs: Vec<Vec<usize>> = Vec::new();
        let mut targets: Vec<Vec<usize>> = Vec::new();
        let ghost s0 = rng@;
        let mut b: usize = 0;
        while b < BATCH_SIZE
            invariant
                b <= BATCH_SIZE,
                data@ == split_tokens(self, split@),
                max_start == data.len() - BLOCK_SIZE - 1,
                rng@ == state_after(s0, b as nat),
                inputs.len() == b,
                targets.len() == b,
                sampled_rows(data@, s0, inputs@, targets@, b as nat),
            decreases BATCH_SIZE - b,
        {
            let ghost before_in = inputs@;
            let ghost before_tg = targets@;
            let start = rng.usize(max_start);
            assert(start == batch_start(s0, b as nat, data@.len()));
            inputs.push(copy_range(data, start, start + BLOCK_SIZE));
            targets.push(copy_range(data, start + 1, start + BLOCK_SIZE + 1));
            assert forall|k: int| 0 <= k < b + 1 implies {
                let s = batch_start(s0, k as nat, data@.len());
                &&& #[trigger] inputs@[k]@ == data@.subrange(s, s + BLOCK_SIZE)
                &&& targets@[k]@ == data@.subrange(s + 1, s + BLOCK_SIZE + 1)
            } by {
                if k < b {
                    assert(inputs@[k] == before_in[k]);
                    assert(targets@[k] == before_tg[k]);
                }
            }
            b = b + 1;
        }
        (inputs, targets)
    }
}

} // verus!
