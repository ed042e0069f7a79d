//! Parameter budgets: the trainable parameters of the CPU transformer, and
//! the feed-forward layers compared in the LC-layer runs (the LC circuit
//! layer that works on harmonic bands, and the standard MLP it replaces).
use crate::text::same_text;
use vstd::prelude::*;

verus! {

/// Parameters of one LC layer over `n_bands` harmonic bands with coupling
/// half-width `k`: a gain and a phase per band, and a 2x2 coupling transform
/// for each of the `2k + 1` band offsets.
pub open spec fn lc_layer_param_count(n_bands: nat, k: nat) -> nat {
    n_bands + n_bands + (2 * k + 1) * 2 * 2
}

/// Parameters of one standard MLP `n_embd -> 4 n_embd -> n_embd`: the two
/// weight matrices and their biases.
pub open spec fn mlp_param_count(n_embd: nat) -> nat {
    n_embd * 4 * n_embd + 4 * n_embd + 4 * n_embd * n_embd + n_embd
}

/// Parameters of the LC layers of `n_layer` blocks.
pub fn lc_params(n_layer: usize, n_bands: usize, k: usize) -> (r: usize)
    requires
        lc_layer_param_count(n_bands as nat, k as nat) <= usize::MAX,
        n_layer * lc_layer_param_count(n_bands as nat, k as nat) <= usize::MAX,
    ensures
        r == n_layer * lc_layer_param_count(n_bands as nat, k as nat),
{
    let per: usize = n_bands + n_bands + (2 * k + 1) * 2 * 2;
    n_layer * per
}

/// Parameters of the standard MLPs that `n_layer` LC layers replace.
pub fn mlp_equivalent_params(n_layer: usize, n_embd: usize) -> (r: usize)
    requires
        mlp_param_count(n_embd as nat) <= usize::MAX,
        n_layer * mlp_param_count(n_embd as nat) <= usize::MAX,
    ensures
        r == n_layer * mlp_param_count(n_embd as nat),
{
    assert(n_embd * 4 * n_embd <= mlp_param_count(n_embd as nat)) by (nonlinear_arith)
        requires
            n_embd >= 0,
    ;
    assert(4 * n_embd * n_embd == n_embd * 4 * n_embd) by (nonlinear_arith);
    let per: usize = n_embd * 4 * n_embd + 4 * n_embd + 4 * n_embd * n_embd + n_embd;
    n_layer * per
}

/// Parameters of one transformer block: its two layer norms (a gain and a
/// shift of `n_embd` entries each), its attention and its MLP.
pub open spec fn block_param_count(n_embd: nat, attn: nat, mlp: nat) -> nat {
    4 * n_embd + attn + mlp
}

/// Parameters of one transformer block with `attn` attention and `mlp` MLP
/// parameters.
pub fn block_params(n_embd: usize, attn: usize, mlp: usize) -> (r: usize)
    requires
        block_param_count(n_embd as nat, attn as nat, mlp as nat) <= usize::MAX,
    ensures
        r == block_param_count(n_embd as nat, attn as nat, mlp as nat),
{
    4 * n_embd + attn + mlp
}

/// The sum of `s`.
pub open spec fn total(s: Seq<usize>) -> nat
    decreases s.len(),
{
    if s.len() == 0 {
        0
    } else {
        total(s.drop_last()) + (s.last() as nat)
    }
}

/// A prefix sums to no more than the whole.
proof fn lemma_total_prefix(s: Seq<usize>, i: int)
    requires
        0 <= i <= s.len(),
    ensures
        total(s.take(i)) <= total(s),
    decreases s.len() - i,
{
    if i < s.len() {
        lemma_total_prefix(s, i + 1);
        assert(s.take(i + 1).drop_last() =~= s.take(i));
    } else {
        assert(s.take(i) =~= s);
    }
}

/// Trainable parameters of the CPU transformer: the embedding tables unless
/// the mode is "frozen", every block, the final layer norm (a gain and a
/// shift of `n_embd` entries) and the output head unless it is tied to the
/// token embedding.
pub open spec fn model_param_count(
    frozen: bool,
    embeddings: nat,
    blocks: Seq<usize>,
    n_embd: nat,
    head: nat,
    weight_tied: bool,
) -> nat {
    (if frozen {
        0
    } else {
        embeddings
    }) + total(blocks) + 2 * n_embd + (if weight_tied {
        0
    } else {
        head
    })
}

/// Trainable parameters of a model in `mode` with `embeddings` embedding
/// parameters, blocks of `blocks` parameters each, width `n_embd` and a head
/// of `head` parameters, tied or not.
pub fn model_params(
    mode: &str,
    embeddings: usize,
    blocks: &Vec<usize>,
    n_embd: usize,
    head: usize,
    weight_tied: bool,
) -> (r: usize)
    requires
        model_param_count(
            mode@ == "frozen"@,
            embeddings as nat,
            blocks@,
            n_embd as nat,
            head as nat,
            weight_tied,
        ) <= usize::MAX,
    ensures
        r == model_param_count(
            mode@ == "frozen"@,
            embeddings as nat,
            blocks@,
            n_embd as nat,
            head as nat,
            weight_tied,
        ),
{
    let frozen = same_text(mode, "frozen");
    let emb = if frozen {
        0
    } else {
        embeddings
    };
    let mut sum: usize = 0;
    let n = blocks.len();
    for i in 0..n
        invariant
            n == blocks@.len(),
            sum == total(blocks@.take(i as int)),
            emb + total(blocks@) <= usize::MAX,
    {
        proof {
            lemma_total_prefix(blocks@, i + 1);
            assert(blocks@.take(i + 1).drop_last() =~= blocks@.take(i as int));
        }
        sum = sum + blocks[i];
    }
    assert(blocks@.take(n as int) =~= blocks@);
    let head_part = if weight_tied {
        0
    } else {
        head
    };
    emb + sum + 2 * n_embd + head_part
}

} // verus!
