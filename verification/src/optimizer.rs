//! Bookkeeping for the optimizer of the CPU transformer: which parameter
//! tensors a step updates, in which order, and which of them get weight
//! decay.
use crate::text::same_text;
use vstd::prelude::*;

verus! {

/// A parameter tensor of one transformer block.
#[derive(Clone, Copy, Debug, PartialEq, Eq, Structural)]
pub enum BlockParam {
    Norm1Gamma,
    Norm1Beta,
    AttnWeight,
    AttnBias,
    AttnProjWeight,
    AttnProjBias,
    Norm2Gamma,
    Norm2Beta,
    FcWeight,
    FcBias,
    MlpProjWeight,
    MlpProjBias,
}

/// A parameter tensor of the CPU transformer.
#[derive(Clone, Copy, Debug, PartialEq, Eq, Structural)]
pub enum ParamSlot {
    TokenEmbedding,
    PositionEmbedding,
    Block(usize, BlockParam),
    FinalNormGamma,
    FinalNormBeta,
    Head,
}

/// The `j`-th parameter of a block, in update order: first layer norm
/// (gain, shift), attention input projection (weight, bias), attention output
/// projection (weight, bias), second layer norm, MLP input projection, MLP
/// output projection.
pub open spec fn block_param(j: int) -> BlockParam {
    if j == 0 {
        BlockParam::Norm1Gamma
    } else if j == 1 {
        BlockParam::Norm1Beta
    } else if j == 2 {
        BlockParam::AttnWeight
    } else if j == 3 {
        BlockParam::AttnBias
    } else if j == 4 {
        BlockParam::AttnProjWeight
    } else if j == 5 {
        BlockParam::AttnProjBias
    } else if j == 6 {
        BlockParam::Norm2Gamma
    } else if j == 7 {
        BlockParam::Norm2Beta
    } else if j == 8 {
        BlockParam::FcWeight
    } else if j == 9 {
        BlockParam::FcBias
    } else if j == 10 {
        BlockParam::MlpProjWeight
    } else {
        BlockParam::MlpProjBias
    }
}

/// Weight decay applies to the 2D weight matrices only: the four projection
/// weights of each block and the output head; not to embeddings, biases or
/// layer norms.
pub open spec fn decays(slot: ParamSlot) -> bool {
    match slot {
        ParamSlot::Block(_, p) => p == BlockParam::AttnWeight || p == BlockParam::AttnProjWeight || p
            == BlockParam::FcWeight || p == BlockParam::MlpProjWeight,
        ParamSlot::Head => true,
        _ => false,
    }
}

/// Weight decay falls on the 2D weight matrices and nothing else: in every
/// block, each of the four linear layers (attention input and output
/// projections, MLP input and output projections) has its weight decayed and
/// its bias not; no layer-norm gain or shift and no embedding is decayed; the
/// output head is.
pub proof fn lemma_decay_on_weight_matrices_only(b: usize)
    ensures
        decays(ParamSlot::Block(b, BlockParam::AttnWeight)),
        !decays(ParamSlot::Block(b, BlockParam::AttnBias)),
        decays(ParamSlot::Block(b, BlockParam::AttnProjWeight)),
        !decays(ParamSlot::Block(b, BlockParam::AttnProjBias)),
        decays(ParamSlot::Block(b, BlockParam::FcWeight)),
        !decays(ParamSlot::Block(b, BlockParam::FcBias)),
        decays(ParamSlot::Block(b, BlockParam::MlpProjWeight)),
        !decays(ParamSlot::Block(b, BlockParam::MlpProjBias)),
        !decays(ParamSlot::Block(b, BlockParam::Norm1Gamma)),
        !decays(ParamSlot::Block(b, BlockParam::Norm1Beta)),
        !decays(ParamSlot::Block(b, BlockParam::Norm2Gamma)),
        !decays(ParamSlot::Block(b, BlockParam::Norm2Beta)),
        !decays(ParamSlot::TokenEmbedding),
        !decays(ParamSlot::PositionEmbedding),
        !decays(ParamSlot::FinalNormGamma),
        !decays(ParamSlot::FinalNormBeta),
        decays(ParamSlot::Head),
{
}

/// In each block's update order the four linear layers come as weight then
/// bias, and of each such pair only the weight is decayed; the layer norms'
/// gain and shift are never decayed.
pub proof fn lemma_decay_pairs_in_block_order(b: usize, j: int)
    requires
        0 <= j < 12,
    ensures
        decays(ParamSlot::Block(b, block_param(j))) <==> (j == 2 || j == 4 || j == 8 || j
            == 10),
{
}

/// The parameter tensors an optimizer step updates, in order: the token and
/// position embeddings unless frozen, the twelve tensors of each of
/// `n_blocks` blocks, the final layer norm, and the output head unless it is
/// tied to the token embedding.
pub open spec fn optimizer_slots(frozen: bool, n_blocks: nat, weight_tied: bool) -> Seq<ParamSlot> {
    (if frozen {
        Seq::empty()
    } else {
        seq![ParamSlot::TokenEmbedding, ParamSlot::PositionEmbedding]
    }) + Seq::new(12 * n_blocks, |i: int| ParamSlot::Block((i / 12) as usize, block_param(i % 12)))
        + seq![ParamSlot::FinalNormGamma, ParamSlot::FinalNormBeta] + (if weight_tied {
        Seq::empty()
    } else {
        seq![ParamSlot::Head]
    })
}

/// Number of parameter tensors an optimizer step updates for a model in
/// `mode` with `n_blocks` blocks: the token and position embeddings unless
/// the mode is "frozen", twelve tensors per block (two layer norms, the
/// attention and MLP projections with their biases), the final layer norm's
/// two, and the output head unless it is tied to the token embedding.
pub open spec fn optimizer_param_count(frozen: bool, n_blocks: nat, weight_tied: bool) -> nat {
    (if frozen { 0nat } else { 2nat }) + 12 * n_blocks + 2 + (if weight_tied { 0nat } else { 1nat })
}

/// Counts the parameter tensors an optimizer step updates, for a model in
/// `mode` with `n_blocks` blocks whose output head is `weight_tied` or not.
pub fn count_optimizer_params(mode: &str, n_blocks: usize, weight_tied: bool) -> (r: usize)
    requires
        n_blocks <= (usize::MAX - 5) / 12,
    ensures
        r == optimizer_param_count(mode@ == "frozen"@, n_blocks as nat, weight_tied),
{
    let frozen = same_text(mode, "frozen");
    let mut count: usize = 0;
    if !frozen {
        count += 2;
    }
    count += n_blocks * 12;
    count += 2;
    if !weight_tied {
        count += 1;
    }
    count
}

/// The optimizer updates exactly as many tensors as it counts.
pub proof fn lemma_slots_counted(frozen: bool, n_blocks: nat, weight_tied: bool)
    ensures
        optimizer_slots(frozen, n_blocks, weight_tied).len() == optimizer_param_count(
            frozen,
            n_blocks,
            weight_tied,
        ),
{
}

/// The `j`-th parameter of a block.
fn block_param_at(j: usize) -> (r: BlockParam)
    requires
        j < 12,
    ensures
        r == block_param(j as int),
{
    if j == 0 {
        BlockParam::Norm1Gamma
    } else if j == 1 {
        BlockParam::Norm1Beta
    } else if j == 2 {
        BlockParam::AttnWeight
    } else if j == 3 {
        BlockParam::AttnBias
    } else if j == 4 {
        BlockParam::AttnProjWeight
    } else if j == 5 {
        BlockParam::AttnProjBias
    } else if j == 6 {
        BlockParam::Norm2Gamma
    } else if j == 7 {
        BlockParam::Norm2Beta
    } else if j == 8 {
        BlockParam::FcWeight
    } else if j == 9 {
        BlockParam::FcBias
    } else if j == 10 {
        BlockParam::MlpProjWeight
    } else {
        BlockParam::MlpProjBias
    }
}

/// The parameter tensors an optimizer step updates for a model in `mode`
/// with `n_blocks` blocks whose output head is `weight_tied` or not, in
/// update order.
pub fn param_slots(mode: &str, n_blocks: usize, weight_tied: bool) -> (r: Vec<ParamSlot>)
    requires
        n_blocks <= (usize::MAX - 5) / 12,
    ensures
        r@ == optimizer_slots(mode@ == "frozen"@, n_blocks as nat, weight_tied),
{
    let frozen = same_text(mode, "frozen");
    let mut r: Vec<ParamSlot> = Vec::new();
    if !frozen {
        r.push(ParamSlot::TokenEmbedding);
        r.push(ParamSlot::PositionEmbedding);
    }
    let ghost head = r@;
    let ghost blocks = Seq::new(
        12 * n_blocks as nat,
        |i: int| ParamSlot::Block((i / 12) as usize, block_param(i % 12)),
    );
    let total = 12 * n_blocks;
    let mut i: usize = 0;
    while i < total
        invariant
            total == 12 * n_blocks,
            i <= total,
            blocks == Seq::new(
                12 * n_blocks as nat,
                |i: int| ParamSlot::Block((i / 12) as usize, block_param(i % 12)),
            ),
            r@ == head + blocks.take(i as int),
        decreases total - i,
    {
        r.push(ParamSlot::Block(i / 12, block_param_at(i % 12)));
        assert(blocks.take(i + 1) =~= blocks.take(i as int).push(blocks[i as int]));
        assert(r@ =~= head + blocks.take(i + 1));
        i = i + 1;
    }
    assert(blocks.take(total as int) =~= blocks);
    r.push(ParamSlot::FinalNormGamma);
    r.push(ParamSlot::FinalNormBeta);
    if !weight_tied {
        r.push(ParamSlot::Head);
    }
    assert(r@ =~= optimizer_slots(frozen, n_blocks as nat, weight_tied));
    r
}

/// Whether the optimizer applies weight decay to `slot`.
pub fn weight_decay(slot: ParamSlot) -> (r: bool)
    ensures
        r == decays(slot),
{
    match slot {
        ParamSlot::Block(_, p) => match p {
            BlockParam::AttnWeight | BlockParam::AttnProjWeight | BlockParam::FcWeight
            | BlockParam::MlpProjWeight => true,
            _ => false,
        },
        ParamSlot::Head => true,
        _ => false,
    }
}

} // verus!
