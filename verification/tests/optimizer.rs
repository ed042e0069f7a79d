use wave_coherence::optimizer::{count_optimizer_params, param_slots, weight_decay, BlockParam, ParamSlot};

#[test]
fn slots_of_a_frozen_untied_model() {
    let slots = param_slots("frozen", 1, false);
    assert_eq!(
        slots,
        vec![
            ParamSlot::Block(0, BlockParam::Norm1Gamma),
            ParamSlot::Block(0, BlockParam::Norm1Beta),
            ParamSlot::Block(0, BlockParam::AttnWeight),
            ParamSlot::Block(0, BlockParam::AttnBias),
            ParamSlot::Block(0, BlockParam::AttnProjWeight),
            ParamSlot::Block(0, BlockParam::AttnProjBias),
            ParamSlot::Block(0, BlockParam::Norm2Gamma),
            ParamSlot::Block(0, BlockParam::Norm2Beta),
            ParamSlot::Block(0, BlockParam::FcWeight),
            ParamSlot::Block(0, BlockParam::FcBias),
            ParamSlot::Block(0, BlockParam::MlpProjWeight),
            ParamSlot::Block(0, BlockParam::MlpProjBias),
            ParamSlot::FinalNormGamma,
            ParamSlot::FinalNormBeta,
            ParamSlot::Head,
        ]
    );
}

#[test]
fn slots_of_a_tied_baseline() {
    let slots = param_slots("baseline", 2, true);
    assert_eq!(slots.len(), 2 + 24 + 2);
    assert_eq!(slots[0], ParamSlot::TokenEmbedding);
    assert_eq!(slots[1], ParamSlot::PositionEmbedding);
    assert_eq!(slots[2], ParamSlot::Block(0, BlockParam::Norm1Gamma));
    assert_eq!(slots[14], ParamSlot::Block(1, BlockParam::Norm1Gamma));
    assert_eq!(slots[25], ParamSlot::Block(1, BlockParam::MlpProjBias));
    assert_eq!(slots[27], ParamSlot::FinalNormBeta);
}

#[test]
fn slot_count_matches_the_optimizer_count() {
    for mode in ["baseline", "harmonic", "frozen"] {
        for n in 0..6 {
            for tied in [false, true] {
                assert_eq!(param_slots(mode, n, tied).len(), count_optimizer_params(mode, n, tied));
            }
        }
    }
}

#[test]
fn weight_decay_only_on_matrices() {
    let slots = param_slots("harmonic", 4, false);
    let decayed = slots.iter().filter(|&&s| weight_decay(s)).count();
    assert_eq!(decayed, 4 * 4 + 1);
    assert!(!weight_decay(ParamSlot::TokenEmbedding));
    assert!(!weight_decay(ParamSlot::PositionEmbedding));
    assert!(!weight_decay(ParamSlot::FinalNormGamma));
    assert!(!weight_decay(ParamSlot::Block(2, BlockParam::AttnBias)));
    assert!(!weight_decay(ParamSlot::Block(2, BlockParam::Norm2Beta)));
    assert!(weight_decay(ParamSlot::Block(2, BlockParam::FcWeight)));
    assert!(weight_decay(ParamSlot::Head));
}
