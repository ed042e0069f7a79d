use wave_coherence::budget::{block_params, lc_params, mlp_equivalent_params, model_params};

#[test]
fn lc_layer_budget_per_layer() {
    // 64 bands: 64 gains + 64 phases + 5 offsets x 2x2 coupling.
    assert_eq!(lc_params(1, 64, 2), 148);
}

#[test]
fn lc_layer_budget_four_layers() {
    assert_eq!(lc_params(4, 64, 2), 592);
}

#[test]
fn lc_layer_budget_without_layers_or_coupling() {
    assert_eq!(lc_params(0, 64, 2), 0);
    assert_eq!(lc_params(3, 10, 0), 3 * (20 + 4));
}

#[test]
fn mlp_budget_per_layer() {
    // 128x512 + 512 + 512x128 + 128.
    assert_eq!(mlp_equivalent_params(1, 128), 131712);
}

#[test]
fn mlp_budget_four_layers() {
    assert_eq!(mlp_equivalent_params(4, 128), 526848);
}

#[test]
fn block_budget_counts_both_layer_norms() {
    // Two layer norms of 128 (gain and shift each), attention 49536 + 16512, MLP 131712.
    assert_eq!(block_params(128, 49536 + 16512, 131712), 512 + 66048 + 131712);
    assert_eq!(block_params(0, 0, 0), 0);
}

#[test]
fn model_budget_by_mode() {
    let blocks = vec![10, 20, 30];
    // Harmonic, untied head: embeddings + blocks + final norm + head.
    assert_eq!(model_params("harmonic", 100, &blocks, 4, 7, false), 100 + 60 + 8 + 7);
    // Frozen embeddings do not count.
    assert_eq!(model_params("frozen", 100, &blocks, 4, 7, false), 60 + 8 + 7);
    // A tied head shares the token embedding.
    assert_eq!(model_params("baseline", 100, &blocks, 4, 7, true), 100 + 60 + 8);
    assert_eq!(model_params("baseline", 0, &vec![], 0, 0, true), 0);
}
