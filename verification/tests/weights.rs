use wave_coherence::dump_format::{decode_tensor, encode_tensor};
use wave_coherence::optimizer::count_optimizer_params;
use wave_coherence::weights::{is_analysis_target, weight_entries};

#[test]
fn analysis_targets() {
    assert!(is_analysis_target("blocks.0.attn.c_attn.weight"));
    assert!(is_analysis_target("blocks.3.mlp.c_proj.weight"));
    assert!(is_analysis_target("lm_head.weight"));
    assert!(!is_analysis_target("blocks.0.attn.c_attn.bias"));
    assert!(!is_analysis_target("blocks.0.ln_1.weight"));
    assert!(!is_analysis_target("ln_f.weight"));
    assert!(!is_analysis_target("wte.weight"));
    assert!(!is_analysis_target("wpe.weight"));
    assert!(!is_analysis_target("_harmonic_table.weight"));
    assert!(!is_analysis_target("weight"));
    assert!(is_analysis_target(".weight"));
    assert!(!is_analysis_target(""));
}

#[test]
fn dump_bytes_layout() {
    let bytes = encode_tensor(&[2, 3], &[1, 2, 3, 4, 5, 0xDEADBEEF]);
    assert_eq!(bytes.len(), 4 + 8 + 24);
    assert_eq!(&bytes[0..4], &[2, 0, 0, 0]);
    assert_eq!(&bytes[4..8], &[2, 0, 0, 0]);
    assert_eq!(&bytes[8..12], &[3, 0, 0, 0]);
    assert_eq!(&bytes[32..36], &0xDEADBEEFu32.to_le_bytes());
}

#[test]
fn dump_round_trip() {
    let values: Vec<u32> = [1.5f32, -2.0, 0.25, 3.0e-7, 7.0, 8.5]
        .iter()
        .map(|v| v.to_bits())
        .collect();
    let bytes = encode_tensor(&[3, 2], &values);
    let (shape, read) = decode_tensor(&bytes).unwrap();
    assert_eq!(shape, vec![3, 2]);
    assert_eq!(read, values);
    assert_eq!(f32::from_bits(read[1]), -2.0);
}

#[test]
fn dump_scalar_and_empty() {
    let bytes = encode_tensor(&[], &[42]);
    assert_eq!(decode_tensor(&bytes), Some((vec![], vec![42])));
    let bytes = encode_tensor(&[0, 5], &[]);
    assert_eq!(decode_tensor(&bytes), Some((vec![0, 5], vec![])));
}

#[test]
fn dump_trailing_bytes_ignored() {
    let mut bytes = encode_tensor(&[1], &[9]);
    bytes.extend_from_slice(&[1, 2, 3]);
    assert_eq!(decode_tensor(&bytes), Some((vec![1], vec![9])));
}

#[test]
fn dump_truncated_is_rejected() {
    assert_eq!(decode_tensor(&[]), None);
    assert_eq!(decode_tensor(&[1, 0, 0]), None);
    assert_eq!(decode_tensor(&[2, 0, 0, 0, 1, 0, 0, 0]), None);
    let bytes = encode_tensor(&[2, 2], &[1, 2, 3, 4]);
    assert_eq!(decode_tensor(&bytes[..bytes.len() - 1]), None);
}

#[test]
fn dump_overflowing_dims_rejected() {
    let bytes = encode_tensor(&[0xFFFF_FFFF, 0xFFFF_FFFF, 0xFFFF_FFFF, 0], &[]);
    assert_eq!(decode_tensor(&bytes), None);
}

#[test]
fn optimizer_param_counts() {
    assert_eq!(count_optimizer_params("baseline", 4, true), 2 + 48 + 2);
    assert_eq!(count_optimizer_params("harmonic", 4, false), 2 + 48 + 2 + 1);
    assert_eq!(count_optimizer_params("frozen", 4, false), 48 + 2 + 1);
    assert_eq!(count_optimizer_params("frozen", 0, true), 2);
}

fn strings(v: &[&str]) -> Vec<String> {
    v.iter().map(|s| s.to_string()).collect()
}

#[test]
fn weight_entries_keep_target_dumps_sorted() {
    let files = strings(&[
        "blocks.1.mlp.c_fc.weight.bin",
        "blocks.0.attn.c_attn.weight.bin",
        "blocks.0.ln_1.weight.bin",
        "blocks.0.attn.c_attn.bias.bin",
        "wte.weight.bin",
        "_harmonic_table.bin",
        "lm_head.weight.bin",
        "notes.txt",
        "blocks.0.attn.c_proj.weight",
    ]);
    assert_eq!(
        weight_entries(&files),
        strings(&["blocks.0.attn.c_attn.weight", "blocks.1.mlp.c_fc.weight", "lm_head.weight"])
    );
}

#[test]
fn weight_entries_of_nothing_relevant() {
    assert!(weight_entries(&strings(&[])).is_empty());
    assert!(weight_entries(&strings(&[".bin", "bin", "x.weight"])).is_empty());
}

#[test]
fn weight_entries_order_is_by_code_point() {
    let files = strings(&["b.weight.bin", "B.weight.bin", "a.weight.bin", "é.weight.bin", "a.weight.bin"]);
    assert_eq!(
        weight_entries(&files),
        strings(&["B.weight", "a.weight", "a.weight", "b.weight", "é.weight"])
    );
}
