use wave_coherence::modes::{common_names, mode_precedes, reference_mode_index, sort_modes};

fn strings(v: &[&str]) -> Vec<String> {
    v.iter().map(|s| s.to_string()).collect()
}

#[test]
fn modes_in_preferred_then_alphabetical_order() {
    let found = strings(&["zeta", "frozen", "baseline", "alpha", "frozen_standard", "harmonic"]);
    let sorted = sort_modes(&found);
    assert_eq!(
        sorted,
        strings(&["frozen_standard", "baseline", "harmonic", "frozen", "alpha", "zeta"])
    );
}

#[test]
fn unknown_modes_alphabetical() {
    let found = strings(&["b", "ab", "a", "abc", "B"]);
    assert_eq!(sort_modes(&found), strings(&["B", "a", "ab", "abc", "b"]));
    let mut check = found.clone();
    check.sort();
    assert_eq!(sort_modes(&found), check);
}

#[test]
fn sorting_keeps_duplicates() {
    let found = strings(&["frozen", "x", "frozen"]);
    assert_eq!(sort_modes(&found), strings(&["frozen", "frozen", "x"]));
    assert!(sort_modes(&vec![]).is_empty());
}

#[test]
fn precedence() {
    assert!(mode_precedes("curriculum_pre", "curriculum"));
    assert!(!mode_precedes("curriculum", "curriculum_pre"));
    assert!(mode_precedes("curriculum", "aaa"));
    assert!(mode_precedes("x", "x"));
}

#[test]
fn common_weight_names() {
    let first = strings(&["a.weight", "b.weight", "c.weight"]);
    let others = vec![
        strings(&["c.weight", "a.weight"]),
        strings(&["a.weight", "b.weight", "c.weight"]),
    ];
    assert_eq!(common_names(&first, &others), strings(&["a.weight", "c.weight"]));
    assert_eq!(common_names(&first, &vec![]), first);
}

#[test]
fn reference_mode_choice() {
    assert_eq!(reference_mode_index(&strings(&["a", "baseline", "frozen_standard"])), 2);
    assert_eq!(reference_mode_index(&strings(&["a", "baseline", "b"])), 1);
    assert_eq!(reference_mode_index(&strings(&["a", "b"])), 0);
}
