use wave_coherence::bands::{chimera, keep_bands, make_wave_packet};

#[test]
fn chimera_splits_by_harmonic() {
    let a: Vec<i32> = (0..8).collect();
    let b: Vec<i32> = (100..108).collect();
    assert_eq!(chimera(&a, &b, 2), vec![0, 1, 2, 3, 104, 105, 106, 107]);
    assert_eq!(chimera(&a, &b, 0), b);
    assert_eq!(chimera(&a, &b, 4), a);
    assert_eq!(chimera(&a, &b, 99), a);
}

#[test]
fn chimera_of_floats() {
    let a = vec![0.5f64, -0.5, 0.25, -0.25];
    let b = vec![1.0f64, 2.0, 3.0, 4.0];
    assert_eq!(chimera(&a, &b, 1), vec![0.5, -0.5, 3.0, 4.0]);
    let empty: Vec<f64> = vec![];
    assert!(chimera(&empty, &empty, 3).is_empty());
}

#[test]
fn wave_packet_keeps_existing_bands_in_order() {
    let amps = vec![1.0f64, 2.0, 3.0, 4.0];
    let phases = vec![0.1f64, 0.2, 0.3];
    let packet = make_wave_packet(&amps, &phases, &[3, 1, 7, 0, 2]);
    let ns: Vec<usize> = packet.iter().map(|e| e.n).collect();
    assert_eq!(ns, vec![1, 0, 2]);
    assert_eq!(packet[0].amplitude, 2.0);
    assert_eq!(packet[0].phase, 0.2);
    assert_eq!(packet[2].amplitude, 3.0);
    assert!(make_wave_packet(&amps, &phases, &[]).is_empty());
}

#[test]
fn keep_bands_zero_fills_the_rest() {
    let coeffs = vec![10, 11, 12, 13, 14];
    assert_eq!(keep_bands(&coeffs, &[1, 3], 0), vec![0, 11, 0, 13, 0]);
    assert_eq!(keep_bands(&coeffs, &[4, 4, 9], -1), vec![-1, -1, -1, -1, 14]);
    assert_eq!(keep_bands(&coeffs, &[], 0), vec![0; 5]);
    assert_eq!(keep_bands(&coeffs, &[0, 1, 2, 3, 4], 0), coeffs);
    let empty: Vec<i32> = vec![];
    assert!(keep_bands(&empty, &[0, 1], 7).is_empty());
}
