use wave_coherence::corpus;
use wave_coherence::cpu_data::{self, Dataset, BATCH_SIZE, BLOCK_SIZE};
use wave_coherence::rng::Rng;

fn sample_text() -> String {
    let mut s = String::new();
    for i in 0..100 {
        s.push_str("To be, or not to be: that is the question.\n");
        s.push_str(&format!("Line {} of the play.\n", i));
    }
    s
}

#[test]
fn vocabulary_is_sorted_distinct_characters() {
    let d = Dataset::new("hello world");
    assert_eq!(d.itos, vec![' ', 'd', 'e', 'h', 'l', 'o', 'r', 'w']);
    assert_eq!(d.vocab_size, 8);
}

#[test]
fn split_is_ninety_percent() {
    let d = Dataset::new("hello world");
    assert_eq!(d.train.len(), 9);
    assert_eq!(d.val.len(), 2);
    assert_eq!(d.train, vec![3, 2, 4, 4, 5, 0, 7, 5, 6]);
    assert_eq!(d.val, vec![4, 1]);
    let d = Dataset::new("abcdefghij");
    assert_eq!(d.train.len(), 9);
    let d = Dataset::new("abcdefghi");
    assert_eq!(d.train.len(), 8);
}

#[test]
fn empty_text() {
    let d = Dataset::new("");
    assert_eq!(d.vocab_size, 0);
    assert!(d.train.is_empty());
    assert!(d.val.is_empty());
}

#[test]
fn decode_gives_text_back() {
    let text = sample_text();
    let d = Dataset::new(&text);
    let mut all = d.train.clone();
    all.extend_from_slice(&d.val);
    assert_eq!(d.decode(&all), text);
    assert!(all.iter().all(|&t| t < d.vocab_size));
}

#[test]
fn decode_non_ascii() {
    let text = "héllo wörld ♪";
    let d = Dataset::new(text);
    let mut all = d.train.clone();
    all.extend_from_slice(&d.val);
    assert_eq!(d.decode(&all), text);
    assert_eq!(d.itos.last(), Some(&'♪'));
}

#[test]
fn batch_rows_are_shifted_windows() {
    let text = sample_text();
    let d = Dataset::new(&text);
    let mut rng = Rng::new(42);
    let (inputs, targets) = d.get_batch("train", &mut rng);
    assert_eq!(inputs.len(), BATCH_SIZE);
    assert_eq!(targets.len(), BATCH_SIZE);
    for (x, y) in inputs.iter().zip(targets.iter()) {
        assert_eq!(x.len(), BLOCK_SIZE);
        assert_eq!(y.len(), BLOCK_SIZE);
        assert_eq!(&x[1..], &y[..BLOCK_SIZE - 1]);
        let start = d.train.windows(BLOCK_SIZE).position(|w| w == &x[..]).unwrap();
        assert_eq!(&d.train[start + 1..start + BLOCK_SIZE + 1], &y[..]);
    }
}

#[test]
fn batch_starts_follow_the_generator() {
    let text = sample_text();
    let d = Dataset::new(&text);
    let mut rng = Rng::new(5);
    let (inputs, _) = d.get_batch("val", &mut rng);
    let mut replay = Rng::new(5);
    let max_start = d.val.len() - BLOCK_SIZE - 1;
    for x in &inputs {
        let s = replay.usize(max_start);
        assert_eq!(&x[..], &d.val[s..s + BLOCK_SIZE]);
    }
    assert_eq!(rng.next_u64(), replay.next_u64());
}

#[test]
fn batch_from_shortest_split() {
    let text: String = (0..BLOCK_SIZE * 11).map(|i| if i % 3 == 0 { 'a' } else { 'b' }).collect();
    let d = Dataset::new(&text);
    assert!(d.val.len() >= BLOCK_SIZE + 1);
    let mut rng = Rng::new(3);
    let (inputs, targets) = d.get_batch("val", &mut rng);
    assert_eq!(inputs.len(), BATCH_SIZE);
    assert_eq!(targets[0].len(), BLOCK_SIZE);
}

#[test]
fn corpus_matches_the_usize_encoding() {
    let text = sample_text();
    let a = Dataset::new(&text);
    let b = corpus::Dataset::new(&text);
    assert_eq!(a.itos, b.itos);
    assert_eq!(a.vocab_size, b.vocab_size);
    let ta: Vec<u32> = a.train.iter().map(|&t| t as u32).collect();
    assert_eq!(ta, b.train);
    assert_eq!(b.train.len(), cpu_data::Dataset::new(&text).train.len());
}

#[test]
fn corpus_batch_is_rows_of_windows() {
    let text = sample_text();
    let d = corpus::Dataset::new(&text);
    let (x, y) = d.get_batch("train");
    assert_eq!(x.len(), corpus::BATCH_SIZE * corpus::BLOCK_SIZE);
    assert_eq!(y.len(), corpus::BATCH_SIZE * corpus::BLOCK_SIZE);
    for b in 0..corpus::BATCH_SIZE {
        let row = &x[b * corpus::BLOCK_SIZE..(b + 1) * corpus::BLOCK_SIZE];
        let next = &y[b * corpus::BLOCK_SIZE..(b + 1) * corpus::BLOCK_SIZE];
        assert_eq!(&row[1..], &next[..corpus::BLOCK_SIZE - 1]);
        let start = d.train.windows(corpus::BLOCK_SIZE).position(|w| w == row).unwrap();
        assert!(start < d.train.len() - corpus::BLOCK_SIZE - 1);
    }
}

#[test]
fn batch_from_given_starts() {
    let data: Vec<u32> = (0..600).collect();
    let (x, y) = corpus::batch_from_starts(&data, &vec![0, 10, 300]);
    assert_eq!(x.len(), 3 * corpus::BLOCK_SIZE);
    assert_eq!(x[0], 0);
    assert_eq!(x[corpus::BLOCK_SIZE - 1], 255);
    assert_eq!(x[corpus::BLOCK_SIZE], 10);
    assert_eq!(x[2 * corpus::BLOCK_SIZE], 300);
    assert_eq!(y[0], 1);
    assert_eq!(y[3 * corpus::BLOCK_SIZE - 1], 556);
    let (x, y) = corpus::batch_from_starts(&data, &vec![]);
    assert!(x.is_empty() && y.is_empty());
}

#[test]
fn sampled_starts_stay_in_range() {
    for max in [1usize, 2, 5, 1000] {
        for _ in 0..200 {
            assert!(corpus::sample_start(max) < max);
        }
    }
    assert_eq!(corpus::sample_start(1), 0);
}

#[test]
fn split_is_ninety_percent_as_doubles() {
    let mut lengths: Vec<usize> = (0..400).collect();
    lengths.extend([1_000, 1_003_854, 1_115_394]);
    for n in lengths {
        let text: String = (0..n).map(|i| if i % 7 == 0 { 'a' } else { 'b' }).collect();
        let expected = (n as f64 * 0.9) as usize;
        assert_eq!(cpu_data::Dataset::new(&text).train.len(), expected);
        assert_eq!(corpus::Dataset::new(&text).train.len(), expected);
    }
}
