use rand::rngs::mock::StepRng;
use rand::rngs::StdRng;
use rand::{thread_rng, Error, RngCore, SeedableRng};
use reservoir::{place, sample, sample_into};

/// A random source that makes `gen_range` return a chosen index at each draw,
/// and counts how often it is asked for bits.
struct Scripted {
    words: Vec<u64>,
    calls: usize,
}

impl Scripted {
    /// `plan` holds, for each draw in turn, the index wanted and the bound of
    /// the range that the draw is made from.
    fn new(plan: &[(usize, usize)]) -> Scripted {
        let mut words = Vec::new();
        for &(index, bound) in plan {
            assert!(index < bound);
            let scaled = (index as u128) << usize::BITS;
            let word = (scaled + bound as u128 - 1) / bound as u128;
            words.push(word as u64);
        }
        Scripted { words, calls: 0 }
    }

    fn word(&mut self) -> u64 {
        let word = self.words[self.calls];
        self.calls += 1;
        word
    }
}

impl RngCore for Scripted {
    fn next_u32(&mut self) -> u32 {
        self.word() as u32
    }

    fn next_u64(&mut self) -> u64 {
        self.word()
    }

    fn fill_bytes(&mut self, dest: &mut [u8]) {
        for byte in dest.iter_mut() {
            *byte = self.word() as u8;
        }
    }

    fn try_fill_bytes(&mut self, dest: &mut [u8]) -> Result<(), Error> {
        self.fill_bytes(dest);
        Ok(())
    }
}

/// A source that always answers zero, so that every draw comes out as index
/// zero, and that counts the draws.
struct Zeros {
    calls: usize,
}

impl RngCore for Zeros {
    fn next_u32(&mut self) -> u32 {
        self.calls += 1;
        0
    }

    fn next_u64(&mut self) -> u64 {
        self.calls += 1;
        0
    }

    fn fill_bytes(&mut self, dest: &mut [u8]) {
        for byte in dest.iter_mut() {
            *byte = 0;
        }
    }

    fn try_fill_bytes(&mut self, dest: &mut [u8]) -> Result<(), Error> {
        self.fill_bytes(dest);
        Ok(())
    }
}

#[test]
fn sample_of_four_from_ten() {
    let samples = sample(&mut thread_rng(), 4, 0..10);
    assert_eq!(4, samples.len());
    assert!(samples.iter().all(|e| *e >= 0 && *e < 10));
}

#[test]
fn oversized_sample_returns_source_in_order() {
    let samples: Vec<i32> = sample(&mut thread_rng(), 20, 0..10);
    let expected: Vec<i32> = (0..10).collect();
    assert_eq!(expected, samples);
}

#[test]
fn sample_size_equal_to_length_returns_source_in_order() {
    let mut rng = Zeros { calls: 0 };
    let samples: Vec<i32> = sample(&mut rng, 10, 0..10);
    assert_eq!(vec![0, 1, 2, 3, 4, 5, 6, 7, 8, 9], samples);
    assert_eq!(0, rng.calls);
}

#[test]
fn zero_sample_size_keeps_nothing() {
    let samples: Vec<i32> = sample(&mut thread_rng(), 0, 0..10);
    assert!(samples.is_empty());
}

#[test]
fn zero_sample_size_still_draws_once_per_item() {
    let mut rng = Zeros { calls: 0 };
    let samples: Vec<i32> = sample(&mut rng, 0, 0..10);
    assert!(samples.is_empty());
    assert_eq!(10, rng.calls);
}

#[test]
fn empty_source_gives_empty_sample() {
    let mut rng = Zeros { calls: 0 };
    let samples: Vec<i32> = sample(&mut rng, 4, 0..0);
    assert!(samples.is_empty());
    assert_eq!(0, rng.calls);
}

#[test]
fn sample_into_empty_vector() {
    let mut samples: Vec<i32> = Vec::new();
    sample_into(&mut samples, &mut thread_rng(), 4, 0..10);
    assert_eq!(4, samples.len());
    assert!(samples.iter().all(|e| *e >= 0 && *e < 10));
}

#[test]
fn sample_into_preserves_prefix() {
    let mut samples: Vec<i32> = vec![99, 100];
    sample_into(&mut samples, &mut thread_rng(), 4, 0..10);
    assert_eq!(6, samples.len());
    assert_eq!(99, samples[0]);
    assert_eq!(100, samples[1]);
    assert!(samples[2..].iter().all(|e| *e >= 0 && *e < 10));
}

#[test]
fn sample_into_short_source_appends_all_in_order() {
    let mut samples: Vec<i32> = vec![99, 100];
    sample_into(&mut samples, &mut thread_rng(), 20, 0..3);
    assert_eq!(vec![99, 100, 0, 1, 2], samples);
}

#[test]
fn scripted_draws_give_exact_reservoir() {
    let plan = [(2, 5), (5, 6), (0, 7), (7, 8), (3, 9), (2, 10)];
    let mut rng = Scripted::new(&plan);
    let samples: Vec<i32> = sample(&mut rng, 4, 0..10);
    assert_eq!(vec![6, 1, 9, 8], samples);
    assert_eq!(6, rng.calls);
}

#[test]
fn scripted_draws_leave_prefix_alone() {
    let plan = [(1, 3), (3, 4), (0, 5)];
    let mut rng = Scripted::new(&plan);
    let mut samples: Vec<char> = vec!['x', 'y', 'z'];
    sample_into(&mut samples, &mut rng, 2, "abcde".chars());
    assert_eq!(vec!['x', 'y', 'z', 'e', 'c'], samples);
    assert_eq!(3, rng.calls);
}

#[test]
fn draws_beyond_sample_size_discard_the_item() {
    let plan = [(4, 5), (5, 6), (6, 7), (4, 8), (8, 9), (9, 10)];
    let mut rng = Scripted::new(&plan);
    let samples: Vec<i32> = sample(&mut rng, 4, 0..10);
    assert_eq!(vec![0, 1, 2, 3], samples);
    assert_eq!(6, rng.calls);
}

#[test]
fn draw_of_zero_replaces_first_place() {
    let mut rng = StepRng::new(0, 0);
    let samples: Vec<i32> = sample(&mut rng, 4, 0..10);
    assert_eq!(vec![9, 1, 2, 3], samples);
}

#[test]
fn draw_count_is_length_minus_sample_size() {
    for n in 0..12usize {
        for k in 0..14usize {
            let mut rng = Zeros { calls: 0 };
            let samples = sample(&mut rng, k, 0..n);
            let expected = if n > k { n - k } else { 0 };
            assert_eq!(expected, rng.calls);
            assert_eq!(if n < k { n } else { k }, samples.len());
        }
    }
}

#[test]
fn size_is_min_of_sample_size_and_length() {
    let mut rng = StdRng::seed_from_u64(7);
    for n in 0..20usize {
        for k in 0..25usize {
            let samples = sample(&mut rng, k, 0..n);
            assert_eq!(if n < k { n } else { k }, samples.len());
        }
    }
}

#[test]
fn every_sampled_item_comes_from_the_source() {
    let mut rng = StdRng::seed_from_u64(11);
    let source: Vec<u32> = vec![3, 14, 15, 92, 65, 35, 89, 79, 32, 38, 46];
    for k in 0..15usize {
        let samples = sample(&mut rng, k, source.iter().copied());
        assert!(samples.iter().all(|e| source.contains(e)));
    }
}

#[test]
fn sampled_items_are_distinct_items_of_the_source() {
    let mut rng = StdRng::seed_from_u64(13);
    for _ in 0..200 {
        let mut samples = sample(&mut rng, 5, 0..30);
        samples.sort();
        samples.dedup();
        assert_eq!(5, samples.len());
    }
}

#[test]
fn works_on_owned_strings() {
    let lines = vec![String::from("a"), String::from("b"), String::from("c")];
    let plan = [(1, 3)];
    let mut rng = Scripted::new(&plan);
    let samples = sample(&mut rng, 2, lines.into_iter());
    assert_eq!(vec![String::from("a"), String::from("c")], samples);
}

#[test]
fn inclusion_frequency_is_near_k_over_n() {
    let mut rng = StdRng::seed_from_u64(2024);
    let n = 10usize;
    let k = 3usize;
    let trials = 20000usize;
    let mut item_hits = vec![0usize; n];
    let mut place_hits = vec![vec![0usize; n]; k];
    for _ in 0..trials {
        let samples = sample(&mut rng, k, 0..n);
        for (position, item) in samples.iter().enumerate() {
            item_hits[*item] += 1;
            place_hits[position][*item] += 1;
        }
    }
    let expected = k as f64 / n as f64;
    for hits in item_hits.iter() {
        let frequency = *hits as f64 / trials as f64;
        assert!((frequency - expected).abs() < 0.02);
    }
    let early: usize = item_hits[..n / 2].iter().sum();
    let late: usize = item_hits[n / 2..].iter().sum();
    let balance = early as f64 / (early + late) as f64;
    assert!((balance - 0.5).abs() < 0.02);
    for position in 0..k {
        let total: usize = place_hits[position].iter().sum();
        assert_eq!(trials, total);
    }
}

#[test]
fn place_writes_inside_the_reservoir() {
    let mut samples = vec![99, 100, 1, 2, 3];
    place(&mut samples, 2, 3, 1, 7);
    assert_eq!(vec![99, 100, 1, 7, 3], samples);
    place(&mut samples, 2, 3, 0, 8);
    assert_eq!(vec![99, 100, 8, 7, 3], samples);
    place(&mut samples, 2, 3, 2, 9);
    assert_eq!(vec![99, 100, 8, 7, 9], samples);
}

#[test]
fn place_discards_on_index_at_or_beyond_sample_size() {
    let mut samples = vec![99, 100, 1, 2, 3];
    place(&mut samples, 2, 3, 3, 7);
    assert_eq!(vec![99, 100, 1, 2, 3], samples);
    place(&mut samples, 2, 3, 1000, 7);
    assert_eq!(vec![99, 100, 1, 2, 3], samples);
}

#[test]
fn place_with_zero_sample_size_never_writes() {
    let mut samples: Vec<i32> = Vec::new();
    place(&mut samples, 0, 0, 0, 7);
    assert!(samples.is_empty());
}

#[test]
fn every_item_is_kept_by_the_same_share_of_all_records() {
    let n = 5usize;
    let k = 2usize;
    let mut kept = vec![0usize; n];
    let mut records = 0usize;
    for first in 0..3usize {
        for second in 0..4usize {
            for third in 0..5usize {
                let plan = [(first, 3), (second, 4), (third, 5)];
                let mut rng = Scripted::new(&plan);
                let samples = sample(&mut rng, k, 0..n);
                assert_eq!(k, samples.len());
                assert_eq!(3, rng.calls);
                for item in samples.iter() {
                    kept[*item] += 1;
                }
                records += 1;
            }
        }
    }
    assert_eq!(60, records);
    for count in kept.iter() {
        assert_eq!(24, *count);
        assert_eq!(k * records, *count * n);
    }
}
