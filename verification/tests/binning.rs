use noise_histogram::binning::bin_auto;
use noise_histogram::binning::bin_manual;
use noise_histogram::binning::choose_strategy;
use noise_histogram::binning::max_count;
use noise_histogram::binning::max_sample;
use noise_histogram::binning::BinningStrategy;
use noise_histogram::errors::NoiseError;
use noise_histogram::fixed::Fx;
use noise_histogram::fixed::SCALE;

fn fx(units: i64) -> Fx {
    Fx::new(units * SCALE)
}

#[test]
fn manual_contiguous_ranges_partition_the_span() {
    // Ranges tile [0, 5.999999] without gap or overlap: together they
    // count every sample lying in the span.
    let samples = vec![fx(0), fx(1), fx(2), fx(3), fx(4), fx(5)];
    let ranges = vec![
        (Fx { m: 0 }, Fx { m: 2 * SCALE + SCALE - 1 }),
        (Fx { m: 3 * SCALE }, Fx { m: 5 * SCALE + SCALE - 1 }),
    ];
    let bins = bin_manual(&ranges, &samples);
    assert_eq!(bins, vec![3, 3]);
    assert_eq!(bins.iter().map(|&c| c as usize).sum::<usize>(), samples.len());
}

#[test]
fn manual_overlapping_ranges_count_the_sample_twice() {
    // The sample at 2 lies in both ranges and raises both counts.
    let samples = vec![fx(1), fx(2), fx(5)];
    let ranges = vec![(fx(1), fx(2)), (fx(2), fx(3))];
    let bins = bin_manual(&ranges, &samples);
    assert_eq!(bins, vec![2, 1]);
}

#[test]
fn manual_gap_leaves_samples_uncounted() {
    let samples = vec![fx(1), fx(4)];
    let ranges = vec![(fx(2), fx(3))];
    assert_eq!(bin_manual(&ranges, &samples), vec![0]);
}

#[test]
fn manual_no_ranges_no_bins() {
    let samples = vec![fx(1)];
    let ranges: Vec<(Fx, Fx)> = Vec::new();
    assert_eq!(bin_manual(&ranges, &samples), Vec::<u32>::new());
}

#[test]
fn auto_example_partition() {
    // max 5, two bins: width 3, ranges [0, 3) and [3, 6), counts 3 and 3.
    let samples = vec![fx(0), fx(1), fx(2), fx(3), fx(4), fx(5)];
    let bins = bin_auto(2, &samples).unwrap();
    assert_eq!(bins, vec![3, 3]);
}

#[test]
fn auto_empty_buffer_is_rejected() {
    let samples: Vec<Fx> = Vec::new();
    assert_eq!(bin_auto(3, &samples), Err(NoiseError::EmptyInput));
}

#[test]
fn auto_zero_maximum_is_rejected() {
    let samples = vec![Fx { m: 0 }, Fx { m: -SCALE }];
    assert_eq!(bin_auto(3, &samples), Err(NoiseError::EmptyInput));
}

#[test]
fn auto_excludes_negative_and_edge_samples() {
    // -1 lies below the domain; 1.0 sits at the upper edge of the single
    // bin [0, 1) and is excluded too.
    let samples = vec![fx(-1), fx(1)];
    let bins = bin_auto(1, &samples).unwrap();
    assert_eq!(bins, vec![0]);
    let total: u64 = bins.iter().map(|&c| c as u64).sum();
    assert!(total <= samples.len() as u64);
}

#[test]
fn auto_sum_never_exceeds_sample_count() {
    let samples = vec![fx(0), fx(5), fx(10)];
    let bins = bin_auto(2, &samples).unwrap();
    // Bins are [0, 5) and [5, 10): the sample at 10 lands in neither.
    assert_eq!(bins, vec![1, 1]);
    let total: u64 = bins.iter().map(|&c| c as u64).sum();
    assert!(total <= samples.len() as u64);
}

#[test]
fn auto_zero_bins_gives_empty_result() {
    let samples = vec![fx(1)];
    assert_eq!(bin_auto(0, &samples), Ok(Vec::new()));
}

#[test]
fn auto_fractional_maximum_rounds_width_up() {
    // max 2.5 over two bins: ceil(1.25) = 2, so bins [0, 2) and [2, 4).
    let samples = vec![Fx { m: 2_500_000 }, fx(1)];
    let bins = bin_auto(2, &samples).unwrap();
    assert_eq!(bins, vec![1, 1]);
}

#[test]
fn max_sample_finds_largest() {
    let samples = vec![fx(3), fx(-2), fx(7), fx(1)];
    assert_eq!(max_sample(&samples).m, 7 * SCALE);
}

#[test]
fn max_count_of_bins() {
    assert_eq!(max_count(&Vec::new()), 0);
    assert_eq!(max_count(&vec![3, 7, 2]), 7);
}

#[test]
fn strategy_letter_m_in_either_case_selects_manual() {
    assert_eq!(choose_strategy(b"m"), BinningStrategy::Manual);
    assert_eq!(choose_strategy(b"M"), BinningStrategy::Manual);
    assert_eq!(choose_strategy(b"a"), BinningStrategy::Automatic);
    assert_eq!(choose_strategy(b""), BinningStrategy::Automatic);
    assert_eq!(choose_strategy(b"mm"), BinningStrategy::Automatic);
    assert_eq!(choose_strategy(b"x"), BinningStrategy::Automatic);
}
