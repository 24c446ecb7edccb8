//! Unit tests of the primitives: checksums, filters, the trial order, the
//! ceiling counter and the options presets.

use pngopt::atomicmin::AtomicMin;
use pngopt::crc::crc32_range;
use pngopt::deadline::Deadline;
use pngopt::filters::{filter_row, unfilter_row, paeth, RowFilter};
use pngopt::{trial_better, Options, TrialOptions};

#[test]
fn crc32_known_value() {
    let data = b"123456789".to_vec();
    assert_eq!(crc32_range(&data, 0, 9), 0xCBF4_3926);
}

#[test]
fn crc32_empty() {
    let data: Vec<u8> = Vec::new();
    assert_eq!(crc32_range(&data, 0, 0), 0);
}

#[test]
fn filter_round_trip_all_filters() {
    let cur = vec![3u8, 200, 9, 255, 0, 17, 99, 254];
    let prev = vec![1u8, 2, 250, 3, 128, 0, 44, 5];
    for tag in 0u8..=4 {
        let filt = filter_row(&cur, &prev, 3, tag);
        let back = unfilter_row(&filt, &prev, 3, tag);
        assert_eq!(back, cur, "filter tag {}", tag);
    }
}

#[test]
fn paeth_prefers_closest() {
    // estimate p = a + b - c; the closest of a, b, c wins, ties toward a
    assert_eq!(paeth(3, 4, 5), 3);
    assert_eq!(paeth(10, 20, 15), 15);
    assert_eq!(paeth(0, 0, 0), 0);
    assert_eq!(paeth(255, 0, 255), 0);
}

#[test]
fn trial_order_is_lexicographic() {
    let a = TrialOptions {
        filter: RowFilter::NoFilter,
        compression: 5,
    };
    let b = TrialOptions {
        filter: RowFilter::Sub,
        compression: 5,
    };
    assert!(trial_better(10, b, 11, a));
    assert!(trial_better(10, a, 10, b));
    assert!(!trial_better(10, b, 10, a));
    let c = TrialOptions {
        filter: RowFilter::Sub,
        compression: 4,
    };
    assert!(trial_better(10, c, 10, b));
}

#[test]
fn atomic_min_is_monotonic() {
    let mut m = AtomicMin::new(None);
    assert!(m.set_min(100));
    assert!(!m.set_min(100));
    assert!(m.set_min(99));
    assert_eq!(m.get(), Some(99));
    assert!(!m.set_min(200));
    assert_eq!(m.get(), Some(99));
}

#[test]
fn deadline_without_timeout_never_fires() {
    let d = Deadline::new(None);
    assert!(!d.passed());
}

#[test]
fn deadline_zero_timeout_fires() {
    let d = Deadline::new(Some(0));
    let t = std::time::Instant::now();
    while t.elapsed().as_millis() < 5 {}
    assert!(d.passed());
}

#[test]
fn default_options_shape() {
    let o = Options::default_options();
    assert!(!o.force);
    assert_eq!(o.filter.len(), 4);
    assert!(o.bit_depth_reduction && o.color_type_reduction);
    assert_eq!(o.compression_level(), 11);
}

#[test]
fn presets_change_effort() {
    let o0 = Options::from_preset(0);
    assert_eq!(o0.compression_level(), 5);
    assert!(o0.filter.is_empty());
    let o6 = Options::max_compression();
    assert_eq!(o6.compression_level(), 12);
    assert!(!o6.fast_evaluation);
}

#[test]
fn deflate_round_trip() {
    let data: Vec<u8> = (0..=255u8).chain(0..=255u8).collect();
    let best = AtomicMin::new(None);
    let compressed = pngopt::deflate::deflate(&data, 9, &best).unwrap();
    let back = pngopt::deflate::inflate(&compressed, data.len()).unwrap();
    assert_eq!(back, data);
}

#[test]
fn deflate_respects_ceiling() {
    let data: Vec<u8> = (0..1000u32).map(|i| (i % 251) as u8).collect();
    let best = AtomicMin::new(Some(1));
    let r = pngopt::deflate::deflate(&data, 2, &best);
    assert!(r.is_err());
}
