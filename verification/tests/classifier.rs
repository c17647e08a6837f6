use rusty_chromaprint::classifier::{
    calculate_subfingerprint, gray_code, Classifier, Quantizer, THRESHOLD_SCALE,
};
use rusty_chromaprint::filter::{Filter, FilterKind};
use rusty_chromaprint::fingerprint_calculator::FingerprintCalculator;
use rusty_chromaprint::fingerprinter::Configuration;
use rusty_chromaprint::stages::Stage;

/// A value in the units of the thresholds.
fn units(value: f64) -> i64 {
    (value * THRESHOLD_SCALE as f64).round() as i64
}

#[test]
fn quantization() {
    let q = Quantizer::new(units(0.0), units(0.1), units(0.3));
    assert_eq!(0, q.quantize(units(-0.1)));
    assert_eq!(1, q.quantize(units(0.0)));
    assert_eq!(1, q.quantize(units(0.03)));
    assert_eq!(2, q.quantize(units(0.1)));
    assert_eq!(2, q.quantize(units(0.13)));
    assert_eq!(3, q.quantize(units(0.3)));
    assert_eq!(3, q.quantize(units(0.33)));
    assert_eq!(3, q.quantize(units(1000.0)));
}

#[test]
fn quantizer_is_monotonic() {
    let q = Quantizer::new(-5, 7, 7);
    let mut last = 0;
    for value in -20..20 {
        let level = q.quantize(value);
        assert!(level >= last);
        last = level;
    }
    assert_eq!(q.quantize(-6), 0);
    assert_eq!(q.quantize(-5), 1);
    assert_eq!(q.quantize(6), 1);
    assert_eq!(q.quantize(7), 3);
    assert_eq!(q.quantize(i64::MIN), 0);
    assert_eq!(q.quantize(i64::MAX), 3);
    assert_eq!(q.thresholds(), (-5, 7, 7));
}

#[test]
fn level_from_comparisons() {
    assert_eq!(Quantizer::level(true, true, true), 0);
    assert_eq!(Quantizer::level(false, true, true), 1);
    assert_eq!(Quantizer::level(false, false, true), 2);
    assert_eq!(Quantizer::level(false, false, false), 3);
    // thresholds that are not in ascending order
    assert_eq!(Quantizer::level(true, false, true), 2);
    assert_eq!(Quantizer::level(true, false, false), 3);
    assert_eq!(Quantizer::level(true, true, false), 0);
    assert_eq!(Quantizer::level(false, true, false), 1);
}

#[test]
fn gray_codes_of_neighbours_differ_in_one_bit() {
    assert_eq!(
        [gray_code(0), gray_code(1), gray_code(2), gray_code(3)],
        [0, 1, 3, 2]
    );
    for level in 0..3 {
        assert_eq!((gray_code(level) ^ gray_code(level + 1)).count_ones(), 1);
    }
}

#[test]
fn subfingerprint_from_levels() {
    assert_eq!(calculate_subfingerprint(&[]), 0);
    assert_eq!(calculate_subfingerprint(&[2]), 3);
    assert_eq!(calculate_subfingerprint(&[1, 2, 3, 0]), 0b01_11_10_00);
    assert_eq!(calculate_subfingerprint(&[3; 16]), 0xaaaa_aaaa);
    assert_eq!(calculate_subfingerprint(&[2; 16]), 0xffff_ffff);
    let mut levels = [0u32; 16];
    levels[0] = 1;
    assert_eq!(calculate_subfingerprint(&levels), 0x4000_0000);
    levels[15] = 3;
    assert_eq!(calculate_subfingerprint(&levels), 0x4000_0002);
    // with more than sixteen levels the first ones are shifted out
    assert_eq!(calculate_subfingerprint(&[1; 17]), 0x5555_5555);
}

#[test]
fn calculator_gives_a_window_once_the_image_is_wide_enough() {
    let classifiers = vec![
        Classifier::new(Filter::new(FilterKind::Filter0, 0, 3, 2), Quantizer::new(0, 1, 2)),
        Classifier::new(Filter::new(FilterKind::Filter1, 0, 4, 3), Quantizer::new(0, 1, 2)),
    ];
    let mut calculator = FingerprintCalculator::new(classifiers);
    assert_eq!(calculator.window(), None);
    let slot = calculator.add_row(12);
    assert_eq!((slot.start, slot.previous), (0, None));
    assert_eq!(calculator.window(), None);
    calculator.add_row(12);
    assert_eq!(calculator.window(), None);
    let slot = calculator.add_row(12);
    assert_eq!((slot.start, slot.previous), (24, Some(12)));
    assert_eq!(calculator.window(), Some(0));
    calculator.push_levels(&[1, 2]);
    calculator.add_row(12);
    assert_eq!(calculator.window(), Some(1));
    calculator.push_levels(&[3, 0]);
    assert_eq!(calculator.fingerprint(), &[0b0111, 0b1000]);
    assert_eq!(calculator.output(), &[0b0111, 0b1000]);
    assert_eq!(calculator.image().rows(), 4);
    assert_eq!(calculator.classifiers().len(), 2);
    calculator.clear_fingerprint();
    assert_eq!(calculator.fingerprint(), &[] as &[u32]);
    assert_eq!(calculator.window(), Some(1));
    calculator.push_levels(&[0, 1]);
    calculator.reset();
    assert_eq!(calculator.fingerprint(), &[] as &[u32]);
    assert_eq!(calculator.window(), None);
    assert_eq!(calculator.image().columns(), 0);
}

#[test]
fn calculator_of_a_preset_waits_for_sixteen_rows() {
    let config = Configuration::preset_test1();
    let mut calculator = FingerprintCalculator::new(config.classifiers().clone());
    for row in 0..300usize {
        let slot = calculator.add_row(12);
        assert_eq!(slot.start, (row % 256) * 12);
        let expected = if row + 1 >= 16 { Some(row + 1 - 16) } else { None };
        assert_eq!(calculator.window(), expected);
    }
}
