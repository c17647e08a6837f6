use rusty_chromaprint::classifier::THRESHOLD_SCALE;
use rusty_chromaprint::filter::FilterKind;
use rusty_chromaprint::fingerprinter::Configuration;

fn threshold(units: i64) -> f64 {
    units as f64 / THRESHOLD_SCALE as f64
}

#[test]
fn presets_have_their_numbers() {
    assert_eq!(Configuration::preset_test1().id(), 0);
    assert_eq!(Configuration::preset_test2().id(), 1);
    assert_eq!(Configuration::preset_test3().id(), 2);
    assert_eq!(Configuration::preset_test4().id(), 3);
    assert_eq!(Configuration::preset_test5().id(), 4);
    assert_eq!(Configuration::default().id(), 1);
}

#[test]
fn presets_of_the_first_three_algorithms_are_usable() {
    for (config, interpolate) in [
        (Configuration::preset_test1(), false),
        (Configuration::preset_test2(), false),
        (Configuration::preset_test3(), true),
    ] {
        assert!(config.is_usable());
        assert_eq!(config.classifiers().len(), 16);
        assert_eq!(config.max_filter_width(), 16);
        assert_eq!(config.frame_size(), 4096);
        assert_eq!(config.frame_overlap(), 4096 - 4096 / 3);
        assert_eq!(config.samples_in_item(), 1365);
        assert_eq!(config.sample_rate(), 11025);
        assert_eq!(config.interpolate(), interpolate);
        assert_eq!(config.removed_silence(), None);
        let coefficients: Vec<f64> =
            config.filter_coefficients().iter().map(|c| threshold(*c)).collect();
        assert_eq!(coefficients, vec![0.25, 0.75, 1.0, 0.75, 0.25]);
    }
    assert!(!Configuration::preset_test4().is_usable());
    assert!(!Configuration::preset_test5().is_usable());
    assert_eq!(Configuration::preset_test4().removed_silence(), Some(50));
    assert_eq!(Configuration::preset_test5().frame_size(), 2048);
    assert_eq!(Configuration::preset_test5().frame_overlap(), 1024);
}

#[test]
fn preset_tables_hold_the_classifiers() {
    let config = Configuration::preset_test1();
    let first = &config.classifiers()[0];
    assert_eq!(first.filter().kind(), FilterKind::Filter0);
    assert_eq!(
        (first.filter().y(), first.filter().height(), first.filter().width()),
        (0, 3, 15)
    );
    let (t0, t1, t2) = first.quantizer().thresholds();
    assert_eq!((threshold(t0), threshold(t1), threshold(t2)), (2.10543, 2.45354, 2.69414));
    let last = &config.classifiers()[15];
    assert_eq!(last.filter().kind(), FilterKind::Filter2);
    assert_eq!(
        (last.filter().y(), last.filter().height(), last.filter().width()),
        (1, 8, 4)
    );
    let (t0, t1, t2) = last.quantizer().thresholds();
    assert_eq!(
        (threshold(t0), threshold(t1), threshold(t2)),
        (-0.0741375, -0.00590933, 0.0600357)
    );

    let config = Configuration::preset_test2();
    let second = &config.classifiers()[1];
    assert_eq!(second.filter().kind(), FilterKind::Filter4);
    assert_eq!(
        (second.filter().y(), second.filter().height(), second.filter().width()),
        (4, 6, 15)
    );
    let (t0, t1, t2) = second.quantizer().thresholds();
    assert_eq!((threshold(t0), threshold(t1), threshold(t2)), (-1.03809, -0.651211, -0.282167));
    let third = Configuration::preset_test3();
    for (a, b) in config.classifiers().iter().zip(third.classifiers().iter()) {
        assert_eq!(a, b);
    }
}

#[test]
fn builders_set_one_part() {
    let config = Configuration::preset_test2()
        .with_frame_size(1024)
        .with_frame_overlap(512)
        .with_interpolation(true)
        .with_removed_silence(7)
        .with_coefficients(vec![50_000_000, 50_000_000]);
    assert_eq!(config.id(), 1);
    assert_eq!(config.frame_size(), 1024);
    assert_eq!(config.frame_overlap(), 512);
    assert_eq!(config.samples_in_item(), 512);
    assert!(config.interpolate());
    assert_eq!(config.removed_silence(), Some(7));
    assert_eq!(config.filter_coefficients(), &vec![50_000_000, 50_000_000]);
    assert_eq!(config.classifiers().len(), 16);
    // an even number of coefficients cannot be used
    assert!(!config.is_usable());
    let config = config.with_coefficients(vec![100_000_000]);
    assert!(config.is_usable());
    let narrow = config.clone().with_classifiers(
        Configuration::preset_test1().classifiers()[4..6].to_vec(),
    );
    assert_eq!(narrow.max_filter_width(), 15);
    assert!(narrow.is_usable());
    let none = config.with_classifiers(vec![]);
    assert_eq!(none.max_filter_width(), 0);
    assert!(!none.is_usable());
}

#[test]
fn delay_of_the_presets() {
    // four more coefficients and fifteen more rows, and the overlap
    assert_eq!(Configuration::preset_test2().delay(), 19 * 1365 + 2731);
    let config = Configuration::preset_test2().with_coefficients(vec![100_000_000]);
    assert_eq!(config.delay(), 15 * 1365 + 2731);
}
