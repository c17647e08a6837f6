use rusty_chromaprint::gaussian::{
    box_filter, box_widths, gaussian_filter, ReflectIterator, SliceWriter,
};

fn assert_eq_float(a: f64, b: f64) {
    assert!((a - b).abs() < 0.00001, "{} != {}", a, b);
}

fn means(sums: &[u64], scale: u64) -> Vec<f64> {
    sums.iter().map(|s| *s as f64 / scale as f64).collect()
}

#[test]
fn reflect_iterator() {
    let data = [1, 2, 3, 4, 5, 6, 7, 8, 9];
    let mut it = ReflectIterator::new(data.len());
    for _ in 0..3 {
        it.move_back();
    }
    assert_eq!(3, data[it.pos]);
    assert_eq!(0, it.safe_forward_distance());
    it.move_forward();
    assert_eq!(2, data[it.pos]);
    assert_eq!(0, it.safe_forward_distance());
    it.move_forward();
    assert_eq!(1, data[it.pos]);
    assert_eq!(0, it.safe_forward_distance());
    it.move_forward();
    assert_eq!(1, data[it.pos]);
    assert_eq!(8, it.safe_forward_distance());
    it.move_forward();
    assert_eq!(2, data[it.pos]);
}

#[test]
fn reflect_iterator_turns_at_the_far_end() {
    let mut it = ReflectIterator::new(3);
    let mut seen = vec![];
    for _ in 0..8 {
        seen.push(it.pos);
        it.move_forward();
    }
    assert_eq!(seen, vec![0, 1, 2, 2, 1, 0, 0, 1]);
    let mut single = ReflectIterator::new(1);
    single.move_forward();
    assert_eq!((single.pos, single.forward), (0, false));
    single.move_forward();
    assert_eq!((single.pos, single.forward), (0, true));
}

#[test]
fn slice_writer_writes_in_order() {
    let mut data = [0u8; 4];
    {
        let mut writer = SliceWriter::new(&mut data);
        writer.push(7);
        writer.push(9);
        assert_eq!(writer.index, 2);
    }
    assert_eq!(data, [7, 9, 0, 0]);
}

#[test]
fn width1() {
    let input = [1, 2, 4];
    let mut output = input.clone();
    box_filter(&input, &mut output, 1);
    assert_eq!(input.len(), output.len());
    let output = means(&output, 1);
    assert_eq_float(1.0, output[0]);
    assert_eq_float(2.0, output[1]);
    assert_eq_float(4.0, output[2]);
}

#[test]
fn width2() {
    let input = [1, 2, 4];
    let mut output = input.clone();
    box_filter(&input, &mut output, 2);
    assert_eq!(input.len(), output.len());
    let output = means(&output, 2);
    assert_eq_float(1.0, output[0]);
    assert_eq_float(1.5, output[1]);
    assert_eq_float(3.0, output[2]);
}

#[test]
fn width3() {
    let input = [1, 2, 4];
    let mut output = input.clone();
    box_filter(&input, &mut output, 3);
    assert_eq!(input.len(), output.len());
    let output = means(&output, 3);
    assert_eq_float(1.333333333, output[0]);
    assert_eq_float(2.333333333, output[1]);
    assert_eq_float(3.333333333, output[2]);
}

#[test]
fn width4() {
    let input = [1, 2, 4];
    let mut output = input.clone();
    box_filter(&input, &mut output, 4);
    assert_eq!(input.len(), output.len());
    let output = means(&output, 4);
    assert_eq_float(1.5, output[0]);
    assert_eq_float(2.0, output[1]);
    assert_eq_float(2.75, output[2]);
}

#[test]
fn width5() {
    let input = [1, 2, 4];
    let mut output = input.clone();
    box_filter(&input, &mut output, 5);
    assert_eq!(input.len(), output.len());
    let output = means(&output, 5);
    assert_eq_float(2.0, output[0]);
    assert_eq_float(2.4, output[1]);
    assert_eq_float(2.6, output[2]);
}

#[test]
fn box_filter_gives_exact_sums() {
    let input = [1, 2, 4];
    let mut output = [0u64; 3];
    box_filter(&input, &mut output, 4);
    assert_eq!(output, [6, 8, 11]);
    // a longer input goes through all three parts of the pass
    let input: Vec<u64> = (1..=10).collect();
    let mut output = vec![0u64; 12];
    output[10] = 77;
    output[11] = 78;
    box_filter(&input, &mut output, 3);
    assert_eq!(output, vec![4, 6, 9, 12, 15, 18, 21, 24, 27, 29, 77, 78]);
    // nothing is written for no width
    let mut untouched = [5u64, 6, 7];
    box_filter(&[1, 2, 4], &mut untouched, 0);
    assert_eq!(untouched, [5, 6, 7]);
}

#[test]
fn gaussian1() {
    let mut input = [1, 2, 4];
    let mut output = input.clone();
    // a deviation of 1.6
    let scale = gaussian_filter(&mut input, &mut output, 16, 10, 3);
    assert_eq!(input.len(), output.len());
    let output = means(&output, scale);
    assert_eq_float(1.88888889, output[0]);
    assert_eq_float(2.33333333, output[1]);
    assert_eq_float(2.77777778, output[2]);
}

#[test]
fn gaussian2() {
    let mut input = [1, 2, 4];
    let mut output = input.clone();
    // a deviation of 3.6
    let scale = gaussian_filter(&mut input, &mut output, 36, 10, 4);
    assert_eq!(input.len(), output.len());
    let output = means(&output, scale);
    assert_eq_float(2.3322449, output[0]);
    assert_eq_float(2.33306122, output[1]);
    assert_eq_float(2.33469388, output[2]);
}

#[test]
fn gaussian_gives_sums_and_scale() {
    let mut input = [1, 2, 4];
    let mut output = [0u64; 3];
    assert_eq!(gaussian_filter(&mut input, &mut output, 16, 10, 3), 27);
    assert_eq!(output, [51, 63, 75]);
    // after an odd number of passes the input holds the sums of all but the
    // last
    assert_eq!(input, [15, 21, 27]);
    let mut input = [1, 2, 4];
    let mut output = [0u64; 3];
    assert_eq!(gaussian_filter(&mut input, &mut output, 36, 10, 4), 1225);
    assert_eq!(output, [2857, 2858, 2860]);
    assert_eq!(input, output);
}

#[test]
fn box_widths_follow_the_deviation() {
    assert_eq!(box_widths(8, 1, 3), (15, 17, 2));
    assert_eq!(box_widths(16, 10, 3), (3, 5, 3));
    assert_eq!(box_widths(36, 10, 4), (5, 7, 2));
    assert_eq!(box_widths(0, 1, 1), (1, 3, 1));
}
