use rusty_chromaprint::gradient::gradient;

fn assert_eq_float(a: f64, b: f64) {
    assert!((a - b).abs() < 0.00001, "{} != {}", a, b);
}

fn halves(doubled: &[i128]) -> Vec<f64> {
    doubled.iter().map(|g| *g as f64 / 2.0).collect()
}

#[test]
fn empty() {
    let input = [];
    let mut output = Vec::new();
    gradient(&input, &mut output);
    assert_eq!(0, output.len());
}

#[test]
fn one_element() {
    let mut output = Vec::new();
    let input = [1];
    gradient(&input, &mut output);
    let output = halves(&output);
    assert_eq!(1, output.len());
    assert_eq_float(0.0, output[0]);
}

#[test]
fn two_elements() {
    let mut output = Vec::new();
    let input = [1, 2];
    gradient(&input, &mut output);
    let output = halves(&output);
    assert_eq!(2, output.len());
    assert_eq_float(1.0, output[0]);
    assert_eq_float(1.0, output[1]);
}

#[test]
fn three_elements() {
    let mut output = Vec::new();
    let input = [1, 2, 4];
    gradient(&input, &mut output);
    let output = halves(&output);
    assert_eq!(3, output.len());
    assert_eq_float(1.0, output[0]);
    assert_eq_float(1.5, output[1]);
    assert_eq_float(2.0, output[2]);
}

#[test]
fn four_elements() {
    let mut output = Vec::new();
    let input = [1, 2, 4, 10];
    gradient(&input, &mut output);
    let output = halves(&output);
    assert_eq!(4, output.len());
    assert_eq_float(1.0, output[0]);
    assert_eq_float(1.5, output[1]);
    assert_eq_float(4.0, output[2]);
    assert_eq_float(6.0, output[3]);
}

#[test]
fn gradient_is_appended_doubled() {
    let mut output = vec![-1];
    gradient(&[10, 4, 1, u64::MAX], &mut output);
    assert_eq!(
        output,
        vec![-1, -12, -9, u64::MAX as i128 - 4, 2 * (u64::MAX as i128 - 1)]
    );
}
