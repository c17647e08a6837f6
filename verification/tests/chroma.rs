use rusty_chromaprint::chroma::{end_bin, first_bin, freq_to_index, neighbour_note};
use rusty_chromaprint::chroma_filter::ChromaFilter;

#[test]
fn freq_to_index_rounds_to_the_nearest_bin() {
    assert_eq!(freq_to_index(10, 256, 1000), 3);
    assert_eq!(freq_to_index(510, 256, 1000), 131);
    assert_eq!(freq_to_index(28, 4096, 11025), 10);
    assert_eq!(freq_to_index(3520, 4096, 11025), 1308);
    assert_eq!(freq_to_index(0, 4096, 11025), 0);
    // a half is rounded upwards
    assert_eq!(freq_to_index(1, 1, 2), 1);
    assert_eq!(freq_to_index(3, 1, 2), 2);
    assert_eq!(freq_to_index(1, 1, 3), 0);
    assert_eq!(freq_to_index(2, 1, 3), 1);
    // no sample rate
    assert_eq!(freq_to_index(0, 5, 0), 0);
    assert_eq!(freq_to_index(1, 1, 0), usize::MAX);
    // a bin that does not fit
    assert_eq!(freq_to_index(u32::MAX, usize::MAX, 1), usize::MAX);
}

#[test]
fn bins_of_the_chroma_features() {
    assert_eq!(first_bin(10, 256, 1000), 3);
    assert_eq!(end_bin(510, 256, 1000), 128);
    assert_eq!(first_bin(28, 4096, 11025), 10);
    assert_eq!(end_bin(3520, 4096, 11025), 1308);
    assert_eq!(first_bin(0, 4096, 11025), 1);
    assert_eq!(end_bin(3520, 64, 11025), 20);
    assert_eq!(end_bin(5000, 64, 11025), 29);
    assert_eq!(end_bin(6000, 64, 11025), 32);
}

#[test]
fn neighbour_notes_go_round_the_octave() {
    assert_eq!(neighbour_note(0, true), 11);
    assert_eq!(neighbour_note(0, false), 1);
    assert_eq!(neighbour_note(11, false), 0);
    assert_eq!(neighbour_note(11, true), 10);
    assert_eq!(neighbour_note(5, true), 4);
    assert_eq!(neighbour_note(5, false), 6);
}

/// A filter over time whose vectors are kept here, in the slots that the
/// library gives.
struct Filtered {
    ring: ChromaFilter,
    coefficients: Vec<f64>,
    buffer: [[f64; 12]; 8],
    rows: Vec<[f64; 12]>,
}

impl Filtered {
    fn new(coefficients: &[f64]) -> Self {
        Self {
            ring: ChromaFilter::new(coefficients.len()),
            coefficients: coefficients.to_vec(),
            buffer: [[0.0; 12]; 8],
            rows: Vec::new(),
        }
    }

    fn consume(&mut self, features: &[f64; 12]) {
        let step = self.ring.consume();
        self.buffer[step.slot] = *features;
        if let Some(first) = step.first {
            let mut result = [0.0; 12];
            for i in 0..12 {
                for j in 0..self.coefficients.len() {
                    result[i] += self.buffer[self.ring.tap_slot(first, j)][i] * self.coefficients[j];
                }
            }
            self.rows.push(result);
        }
    }

    fn get(&self, row: usize, col: usize) -> f64 {
        self.rows[row][col]
    }
}

fn vector(first: f64, second: f64) -> [f64; 12] {
    let mut v = [0.0; 12];
    v[0] = first;
    v[1] = second;
    v
}

fn assert_eq_float(a: f64, b: f64) {
    assert!((a - b).abs() < 0.00001, "{} != {}", a, b);
}

#[test]
fn blur2() {
    let mut filter = Filtered::new(&[0.5, 0.5]);
    filter.consume(&vector(0.0, 5.0));
    filter.consume(&vector(1.0, 6.0));
    filter.consume(&vector(2.0, 7.0));
    assert_eq!(2, filter.rows.len());
    assert_eq!(0.5, filter.get(0, 0));
    assert_eq!(1.5, filter.get(1, 0));
    assert_eq!(5.5, filter.get(0, 1));
    assert_eq!(6.5, filter.get(1, 1));
}

#[test]
fn blur3() {
    let mut filter = Filtered::new(&[0.5, 0.7, 0.5]);
    filter.consume(&vector(0.0, 5.0));
    filter.consume(&vector(1.0, 6.0));
    filter.consume(&vector(2.0, 7.0));
    filter.consume(&vector(3.0, 8.0));
    assert_eq!(2, filter.rows.len());
    assert_eq_float(1.7, filter.get(0, 0));
    assert_eq_float(3.399999999999999, filter.get(1, 0));
    assert_eq_float(10.199999999999999, filter.get(0, 1));
    assert_eq_float(11.899999999999999, filter.get(1, 1));
}

#[test]
fn diff() {
    let mut filter = Filtered::new(&[1.0, -1.0]);
    filter.consume(&vector(0.0, 5.0));
    filter.consume(&vector(1.0, 6.0));
    filter.consume(&vector(2.0, 7.0));
    assert_eq!(2, filter.rows.len());
    assert_eq!(-1.0, filter.get(0, 0));
    assert_eq!(-1.0, filter.get(1, 0));
    assert_eq!(-1.0, filter.get(0, 1));
    assert_eq!(-1.0, filter.get(1, 1));
}

#[test]
fn chroma_filter_ring_goes_round() {
    let mut ring = ChromaFilter::new(5);
    let mut firsts = vec![];
    let mut slots = vec![];
    for _ in 0..12 {
        let step = ring.consume();
        slots.push(step.slot);
        firsts.push(step.first);
    }
    assert_eq!(slots, vec![0, 1, 2, 3, 4, 5, 6, 7, 0, 1, 2, 3]);
    assert_eq!(
        firsts,
        vec![
            None,
            None,
            None,
            None,
            Some(0),
            Some(1),
            Some(2),
            Some(3),
            Some(4),
            Some(5),
            Some(6),
            Some(7)
        ]
    );
    assert_eq!(ring.tap_slot(6, 4), 2);
    ring.reset();
    let step = ring.consume();
    assert_eq!((step.slot, step.first), (0, None));
    let mut single = ChromaFilter::new(1);
    let step = single.consume();
    assert_eq!((step.slot, step.first), (0, Some(0)));
    let mut full = ChromaFilter::new(8);
    for _ in 0..7 {
        assert_eq!(full.consume().first, None);
    }
    assert_eq!(full.consume().first, Some(0));
    assert_eq!(full.consume().first, Some(1));
}
