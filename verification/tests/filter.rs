use rusty_chromaprint::filter::{Filter, FilterKind, Rect};
use rusty_chromaprint::rolling_image::RollingIntegralImage;

fn assert_eq_float(a: f64, b: f64) {
    assert!((a - b).abs() < 0.00001, "{} != {}", a, b);
}

/// An integral image whose cells are kept here and laid out by the library.
struct Image {
    layout: RollingIntegralImage,
    data: Vec<f64>,
}

impl Image {
    fn new(max_rows: usize) -> Self {
        Self { layout: RollingIntegralImage::new(max_rows), data: Vec::new() }
    }

    fn from_data(columns: usize, data: &[f64]) -> Self {
        let mut image = Self::new(data.len() / columns - 1);
        for row in data.chunks_exact(columns) {
            image.add_row(row);
        }
        image
    }

    fn add_row(&mut self, row: &[f64]) {
        assert!(self.layout.is_addable(row.len()));
        let slot = self.layout.add_row(row.len());
        self.data.resize(self.layout.cells(), 0.0);
        let mut sum = 0.0;
        for (i, cell) in row.iter().enumerate() {
            sum += cell;
            self.data[slot.start + i] = sum;
        }
        if let Some(previous) = slot.previous {
            for i in 0..row.len() {
                self.data[slot.start + i] += self.data[previous + i];
            }
        }
    }

    fn columns(&self) -> usize {
        self.layout.columns()
    }

    fn rows(&self) -> usize {
        self.layout.rows()
    }

    fn cell(&self, index: Option<usize>) -> f64 {
        index.map(|i| self.data[i]).unwrap_or(0.0)
    }

    fn area(&self, r1: usize, c1: usize, r2: usize, c2: usize) -> f64 {
        assert!(self.layout.is_askable(r1, c1, r2, c2));
        let corners = self.layout.area(r1, c1, r2, c2);
        self.cell(corners.bottom_right) - self.cell(corners.top_right)
            - self.cell(corners.bottom_left)
            + self.cell(corners.top_left)
    }

    fn sum(&self, rects: &[Rect]) -> f64 {
        rects.iter().map(|r| self.area(r.r1, r.c1, r.r2, r.c2)).sum()
    }
}

fn subtract(a: f64, b: f64) -> f64 {
    return a - b;
}

fn subtract_log(a: f64, b: f64) -> f64 {
    f64::ln((1.0 + a) / (1.0 + b))
}

fn apply(
    kind: FilterKind,
    image: &Image,
    x: usize,
    y: usize,
    w: usize,
    h: usize,
    cmp: fn(f64, f64) -> f64,
) -> f64 {
    let filter = Filter::new(kind, y, h, w);
    assert!(filter.is_applicable(x));
    let (a, b) = filter.regions(x);
    cmp(image.sum(&a), image.sum(&b))
}

#[test]
fn test_compare_subtract() {
    let res = subtract(2.0, 1.0);
    assert_eq_float(1.0, res);
}

#[test]
fn test_compare_subtract_log() {
    let res = subtract_log(2.0, 1.0);
    assert_eq_float(0.4054651, res);
}

#[test]
fn test_filter_with_filter0() {
    let data = [0.0, 1.0, 2.0, 3.0];
    let integral_image = Image::from_data(2, &data);
    assert_eq_float(0.0, apply(FilterKind::Filter0, &integral_image, 0, 0, 1, 1, subtract_log));
    assert_eq_float(
        1.0986123,
        apply(FilterKind::Filter0, &integral_image, 1, 0, 1, 1, subtract_log),
    );
}

#[test]
fn test_filter0() {
    let data = [1.0, 2.0, 3.0, 4.0, 5.0, 6.0, 7.0, 8.0, 9.0];

    let integral_image = Image::from_data(3, &data);
    let filter0 = |x, y, w, h| apply(FilterKind::Filter0, &integral_image, x, y, w, h, subtract);

    let res = filter0(0, 0, 1, 1);
    assert_eq_float(1.0, res);
    let res = filter0(0, 0, 2, 2);
    assert_eq_float(12.0, res);
    let res = filter0(0, 0, 3, 3);
    assert_eq_float(45.0, res);
    let res = filter0(1, 1, 2, 2);
    assert_eq_float(28.0, res);
    let res = filter0(2, 2, 1, 1);
    assert_eq_float(9.0, res);
    let res = filter0(0, 0, 3, 1);
    assert_eq_float(12.0, res);
    let res = filter0(0, 0, 1, 3);
    assert_eq_float(6.0, res);
}

#[test]
fn test_filter1() {
    let data = [1.0, 2.1, 3.4, 3.1, 4.1, 5.1, 6.0, 7.1, 8.0];

    let integral_image = Image::from_data(3, &data);
    let filter1 = |x, y, w, h| apply(FilterKind::Filter1, &integral_image, x, y, w, h, subtract);
    let res = filter1(0, 0, 1, 1);
    assert_eq_float(1.0 - 0.0, res);
    let res = filter1(1, 1, 1, 1);
    assert_eq_float(4.1 - 0.0, res);
    let res = filter1(0, 0, 1, 2);
    assert_eq_float(2.1 - 1.0, res);
    let res = filter1(0, 0, 2, 2);
    assert_eq_float((2.1 + 4.1) - (1.0 + 3.1), res);
    let res = filter1(0, 0, 3, 2);
    assert_eq_float((2.1 + 4.1 + 7.1) - (1.0 + 3.1 + 6.0), res);
}

#[test]
fn test_filter2() {
    let data = [1.0, 2.0, 3.0, 3.0, 4.0, 5.0, 6.0, 7.0, 8.0];

    let integral_image = Image::from_data(3, &data);
    let filter2 = |x, y, w, h| apply(FilterKind::Filter2, &integral_image, x, y, w, h, subtract);
    let res = filter2(0, 0, 2, 1);
    assert_eq_float(2.0, res); // 3 - 1
    let res = filter2(0, 0, 2, 2);
    assert_eq_float(4.0, res); // 3+4 - 1+2
    let res = filter2(0, 0, 2, 3);
    assert_eq_float(6.0, res); // 3+4+5 - 1+2+3
}

#[test]
fn test_filter3() {
    let data = [1.0, 2.1, 3.4, 3.1, 4.1, 5.1, 6.0, 7.1, 8.0];

    let integral_image = Image::from_data(3, &data);
    let filter3 = |x, y, w, h| apply(FilterKind::Filter3, &integral_image, x, y, w, h, subtract);
    let res = filter3(0, 0, 2, 2);
    assert_eq_float(0.1, res); // 2.1+3.1 - 1+4.1
    let res = filter3(1, 1, 2, 2);
    assert_eq_float(0.1, res); // 4+8 - 5+7
    let res = filter3(0, 1, 2, 2);
    assert_eq_float(0.3, res); // 2.1+5.1 - 3.4+4.1
}

#[test]
fn test_filter4() {
    let data = [1.0, 2.0, 3.0, 3.0, 4.0, 5.0, 6.0, 7.0, 8.0];

    let integral_image = Image::from_data(3, &data);
    let res = apply(FilterKind::Filter4, &integral_image, 0, 0, 3, 3, subtract);
    assert_eq_float(-13.0, res); // 2+4+7 - (1+3+6) - (3+5+8)
}

#[test]
fn test_filter5() {
    let data = [1.0, 2.0, 3.0, 3.0, 4.0, 5.0, 6.0, 7.0, 8.0];

    let integral_image = Image::from_data(3, &data);
    let res = apply(FilterKind::Filter5, &integral_image, 0, 0, 3, 3, subtract);
    assert_eq_float(-15.0, res); // 3+4+5 - (1+2+3) - (6+7+8)
}

#[test]
fn rolling_image_simple() {
    let mut image = Image::new(4);
    image.add_row(&[1.0, 2.0, 3.0]);

    assert_eq!(3, image.columns());
    assert_eq!(1, image.rows());

    assert_eq_float(1.0, image.area(0, 0, 1, 1));
    assert_eq_float(2.0, image.area(0, 1, 1, 2));
    assert_eq_float(3.0, image.area(0, 2, 1, 3));
    assert_eq_float(1.0 + 2.0 + 3.0, image.area(0, 0, 1, 3));

    image.add_row(&[4.0, 5.0, 6.0]);

    assert_eq!(3, image.columns());
    assert_eq!(2, image.rows());

    assert_eq_float(4.0, image.area(1, 0, 2, 1));
    assert_eq_float(5.0, image.area(1, 1, 2, 2));
    assert_eq_float(6.0, image.area(1, 2, 2, 3));
    assert_eq_float(1.0 + 2.0 + 3.0 + 4.0 + 5.0 + 6.0, image.area(0, 0, 2, 3));

    image.add_row(&[7.0, 8.0, 9.0]);

    assert_eq!(3, image.columns());
    assert_eq!(3, image.rows());

    image.add_row(&[10.0, 11.0, 12.0]);

    assert_eq!(3, image.columns());
    assert_eq!(4, image.rows());

    assert_eq_float(
        (1.0 + 2.0 + 3.0) + (4.0 + 5.0 + 6.0) + (7.0 + 8.0 + 9.0) + (10.0 + 11.0 + 12.0),
        image.area(0, 0, 4, 3),
    );

    image.add_row(&[13.0, 14.0, 15.0]);

    assert_eq!(3, image.columns());
    assert_eq!(5, image.rows());

    assert_eq_float(4.0, image.area(1, 0, 2, 1));
    assert_eq_float(5.0, image.area(1, 1, 2, 2));
    assert_eq_float(6.0, image.area(1, 2, 2, 3));
    assert_eq_float(13.0, image.area(4, 0, 5, 1));
    assert_eq_float(14.0, image.area(4, 1, 5, 2));
    assert_eq_float(15.0, image.area(4, 2, 5, 3));
    assert_eq_float(
        (4.0 + 5.0 + 6.0) + (7.0 + 8.0 + 9.0) + (10.0 + 11.0 + 12.0) + (13.0 + 14.0 + 15.0),
        image.area(1, 0, 5, 3),
    );

    image.add_row(&[16.0, 17.0, 18.0]);

    assert_eq!(3, image.columns());
    assert_eq!(6, image.rows());

    assert_eq_float(7.0, image.area(2, 0, 3, 1));
    assert_eq_float(8.0, image.area(2, 1, 3, 2));
    assert_eq_float(9.0, image.area(2, 2, 3, 3));
    assert_eq_float(16.0, image.area(5, 0, 6, 1));
    assert_eq_float(17.0, image.area(5, 1, 6, 2));
    assert_eq_float(18.0, image.area(5, 2, 6, 3));
    assert_eq_float(
        (7.0 + 8.0 + 9.0) + (10.0 + 11.0 + 12.0) + (13.0 + 14.0 + 15.0) + (16.0 + 17.0 + 18.0),
        image.area(2, 0, 6, 3),
    );
}

#[test]
fn rolling_image_layout() {
    let mut layout = RollingIntegralImage::new(2);
    let first = layout.add_row(4);
    assert_eq!((first.start, first.previous), (0, None));
    assert_eq!(layout.cells(), 12);
    let second = layout.add_row(4);
    assert_eq!((second.start, second.previous), (4, Some(0)));
    let third = layout.add_row(4);
    assert_eq!((third.start, third.previous), (8, Some(4)));
    let fourth = layout.add_row(4);
    assert_eq!((fourth.start, fourth.previous), (0, Some(8)));
    assert_eq!((layout.rows(), layout.columns()), (4, 4));
    // the rows 2 and 3 of the columns 1 and 2 lie between the corners of
    // the rows 1 and 3 and of the columns 0 and 2
    let corners = layout.area(2, 1, 4, 3);
    assert_eq!(corners.bottom_right, Some(2));
    assert_eq!(corners.top_right, Some(4 + 2));
    assert_eq!(corners.bottom_left, Some(0));
    assert_eq!(corners.top_left, Some(4));
    let empty = layout.area(3, 1, 3, 3);
    assert_eq!(empty.bottom_right, None);
    // what can be asked for, and which rows can be added
    assert!(layout.is_askable(2, 0, 4, 4));
    assert!(!layout.is_askable(1, 0, 4, 4));
    assert!(!layout.is_askable(2, 0, 5, 4));
    assert!(!layout.is_askable(3, 0, 2, 4));
    assert!(!layout.is_askable(2, 0, 4, 5));
    assert!(layout.is_addable(4));
    assert!(!layout.is_addable(3));
    assert_eq!(layout.slot_count(), 3);
    layout.reset();
    assert!(layout.is_addable(3));
    assert!(!layout.is_addable(usize::MAX / 2));
    assert!(layout.is_addable(usize::MAX / 3));
    assert_eq!((layout.rows(), layout.columns()), (0, 0));
    let again = layout.add_row(7);
    assert_eq!((again.start, again.previous), (0, None));
    assert_eq!(layout.cells(), 21);
}

#[test]
fn filter_regions_tile_the_window() {
    let kinds = [
        FilterKind::Filter0,
        FilterKind::Filter1,
        FilterKind::Filter2,
        FilterKind::Filter3,
        FilterKind::Filter4,
        FilterKind::Filter5,
    ];
    for kind in kinds {
        for (x, y, w, h) in [(0, 0, 1, 1), (2, 3, 5, 4), (1, 0, 16, 12), (7, 4, 3, 2), (0, 1, 2, 7)] {
            let filter = Filter::new(kind, y, h, w);
            assert_eq!(filter.width(), w);
            let (a, b) = filter.regions(x);
            for r in 0..x + w + 2 {
                for c in 0..y + h + 2 {
                    let holds = |rect: &&Rect| rect.r1 <= r && r < rect.r2 && rect.c1 <= c && c < rect.c2;
                    let count = a.iter().filter(holds).count() + b.iter().filter(holds).count();
                    let inside = x <= r && r < x + w && y <= c && c < y + h;
                    assert_eq!(count, if inside { 1 } else { 0 });
                }
            }
        }
    }
}

#[test]
fn filters_without_a_window() {
    assert!(Filter::new(FilterKind::Filter0, 0, 1, 1).is_applicable(0));
    assert!(!Filter::new(FilterKind::Filter0, 0, 0, 1).is_applicable(0));
    assert!(!Filter::new(FilterKind::Filter0, 0, 1, 0).is_applicable(0));
    assert!(Filter::new(FilterKind::Filter3, 0, 1, 5).is_applicable(usize::MAX - 5));
    assert!(!Filter::new(FilterKind::Filter3, 0, 1, 5).is_applicable(usize::MAX - 4));
    assert!(!Filter::new(FilterKind::Filter3, usize::MAX, 1, 5).is_applicable(0));
}

#[test]
fn filter_regions_are_the_halves_and_thirds() {
    let (a, b) = Filter::new(FilterKind::Filter4, 1, 7, 5).regions(10);
    assert_eq!(a, vec![Rect { r1: 10, c1: 3, r2: 15, c2: 5 }]);
    assert_eq!(
        b,
        vec![Rect { r1: 10, c1: 1, r2: 15, c2: 3 }, Rect { r1: 10, c1: 5, r2: 15, c2: 8 }]
    );
    let (a, b) = Filter::new(FilterKind::Filter3, 0, 4, 6).regions(0);
    assert_eq!(
        a,
        vec![Rect { r1: 0, c1: 2, r2: 3, c2: 4 }, Rect { r1: 3, c1: 0, r2: 6, c2: 2 }]
    );
    assert_eq!(
        b,
        vec![Rect { r1: 0, c1: 0, r2: 3, c2: 2 }, Rect { r1: 3, c1: 2, r2: 6, c2: 4 }]
    );
}
