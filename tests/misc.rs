use map_model::crosswalk::{crosswalk_lines, make_crosswalk, make_rainbow_crosswalk, Color, CrosswalkPaint};
use map_model::edges::{point_toward, seg_len, isqrt_exec};
use map_model::geom::{Line, Pt2D};
use map_model::widgets::{Outcome, WidgetOutput};

#[test]
fn new_widget_output_is_empty() {
    let o = WidgetOutput::new();
    assert!(!o.redo_layout);
    assert_eq!(o.outcome, Outcome::Nothing);
}

#[test]
fn rainbow_crosswalk_at_a_known_crossing() {
    let bands = make_rainbow_crosswalk(53073255, 428246441, 800).unwrap();
    assert_eq!(bands.len(), 8);
    assert_eq!(bands[0].color, Color::White);
    assert_eq!(bands[1].color, Color::Red);
    assert_eq!(bands[6].color, Color::Violet);
    assert_eq!(bands[7].color, Color::White);
    assert_eq!(bands[0].width, 100);
    assert_eq!(bands[0].offset_left, 350);
    assert_eq!(bands[7].offset_left, -350);
}

#[test]
fn plain_crosswalk_elsewhere() {
    assert!(make_rainbow_crosswalk(53073255, 1, 800).is_none());
    assert!(make_rainbow_crosswalk(1, 428246441, 800).is_none());
}

#[test]
fn integer_square_root() {
    assert_eq!(isqrt_exec(0), 0);
    assert_eq!(isqrt_exec(15), 3);
    assert_eq!(isqrt_exec(16), 4);
    assert_eq!(isqrt_exec(200000000), 14142);
    assert_eq!(seg_len(Pt2D::new(0, 0), Pt2D::new(3, 4)), 5);
}

#[test]
fn lattice_point_along_a_diagonal() {
    let q = point_toward(Pt2D::new(0, 0), Pt2D::new(-10000, -10000), 207);
    assert_eq!(q, Pt2D::new(-147, -147));
    let q = point_toward(Pt2D::new(0, 0), Pt2D::new(300, 400), 250);
    assert_eq!(q, Pt2D::new(150, 200));
    let q = point_toward(Pt2D::new(0, 0), Pt2D::new(7, 3), 100);
    assert_eq!(q, Pt2D::new(7, 3));
}

#[test]
fn segments_crossing() {
    let a = Line::new(Pt2D::new(0, 0), Pt2D::new(10, 10)).unwrap();
    let b = Line::new(Pt2D::new(0, 10), Pt2D::new(10, 0)).unwrap();
    assert_eq!(a.intersection(&b), Some(Pt2D::new(5, 5)));
    let c = Line::new(Pt2D::new(20, 0), Pt2D::new(30, 10)).unwrap();
    assert_eq!(a.intersection(&c), None);
    assert!(Line::new(Pt2D::new(1, 1), Pt2D::new(1, 1)).is_none());
}

#[test]
fn crosswalk_lines_are_centered() {
    let geom = vec![Pt2D::new(0, 0), Pt2D::new(0, 100), Pt2D::new(1000, 100), Pt2D::new(1000, 200)];
    let marks = crosswalk_lines(&geom, 200, 25);
    assert_eq!(marks, vec![(200, 250), (320, 370), (440, 490), (560, 610), (680, 730), (800, 850)]);
    let marks = crosswalk_lines(&geom, 150, 25);
    assert_eq!(marks.len(), 8);
    assert_eq!(marks[0], (185, 235));
}

#[test]
fn crosswalk_too_short_or_squished() {
    let short = vec![Pt2D::new(0, 0), Pt2D::new(0, 100), Pt2D::new(300, 100)];
    assert!(crosswalk_lines(&short, 200, 25).is_empty());
    let squished = vec![Pt2D::new(0, 0), Pt2D::new(1000, 0)];
    assert!(crosswalk_lines(&squished, 200, 25).is_empty());
}

#[test]
fn known_crossing_gets_rainbow_paint() {
    let geom = vec![Pt2D::new(0, 0), Pt2D::new(0, 100), Pt2D::new(1000, 100)];
    match make_crosswalk(53068794, 65588105, 800, &geom, 200, 25) {
        CrosswalkPaint::Rainbow(bands) => assert_eq!(bands.len(), 8),
        CrosswalkPaint::Lines(_) => panic!("expected a rainbow"),
    }
    match make_crosswalk(1, 2, 800, &geom, 200, 25) {
        CrosswalkPaint::Lines(marks) => assert_eq!(marks.len(), 6),
        CrosswalkPaint::Rainbow(_) => panic!("expected plain lines"),
    }
}
