use face_off::detector::search_max_size;
use face_off::geometry::Rectangle;
use face_off::image_proc::Interpolation;

#[test]
fn rectangle_new_sets_fields() {
    let r = Rectangle::new(3, -4, 10, 20);
    assert_eq!((r.x, r.y, r.width, r.height), (3, -4, 10, 20));
}

#[test]
fn fit_within_cuts_at_right_and_bottom() {
    let mut r = Rectangle::new(30, 50, 100, 100);
    r.fit_within(80, 120);
    assert_eq!((r.x, r.y, r.width, r.height), (30, 50, 50, 70));
    assert!(r.x as u32 + r.width <= 80);
    assert!(r.y as u32 + r.height <= 120);
}

#[test]
fn fit_within_keeps_inner_rectangle() {
    let mut r = Rectangle::new(1, 2, 3, 4);
    r.fit_within(10, 10);
    assert_eq!((r.width, r.height), (3, 4));
}

#[test]
fn fit_within_at_the_edge_gives_empty_side() {
    let mut r = Rectangle::new(10, 0, 5, 5);
    r.fit_within(10, 5);
    assert_eq!((r.width, r.height), (0, 5));
}

#[test]
fn search_max_size_caps_at_shorter_side() {
    assert_eq!(search_max_size(1024, 300, 400), 300);
    assert_eq!(search_max_size(1024, 500, 400), 400);
    assert_eq!(search_max_size(200, 300, 400), 200);
    assert_eq!(search_max_size(300, 300, 400), 300);
}

#[test]
fn interpolation_variants_differ() {
    assert_eq!(Interpolation::Nearest, Interpolation::Nearest);
    assert_ne!(Interpolation::Nearest, Interpolation::Bilinear);
}
