use ocr_receipt::geometry::bounds_size;
use ocr_receipt::geometry::is_inside;
use ocr_receipt::geometry::new_bounds;
use ocr_receipt::geometry::update_bounds;
use ocr_receipt::grid::get_square;
use ocr_receipt::grid::is_black;
use ocr_receipt::BoundBox;
use ocr_receipt::Image;
use ocr_receipt::Point;

fn boxed(tlx: u32, tly: u32, brx: u32, bry: u32) -> BoundBox {
    BoundBox {
        top_left: Point { x: tlx, y: tly },
        bottom_right: Point { x: brx, y: bry },
    }
}

#[test]
fn width_and_height_are_corner_differences() {
    let b = boxed(3, 10, 9, 14);
    assert_eq!(b.width(), 6);
    assert_eq!(b.height(), 4);
}

#[test]
fn middle_point_rounds_extents_down() {
    let b = boxed(2, 1, 7, 4);
    // width 5, height 3: center = (7 - 2, 4 - 1) = (5, 3)
    let m = b.middle_point();
    assert_eq!(m, Point { x: 5, y: 3 });
    let single = boxed(4, 4, 4, 4);
    assert_eq!(single.middle_point(), Point { x: 4, y: 4 });
}

#[test]
fn bounds_size_multiplies_extents() {
    assert_eq!(bounds_size(&boxed(1, 2, 5, 6)), 16);
    assert_eq!(bounds_size(&boxed(3, 3, 3, 3)), 0);
}

#[test]
fn from_corner_pair() {
    let b = BoundBox::from(((1u32, 2u32), (3u32, 4u32)));
    assert_eq!(b, boxed(1, 2, 3, 4));
}

#[test]
fn is_inside_is_boundary_inclusive() {
    let outer = boxed(0, 10, 100, 20);
    assert!(is_inside(&outer, &boxed(0, 10, 100, 20)));
    assert!(is_inside(&outer, &boxed(5, 12, 50, 18)));
    assert!(!is_inside(&outer, &boxed(5, 9, 50, 18)));
    assert!(!is_inside(&outer, &boxed(5, 12, 101, 18)));
    assert!(!is_inside(&outer, &boxed(5, 12, 50, 21)));
}

#[test]
fn update_bounds_folds_min_and_max() {
    let mut acc = new_bounds();
    assert_eq!(acc, ((u32::MAX, u32::MAX), (0, 0)));
    update_bounds(&mut acc, (4, 7));
    assert_eq!(acc, ((4, 7), (4, 7)));
    update_bounds(&mut acc, (2, 9));
    assert_eq!(acc, ((2, 7), (4, 9)));
    update_bounds(&mut acc, (3, 8));
    assert_eq!(acc, ((2, 7), (4, 9)));
}

#[test]
fn is_black_means_all_channels_zero() {
    assert!(is_black(&[0, 0, 0]));
    assert!(!is_black(&[1, 0, 0]));
    assert!(!is_black(&[0, 0, 255]));
    assert!(!is_black(&[255, 255, 255]));
}

#[test]
fn image_pixels_read_back() {
    let mut img = Image::new(4, 3, [255, 255, 255]);
    assert_eq!(img.width(), 4);
    assert_eq!(img.height(), 3);
    assert_eq!(img.get_pixel(2, 1), [255, 255, 255]);
    img.put_pixel(2, 1, [0, 0, 0]);
    assert_eq!(img.get_pixel(2, 1), [0, 0, 0]);
    assert_eq!(img.get_pixel(1, 2), [255, 255, 255]);
    assert_eq!(img.get_pixel_checked(3, 2), Some([255, 255, 255]));
    assert_eq!(img.get_pixel_checked(4, 0), None);
    assert_eq!(img.get_pixel_checked(0, 3), None);
}

#[test]
fn square_reads_the_window() {
    let mut img = Image::new(5, 5, [255, 255, 255]);
    img.put_pixel(2, 1, [7, 8, 9]);
    let s = get_square(&img, 1, 1);
    assert_eq!(s.xy(), (1, 1));
    assert_eq!(s.x(), 1);
    assert_eq!(s.y(), 1);
    // the window holds eight white pixels and the (7, 8, 9) one at (2, 1):
    // the first channels sum to 8 * 255 + 7 = 2047, and 2047 / 255 = 8
    assert_eq!(s.count_blacks(), 8);
}

#[test]
fn count_blacks_divides_channel_sum() {
    let img = Image::new(3, 3, [255, 0, 0]);
    let s = get_square(&img, 0, 0);
    assert_eq!(s.count_blacks(), 9);
    assert!(s.contains_black());
    let dark = Image::new(3, 3, [0, 0, 0]);
    let s2 = get_square(&dark, 0, 0);
    assert_eq!(s2.count_blacks(), 0);
    assert!(!s2.contains_black());
}

#[test]
fn from_borrowed_corner_pair() {
    let raw = ((5u32, 6u32), (7u32, 8u32));
    let b = BoundBox::from(&raw);
    assert_eq!(b, boxed(5, 6, 7, 8));
}
