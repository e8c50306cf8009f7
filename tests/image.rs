use raytrace::Image;

#[test]
fn new_image_is_black() {
    let img = Image::new(3, 2);
    assert_eq!(img.width(), 3);
    assert_eq!(img.height(), 2);
    for y in 0..2 {
        for x in 0..3 {
            assert_eq!(img.get(x, y), [0, 0, 0]);
        }
    }
}

#[test]
fn set_changes_one_pixel() {
    let mut img = Image::new(3, 2);
    img.set(2, 1, [10, 20, 30]);
    assert_eq!(img.get(2, 1), [10, 20, 30]);
    assert_eq!(img.get(1, 2 - 1), [0, 0, 0]);
    assert_eq!(img.get(2, 0), [0, 0, 0]);
    img.set(2, 1, [1, 2, 3]);
    assert_eq!(img.get(2, 1), [1, 2, 3]);
}

#[test]
fn from_pixels_keeps_row_order() {
    let img = Image::from_pixels(2, 2, vec![[1, 1, 1], [2, 2, 2], [3, 3, 3], [4, 4, 4]]);
    assert_eq!(img.get(1, 0), [2, 2, 2]);
    assert_eq!(img.get(0, 1), [3, 3, 3]);
}

#[test]
fn empty_image() {
    let img = Image::new(0, 5);
    assert_eq!(img.width(), 0);
    assert_eq!(img.height(), 5);
}
