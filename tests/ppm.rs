use raytrace::Image;

#[test]
fn ppm_text_of_small_image() {
    let mut img = Image::new(2, 1);
    img.set(0, 0, [255, 0, 7]);
    img.set(1, 0, [10, 128, 99]);
    let text = String::from_utf8(img.to_ppm()).unwrap();
    assert_eq!(text, "P3\n2 1\n255\n255 0 7\n10 128 99\n");
}

#[test]
fn ppm_text_of_empty_image() {
    let img = Image::new(0, 0);
    assert_eq!(img.to_ppm(), b"P3\n0 0\n255\n".to_vec());
}

#[test]
fn ppm_rows_start_at_top_left() {
    let mut img = Image::new(1, 2);
    img.set(0, 0, [1, 2, 3]);
    img.set(0, 1, [4, 5, 6]);
    let text = String::from_utf8(img.to_ppm()).unwrap();
    assert_eq!(text, "P3\n1 2\n255\n1 2 3\n4 5 6\n");
}

#[test]
fn ppm_round_trip() {
    let mut img = Image::new(4, 3);
    for y in 0..3 {
        for x in 0..4 {
            img.set(x, y, [(x * 60) as u8, (y * 100) as u8, (x + y) as u8]);
        }
    }
    img.set(3, 2, [255, 255, 255]);
    let back = Image::from_ppm(&img.to_ppm()).unwrap();
    assert_eq!(back.width(), 4);
    assert_eq!(back.height(), 3);
    for y in 0..3 {
        for x in 0..4 {
            assert_eq!(back.get(x, y), img.get(x, y));
        }
    }
}

#[test]
fn ppm_reads_written_text() {
    let img = Image::from_ppm(b"P3\n2 1\n255\n255 0 7\n10 128 99\n").unwrap();
    assert_eq!(img.width(), 2);
    assert_eq!(img.height(), 1);
    assert_eq!(img.get(0, 0), [255, 0, 7]);
    assert_eq!(img.get(1, 0), [10, 128, 99]);
}

#[test]
fn ppm_rejects_other_text() {
    assert!(Image::from_ppm(b"").is_none());
    assert!(Image::from_ppm(b"P6\n1 1\n255\n0 0 0\n").is_none());
    // a channel above 255
    assert!(Image::from_ppm(b"P3\n1 1\n255\n256 0 0\n").is_none());
    // leading zeros are not what the writer produces
    assert!(Image::from_ppm(b"P3\n1 1\n255\n007 0 0\n").is_none());
    // a pixel missing
    assert!(Image::from_ppm(b"P3\n2 1\n255\n1 2 3\n").is_none());
    // text after the last pixel
    assert!(Image::from_ppm(b"P3\n1 1\n255\n1 2 3\n4").is_none());
    // another maximum value
    assert!(Image::from_ppm(b"P3\n1 1\n100\n1 2 3\n").is_none());
    // a width that does not fit
    assert!(Image::from_ppm(b"P3\n99999999999999999999999 1\n255\n").is_none());
}
