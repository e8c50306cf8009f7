use raytrace::render::render;

#[test]
fn render_passes_rows_from_the_bottom() {
    let img = render(3, 2, |x, row| [x as u8, row as u8, 9]);
    assert_eq!(img.width(), 3);
    assert_eq!(img.height(), 2);
    // the top row of the image is the highest row of the scene
    assert_eq!(img.get(0, 0), [0, 1, 9]);
    assert_eq!(img.get(2, 0), [2, 1, 9]);
    assert_eq!(img.get(1, 1), [1, 0, 9]);
}

#[test]
fn render_visits_row_major_from_top() {
    let order = std::cell::RefCell::new(Vec::new());
    let _ = render(2, 2, |x, row| {
        order.borrow_mut().push((x, row));
        [0, 0, 0]
    });
    assert_eq!(order.into_inner(), vec![(0, 1), (1, 1), (0, 0), (1, 0)]);
}

#[test]
fn render_uniform_shade() {
    let img = render(4, 3, |_, _| [12, 34, 56]);
    let text = String::from_utf8(img.to_ppm()).unwrap();
    assert_eq!(text.lines().count(), 3 + 12);
    assert!(text.lines().skip(3).all(|l| l == "12 34 56"));
}
