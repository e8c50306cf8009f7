use vstd::prelude::*;
use crate::image::{Image, lemma_index_distinct, lemma_index_in_grid};

verus! {

/// Renders a `width` by `height` image row by row from the top, each row
/// from the left: a pixel is what `shade` gives for its column and for its
/// row counted from the bottom, so that the scene's "up" is the image's top.
pub fn render<F: Fn(usize, usize) -> [u8; 3]>(width: usize, height: usize, shade: F) -> (r: Image)
    requires
        width * height <= usize::MAX,
        forall|x: usize, y: usize| x < width && y < height ==> #[trigger] shade.requires((x, y)),
    ensures
        r.wf(),
        r@.width == width,
        r@.height == height,
        forall|x: int, y: int|
            0 <= x < width && 0 <= y < height ==> shade.ensures(
                (x as usize, (height - 1 - y) as usize),
                #[trigger] r@.pixel(x, y),
            ),
{
    let mut image = Image::new(width, height);
    let mut y: usize = 0;
    while y < height
        invariant
            image.wf(),
            image@.width == width,
            image@.height == height,
            y <= height,
            forall|x: usize, y: usize| x < width && y < height ==> #[trigger] shade.requires((x, y)),
            forall|xx: int, yy: int|
                0 <= xx < width && 0 <= yy < y ==> shade.ensures(
                    (xx as usize, (height - 1 - yy) as usize),
                    #[trigger] image@.pixel(xx, yy),
                ),
        decreases height - y,
    {
        let mut x: usize = 0;
        while x < width
            invariant
                image.wf(),
                image@.width == width,
                image@.height == height,
                y < height,
                x <= width,
                forall|x: usize, y: usize| x < width && y < height ==> #[trigger] shade.requires((x, y)),
                forall|xx: int, yy: int|
                    0 <= xx < width && 0 <= yy < y ==> shade.ensures(
                        (xx as usize, (height - 1 - yy) as usize),
                        #[trigger] image@.pixel(xx, yy),
                    ),
                forall|xx: int|
                    0 <= xx < x ==> shade.ensures(
                        (xx as usize, (height - 1 - y) as usize),
                        #[trigger] image@.pixel(xx, y as int),
                    ),
            decreases width - x,
        {
            let c = shade(x, height - y - 1);
            let ghost before = image@;
            image.set(x, y, c);
            proof {
                lemma_index_in_grid(before, x as int, y as int);
                assert forall|xx: int, yy: int|
                    0 <= xx < width && 0 <= yy <= y && (xx != x || yy != y) implies #[trigger] image@.pixel(
                    xx,
                    yy,
                ) == before.pixel(xx, yy) by {
                    lemma_index_distinct(before, xx, yy, x as int, y as int);
                    lemma_index_in_grid(before, xx, yy);
                }
                assert forall|xx: int, yy: int|
                    0 <= xx < width && 0 <= yy < y implies shade.ensures(
                    (xx as usize, (height - 1 - yy) as usize),
                    #[trigger] image@.pixel(xx, yy),
                ) by {
                    assert(image@.pixel(xx, yy) == before.pixel(xx, yy));
                }
                assert forall|xx: int| 0 <= xx < x + 1 implies shade.ensures(
                    (xx as usize, (height - 1 - y) as usize),
                    #[trigger] image@.pixel(xx, y as int),
                ) by {
                    if xx < x {
                        assert(image@.pixel(xx, y as int) == before.pixel(xx, y as int));
                    }
                }
            }
            x = x + 1;
        }
        y = y + 1;
    }
    image
}

} // verus!
