use vstd::prelude::*;

verus! {

/// Column `x` of the alpha grid has a pixel that is not fully transparent.
pub open spec fn column_has_content(alpha: Seq<Seq<u8>>, x: int) -> bool {
    exists|y: int| 0 <= y < alpha.len() && #[trigger] alpha[y][x] != 0
}

/// Row `y` has a pixel that is not fully transparent among its first `width` columns.
pub open spec fn row_has_content(alpha: Seq<Seq<u8>>, width: int, y: int) -> bool {
    exists|x: int| 0 <= x < width && #[trigger] alpha[y][x] != 0
}

/// The size that an image with the alpha values `alpha` (row by row, each row `width` long) is
/// cropped to: fully transparent columns are cut from the right, then fully transparent rows
/// from the bottom, counting only the columns that are kept.
pub fn content_bounds(alpha: &Vec<Vec<u8>>, width: usize) -> (r: (usize, usize))
    requires
        forall|y: int| 0 <= y < alpha@.len() ==> #[trigger] alpha@[y]@.len() == width,
    ensures
        ({
            let a = alpha@.map_values(|row: Vec<u8>| row@);
            let (w, h) = r;
            &&& w <= width
            &&& forall|x: int| w <= x < width ==> !#[trigger] column_has_content(a, x)
            &&& w == 0 || column_has_content(a, w - 1)
            &&& h <= alpha@.len()
            &&& forall|y: int| h <= y < alpha@.len() ==> !#[trigger] row_has_content(a, w as int, y)
            &&& h == 0 || row_has_content(a, w as int, h - 1)
        }),
{
    let ghost a = alpha@.map_values(|row: Vec<u8>| row@);
    let height = alpha.len();
    let mut w: usize = width;
    while w > 0
        invariant
            w <= width,
            a == alpha@.map_values(|row: Vec<u8>| row@),
            height == alpha@.len(),
            forall|y: int| 0 <= y < alpha@.len() ==> #[trigger] alpha@[y]@.len() == width,
            forall|x: int| w <= x < width ==> !#[trigger] column_has_content(a, x),
        decreases w,
    {
        let mut y: usize = 0;
        while y < height
            invariant
                0 < w <= width,
                a == alpha@.map_values(|row: Vec<u8>| row@),
                height == alpha@.len(),
                forall|k: int| 0 <= k < alpha@.len() ==> #[trigger] alpha@[k]@.len() == width,
                y <= height,
                forall|x: int| w <= x < width ==> !#[trigger] column_has_content(a, x),
                forall|k: int| 0 <= k < y ==> #[trigger] a[k][w - 1] == 0,
            decreases height - y,
        {
            if alpha[y][w - 1] != 0 {
                assert(a[y as int][w - 1] != 0);
                return content_rows(alpha, width, w);
            }
            y = y + 1;
        }
        assert(!column_has_content(a, w - 1));
        w = w - 1;
    }
    content_rows(alpha, width, 0)
}

/// `(w, h)` for columns `..w` kept: `h` is one past the last row with content in them.
fn content_rows(alpha: &Vec<Vec<u8>>, width: usize, w: usize) -> (r: (usize, usize))
    requires
        w <= width,
        forall|y: int| 0 <= y < alpha@.len() ==> #[trigger] alpha@[y]@.len() == width,
    ensures
        ({
            let a = alpha@.map_values(|row: Vec<u8>| row@);
            &&& r.0 == w
            &&& r.1 <= alpha@.len()
            &&& forall|y: int| r.1 <= y < alpha@.len() ==> !#[trigger] row_has_content(a, w as int, y)
            &&& r.1 == 0 || row_has_content(a, w as int, r.1 - 1)
        }),
{
    let ghost a = alpha@.map_values(|row: Vec<u8>| row@);
    let mut h: usize = alpha.len();
    while h > 0
        invariant
            h <= alpha@.len(),
            w <= width,
            a == alpha@.map_values(|row: Vec<u8>| row@),
            forall|y: int| 0 <= y < alpha@.len() ==> #[trigger] alpha@[y]@.len() == width,
            forall|y: int| h <= y < alpha@.len() ==> !#[trigger] row_has_content(a, w as int, y),
        decreases h,
    {
        let mut x: usize = 0;
        while x < w
            invariant
                0 < h <= alpha@.len(),
                w <= width,
                a == alpha@.map_values(|row: Vec<u8>| row@),
                forall|y: int| 0 <= y < alpha@.len() ==> #[trigger] alpha@[y]@.len() == width,
                x <= w,
                forall|y: int| h <= y < alpha@.len() ==> !#[trigger] row_has_content(a, w as int, y),
                forall|k: int| 0 <= k < x ==> #[trigger] a[h - 1][k] == 0,
            decreases w - x,
        {
            if alpha[h - 1][x] != 0 {
                assert(a[h - 1][x as int] != 0);
                return (w, h);
            }
            x = x + 1;
        }
        assert(!row_has_content(a, w as int, h - 1));
        h = h - 1;
    }
    (w, 0)
}

} // verus!
