use vstd::prelude::*;

verus! {

/// `n` zero bytes.
pub open spec fn black(n: nat) -> Seq<u8> {
    Seq::new(n, |i: int| 0u8)
}

/// The `n` RGB pixels of row `y` of a `w`-wide image, starting at column `x0`.
pub open spec fn row_pixels(img: Seq<u8>, w: nat, y: nat, x0: nat, n: nat) -> Seq<u8> {
    img.subrange(((y * w + x0) * 3) as int, ((y * w + x0 + n) * 3) as int)
}

/// The first `rows` rows of the `tw`-wide window of a `w`-wide image whose
/// top-left corner is at (`x0`, `y0`).
pub open spec fn crop_rows(img: Seq<u8>, w: nat, x0: nat, y0: nat, tw: nat, rows: nat) -> Seq<u8>
    decreases rows,
{
    if rows == 0 {
        Seq::empty()
    } else {
        crop_rows(img, w, x0, y0, tw, (rows - 1) as nat) + row_pixels(img, w, (y0 + rows - 1) as nat, x0, tw)
    }
}

/// Row `y` of a black `tw`-wide canvas with an `nw` x `nh` image drawn at
/// (`x0`, `y0`).
pub open spec fn overlay_row(img: Seq<u8>, nw: nat, nh: nat, tw: nat, x0: nat, y0: nat, y: nat) -> Seq<u8> {
    if y0 <= y && y < y0 + nh {
        black(x0 * 3) + row_pixels(img, nw, (y - y0) as nat, 0, nw) + black(((tw - x0 - nw) * 3) as nat)
    } else {
        black(tw * 3)
    }
}

/// The first `rows` rows of that canvas.
pub open spec fn overlay_rows(img: Seq<u8>, nw: nat, nh: nat, tw: nat, x0: nat, y0: nat, rows: nat) -> Seq<u8>
    decreases rows,
{
    if rows == 0 {
        Seq::empty()
    } else {
        overlay_rows(img, nw, nh, tw, x0, y0, (rows - 1) as nat) + overlay_row(img, nw, nh, tw, x0, y0, (rows - 1) as nat)
    }
}

/// Byte `c` (0 red, 1 green, 2 blue) of the pixel in column `x` and row `y`
/// of a `w`-wide RGB image.
pub open spec fn pixel_byte(img: Seq<u8>, w: nat, x: nat, y: nat, c: nat) -> u8 {
    img[((y * w + x) * 3 + c) as int]
}

pub proof fn lemma_row_in_bounds(w: nat, h: nat, y: nat, x0: nat, n: nat)
    requires
        y < h,
        x0 + n <= w,
    ensures
        (y * w + x0 + n) * 3 <= w * h * 3,
        (y * w + x0) * 3 <= (y * w + x0 + n) * 3,
{
    assert((y + 1) * w <= h * w) by (nonlinear_arith)
        requires
            y + 1 <= h,
    ;
    assert(y * w + w == (y + 1) * w) by (nonlinear_arith);
    assert(h * w == w * h) by (nonlinear_arith);
}

pub proof fn lemma_crop_rows_len(img: Seq<u8>, w: nat, h: nat, x0: nat, y0: nat, tw: nat, rows: nat)
    requires
        img.len() == w * h * 3,
        x0 + tw <= w,
        y0 + rows <= h,
    ensures
        crop_rows(img, w, x0, y0, tw, rows).len() == rows * tw * 3,
    decreases rows,
{
    if rows > 0 {
        let r1 = (rows - 1) as nat;
        lemma_crop_rows_len(img, w, h, x0, y0, tw, r1);
        let y = (y0 + rows - 1) as nat;
        lemma_row_in_bounds(w, h, y, x0, tw);
        assert(row_pixels(img, w, y, x0, tw).len() == tw * 3);
        assert(r1 * tw * 3 + tw * 3 == rows * tw * 3) by (nonlinear_arith)
            requires
                r1 + 1 == rows,
        ;
        assert(crop_rows(img, w, x0, y0, tw, rows) == crop_rows(img, w, x0, y0, tw, r1) + row_pixels(img, w, y, x0, tw));
    } else {
        assert(rows * tw * 3 == 0) by (nonlinear_arith)
            requires
                rows == 0,
        ;
    }
}

/// Pixel (`x`, `y`) of a window is pixel (`x0 + x`, `y0 + y`) of the image
/// it is cut from.
pub proof fn lemma_crop_rows_pixel(
    img: Seq<u8>,
    w: nat,
    h: nat,
    x0: nat,
    y0: nat,
    tw: nat,
    rows: nat,
    x: nat,
    y: nat,
    c: nat,
)
    requires
        img.len() == w * h * 3,
        x0 + tw <= w,
        y0 + rows <= h,
        x < tw,
        y < rows,
        c < 3,
    ensures
        pixel_byte(crop_rows(img, w, x0, y0, tw, rows), tw, x, y, c) == pixel_byte(img, w, x0 + x, y0 + y, c),
    decreases rows,
{
    let r1 = (rows - 1) as nat;
    lemma_crop_rows_len(img, w, h, x0, y0, tw, r1);
    let prefix = crop_rows(img, w, x0, y0, tw, r1);
    let row = row_pixels(img, w, y0 + r1, x0, tw);
    lemma_row_in_bounds(w, h, y0 + r1, x0, tw);
    assert(crop_rows(img, w, x0, y0, tw, rows) == prefix + row);
    let i: int = ((y * tw + x) * 3 + c) as int;
    if y < r1 {
        lemma_crop_rows_pixel(img, w, h, x0, y0, tw, r1, x, y, c);
        assert(i < r1 * tw * 3) by (nonlinear_arith)
            requires
                y < r1,
                x < tw,
                c < 3,
                i == (y * tw + x) * 3 + c,
        ;
        assert((prefix + row)[i] == prefix[i]);
    } else {
        assert(i - r1 * tw * 3 == x * 3 + c) by (nonlinear_arith)
            requires
                y == r1,
                i == (y * tw + x) * 3 + c,
        ;
        assert(row.len() == tw * 3);
        assert((prefix + row)[i] == row[(x * 3 + c) as int]);
        assert(((y0 + r1) * w + x0) * 3 + (x * 3 + c) == ((y0 + y) * w + (x0 + x)) * 3 + c) by (nonlinear_arith)
            requires
                y == r1,
        ;
    }
}

pub proof fn lemma_overlay_rows_len(img: Seq<u8>, nw: nat, nh: nat, tw: nat, x0: nat, y0: nat, rows: nat)
    requires
        img.len() == nw * nh * 3,
        x0 + nw <= tw,
    ensures
        overlay_rows(img, nw, nh, tw, x0, y0, rows).len() == rows * tw * 3,
    decreases rows,
{
    if rows > 0 {
        let r1 = (rows - 1) as nat;
        lemma_overlay_rows_len(img, nw, nh, tw, x0, y0, r1);
        let y = r1;
        if y0 <= y && y < y0 + nh {
            lemma_row_in_bounds(nw, nh, (y - y0) as nat, 0, nw);
            assert(row_pixels(img, nw, (y - y0) as nat, 0, nw).len() == nw * 3);
        }
        assert(overlay_row(img, nw, nh, tw, x0, y0, y).len() == tw * 3);
        assert(r1 * tw * 3 + tw * 3 == rows * tw * 3) by (nonlinear_arith)
            requires
                r1 + 1 == rows,
        ;
        assert(overlay_rows(img, nw, nh, tw, x0, y0, rows) == overlay_rows(img, nw, nh, tw, x0, y0, r1) + overlay_row(img, nw, nh, tw, x0, y0, y));
    } else {
        assert(rows * tw * 3 == 0) by (nonlinear_arith)
            requires
                rows == 0,
        ;
    }
}

/// Pixel (`x`, `y`) of the canvas is pixel (`x - x0`, `y - y0`) of the image
/// where the image lies, and black everywhere else.
pub proof fn lemma_overlay_rows_pixel(
    img: Seq<u8>,
    nw: nat,
    nh: nat,
    tw: nat,
    x0: nat,
    y0: nat,
    rows: nat,
    x: nat,
    y: nat,
    c: nat,
)
    requires
        img.len() == nw * nh * 3,
        x0 + nw <= tw,
        x < tw,
        y < rows,
        c < 3,
    ensures
        pixel_byte(overlay_rows(img, nw, nh, tw, x0, y0, rows), tw, x, y, c) == (if y0 <= y < y0 + nh && x0 <= x
            < x0 + nw {
            pixel_byte(img, nw, (x - x0) as nat, (y - y0) as nat, c)
        } else {
            0u8
        }),
    decreases rows,
{
    let r1 = (rows - 1) as nat;
    lemma_overlay_rows_len(img, nw, nh, tw, x0, y0, r1);
    let prefix = overlay_rows(img, nw, nh, tw, x0, y0, r1);
    let row = overlay_row(img, nw, nh, tw, x0, y0, r1);
    assert(overlay_rows(img, nw, nh, tw, x0, y0, rows) == prefix + row);
    let i: int = ((y * tw + x) * 3 + c) as int;
    if y < r1 {
        lemma_overlay_rows_pixel(img, nw, nh, tw, x0, y0, r1, x, y, c);
        assert(i < r1 * tw * 3) by (nonlinear_arith)
            requires
                y < r1,
                x < tw,
                c < 3,
                i == (y * tw + x) * 3 + c,
        ;
        assert((prefix + row)[i] == prefix[i]);
    } else {
        let k: int = (x * 3 + c) as int;
        assert(i - r1 * tw * 3 == k) by (nonlinear_arith)
            requires
                y == r1,
                i == (y * tw + x) * 3 + c,
                k == x * 3 + c,
        ;
        if y0 <= y && y < y0 + nh {
            let ry = (y - y0) as nat;
            lemma_row_in_bounds(nw, nh, ry, 0, nw);
            let a = black(x0 * 3);
            let b = row_pixels(img, nw, ry, 0, nw);
            let d = black(((tw - x0 - nw) * 3) as nat);
            assert(row == a + b + d);
            assert(b.len() == nw * 3);
            assert((prefix + row)[i] == row[k]);
            if x < x0 {
                assert((a + b + d)[k] == a[k]);
            } else if x < x0 + nw {
                assert(k - x0 * 3 == (x - x0) * 3 + c);
                assert((a + b + d)[k] == b[k - x0 * 3]);
                assert((ry * nw + 0) * 3 + ((x - x0) * 3 + c) == (ry * nw + (x - x0)) * 3 + c) by (nonlinear_arith);
            } else {
                assert((a + b + d)[k] == d[k - x0 * 3 - nw * 3]);
            }
        } else {
            assert(row == black(tw * 3));
            assert((prefix + row)[i] == row[k]);
        }
    }
}

/// Appends `n` zero bytes.
pub fn push_black(out: &mut Vec<u8>, n: usize)
    ensures
        final(out)@ == old(out)@ + black(n as nat),
{
    let ghost start = out@;
    let mut i: usize = 0;
    while i < n
        invariant
            i <= n,
            out@ == start + black(i as nat),
        decreases n - i,
    {
        out.push(0u8);
        i = i + 1;
        assert(out@ =~= start + black(i as nat));
    }
}

/// Appends `src[from..to]`.
fn push_range(out: &mut Vec<u8>, src: &Vec<u8>, from: usize, to: usize)
    requires
        from <= to <= src@.len(),
    ensures
        final(out)@ == old(out)@ + src@.subrange(from as int, to as int),
{
    let ghost start = out@;
    let mut i: usize = from;
    while i < to
        invariant
            from <= i <= to <= src@.len(),
            out@ == start + src@.subrange(from as int, i as int),
        decreases to - i,
    {
        out.push(src[i]);
        i = i + 1;
        assert(out@ =~= start + src@.subrange(from as int, i as int));
    }
}

/// The `tw` x `th` window of the `w` x `h` image `img` whose top-left corner
/// is at (`x0`, `y0`).
pub fn crop(img: &Vec<u8>, w: u32, h: u32, x0: u32, y0: u32, tw: u32, th: u32) -> (r: Vec<u8>)
    requires
        img@.len() == w * h * 3,
        x0 + tw <= w,
        y0 + th <= h,
    ensures
        r@ == crop_rows(img@, w as nat, x0 as nat, y0 as nat, tw as nat, th as nat),
        r@.len() == tw * th * 3,
        forall|x: nat, y: nat, c: nat|
            x < tw && y < th && c < 3 ==> #[trigger] pixel_byte(r@, tw as nat, x, y, c) == pixel_byte(
                img@,
                w as nat,
                x0 as nat + x,
                y0 as nat + y,
                c,
            ),
{
    proof {
        lemma_crop_rows_len(img@, w as nat, h as nat, x0 as nat, y0 as nat, tw as nat, th as nat);
        assert(th * tw * 3 == tw * th * 3) by (nonlinear_arith);
        assert forall|x: nat, y: nat, c: nat| x < tw && y < th && c < 3 implies #[trigger] pixel_byte(
            crop_rows(img@, w as nat, x0 as nat, y0 as nat, tw as nat, th as nat),
            tw as nat,
            x,
            y,
            c,
        ) == pixel_byte(img@, w as nat, x0 as nat + x, y0 as nat + y, c) by {
            lemma_crop_rows_pixel(img@, w as nat, h as nat, x0 as nat, y0 as nat, tw as nat, th as nat, x, y, c);
        }
    }
    let total = img.len();
    let mut out: Vec<u8> = Vec::new();
    let mut y: u32 = 0;
    while y < th
        invariant
            total == img@.len(),
            img@.len() == w * h * 3,
            x0 + tw <= w,
            y0 + th <= h,
            y <= th,
            out@ == crop_rows(img@, w as nat, x0 as nat, y0 as nat, tw as nat, y as nat),
        decreases th - y,
    {
        let row: u32 = y0 + y;
        proof {
            lemma_row_in_bounds(w as nat, h as nat, row as nat, x0 as nat, tw as nat);
        }
        let start: usize = ((row as usize) * (w as usize) + x0 as usize) * 3;
        let end: usize = ((row as usize) * (w as usize) + x0 as usize + tw as usize) * 3;
        push_range(&mut out, img, start, end);
        y = y + 1;
    }
    out
}

/// A black `tw` x `th` canvas with the `nw` x `nh` image `img` drawn with its
/// top-left corner at (`x0`, `y0`).
pub fn overlay_on_black(img: &Vec<u8>, nw: u32, nh: u32, tw: u32, th: u32, x0: u32, y0: u32) -> (r: Vec<u8>)
    requires
        img@.len() == nw * nh * 3,
        x0 + nw <= tw,
        y0 + nh <= th,
        tw * th * 3 <= usize::MAX,
    ensures
        r@ == overlay_rows(img@, nw as nat, nh as nat, tw as nat, x0 as nat, y0 as nat, th as nat),
        r@.len() == tw * th * 3,
        forall|x: nat, y: nat, c: nat|
            x < tw && y < th && c < 3 ==> #[trigger] pixel_byte(r@, tw as nat, x, y, c) == (if y0 <= y < y0 + nh
                && x0 <= x < x0 + nw {
                pixel_byte(img@, nw as nat, (x - x0) as nat, (y - y0) as nat, c)
            } else {
                0u8
            }),
{
    proof {
        lemma_overlay_rows_len(img@, nw as nat, nh as nat, tw as nat, x0 as nat, y0 as nat, th as nat);
        assert(th * tw * 3 == tw * th * 3) by (nonlinear_arith);
        assert forall|x: nat, y: nat, c: nat| x < tw && y < th && c < 3 implies #[trigger] pixel_byte(
            overlay_rows(img@, nw as nat, nh as nat, tw as nat, x0 as nat, y0 as nat, th as nat),
            tw as nat,
            x,
            y,
            c,
        ) == (if y0 <= y < y0 + nh && x0 <= x < x0 + nw {
            pixel_byte(img@, nw as nat, (x - x0) as nat, (y - y0) as nat, c)
        } else {
            0u8
        }) by {
            lemma_overlay_rows_pixel(img@, nw as nat, nh as nat, tw as nat, x0 as nat, y0 as nat, th as nat, x, y, c);
        }
    }
    let total = img.len();
    let mut out: Vec<u8> = Vec::new();
    let mut y: u32 = 0;
    assert(th > 0 ==> tw * 3 <= tw * th * 3) by (nonlinear_arith);
    while y < th
        invariant
            total == img@.len(),
            img@.len() == nw * nh * 3,
            x0 + nw <= tw,
            y0 + nh <= th,
            y <= th,
            th > 0 ==> tw * 3 <= usize::MAX,
            out@ == overlay_rows(img@, nw as nat, nh as nat, tw as nat, x0 as nat, y0 as nat, y as nat),
        decreases th - y,
    {
        if y0 <= y && y < y0 + nh {
            let row: u32 = y - y0;
            proof {
                lemma_row_in_bounds(nw as nat, nh as nat, row as nat, 0, nw as nat);
            }
            push_black(&mut out, (x0 as usize) * 3);
            let start: usize = (row as usize) * (nw as usize) * 3;
            let end: usize = ((row as usize) * (nw as usize) + nw as usize) * 3;
            push_range(&mut out, img, start, end);
            push_black(&mut out, ((tw - x0 - nw) as usize) * 3);
            assert(out@ =~= overlay_rows(img@, nw as nat, nh as nat, tw as nat, x0 as nat, y0 as nat, (y + 1) as nat));
        } else {
            push_black(&mut out, (tw as usize) * 3);
        }
        y = y + 1;
    }
    out
}

/// The pixels that `image::imageops::resize` with `FilterType::Triangle`
/// makes of the `w` x `h` RGB image `pixels` at the new size `nw` x `nh`.
pub uninterp spec fn triangle_resized(pixels: Seq<u8>, w: u32, h: u32, nw: u32, nh: u32) -> Seq<u8>;

/// Resizes an RGB image with `image::imageops::resize` and
/// `FilterType::Triangle`, going through `image::RgbImage::from_raw` and
/// `into_raw`. Trusted: the result is `triangle_resized` of the arguments and
/// holds `nw * nh` pixels; as the source of `resize` shows, an image that
/// already has the new size is copied unchanged, and an image with no pixels
/// gives an all-zero (black) buffer. The pixel values themselves are not
/// stated.
#[verifier::external_body]
pub(crate) fn resize_triangle(pixels: Vec<u8>, w: u32, h: u32, nw: u32, nh: u32) -> (r: Vec<u8>)
    requires
        pixels@.len() == w * h * 3,
        nw * nh * 3 <= usize::MAX,
    ensures
        r@ == triangle_resized(pixels@, w, h, nw, nh),
        r@.len() == nw * nh * 3,
        w == nw && h == nh ==> r@ == pixels@,
        w == 0 || h == 0 ==> r@ == black((nw * nh * 3) as nat),
{
    let img = image::RgbImage::from_raw(w, h, pixels).unwrap();
    image::imageops::resize(&img, nw, nh, image::imageops::FilterType::Triangle).into_raw()
}

} // verus!
