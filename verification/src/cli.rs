use vstd::prelude::*;

verus! {

/// Frame ordering.
#[derive(Copy, Clone, Debug, PartialEq, Eq, Structural)]
pub enum Sort {
    /// Natural sort by file name (img2 before img10).
    Name,
    /// Sort by file modification time.
    Time,
    /// Keep the order given on the command line.
    Given,
}

/// Where RAW pixels come from.
#[derive(Copy, Clone, Debug, PartialEq, Eq, Structural)]
pub enum Source {
    /// Use the embedded preview when it covers the output size, else demosaic.
    Auto,
    /// Always demosaic the RAW sensor data (best quality, slowest).
    Raw,
    /// Always use the camera's embedded JPEG preview (fastest).
    Preview,
}

/// How each frame is mapped onto the output dimensions.
#[derive(Copy, Clone, Debug, PartialEq, Eq, Structural)]
pub enum Fit {
    /// Scale to fill the frame, center-cropping overflow (no bars).
    Cover,
    /// Scale to fit inside the frame, letterboxing with black.
    Contain,
    /// Stretch to exactly the target size (may distort).
    Stretch,
}


/// `a * num / den` rounded to the nearest integer (halves away from zero),
/// as a float computation cast to `u32` gives it: values past `u32::MAX`
/// become `u32::MAX`, `0 / 0` becomes 0 and a nonzero value over 0 becomes
/// `u32::MAX`.
pub open spec fn scaled_side(a: u32, num: u32, den: u32) -> u32 {
    if den == 0 {
        if a == 0 || num == 0 { 0 } else { u32::MAX }
    } else {
        let q = (2 * (a * num) + den) / (2 * den);
        if q > u32::MAX { u32::MAX } else { q as u32 }
    }
}

/// The largest even number not above `v`.
pub open spec fn even_floor(v: u32) -> u32 {
    (v - v % 2) as u32
}

/// The output size before it is made even: both sides given, one side given
/// and the other derived from the source aspect ratio, or the source size.
pub open spec fn requested_dimensions(width: Option<u32>, height: Option<u32>, src_w: u32, src_h: u32) -> (u32, u32) {
    match (width, height) {
        (Some(w), Some(h)) => (w, h),
        (Some(w), None) => (w, scaled_side(w, src_h, src_w)),
        (None, Some(h)) => (scaled_side(h, src_w, src_h), h),
        (None, None) => (src_w, src_h),
    }
}

/// The side that the encoder gets: at least 2 and even.
pub open spec fn encodable_side(v: u32) -> u32 {
    even_floor(if v < 2 { 2 } else { v })
}

fn scale_side(a: u32, num: u32, den: u32) -> (r: u32)
    ensures
        r == scaled_side(a, num, den),
{
    if den == 0 {
        if a == 0 || num == 0 { 0 } else { u32::MAX }
    } else {
        let a128: u128 = a as u128;
        let n128: u128 = num as u128;
        let d128: u128 = den as u128;
        assert(a128 * n128 <= 0xffff_ffff_ffff_ffffu128 * 0xffff_ffffu128) by (nonlinear_arith)
            requires
                a128 <= 0xffff_ffff,
                n128 <= 0xffff_ffff,
        ;
        let q: u128 = (2 * (a128 * n128) + d128) / (2 * d128);
        if q > 0xffff_ffff {
            u32::MAX
        } else {
            q as u32
        }
    }
}

fn even(v: u32) -> (r: u32)
    ensures
        r == even_floor(v),
{
    v - v % 2
}

/// The output frame size: the requested width and height where given, a
/// missing one derived from the source `src_w` x `src_h` so that the aspect
/// ratio is kept, and each side then raised to at least 2 and rounded down
/// to an even number.
pub fn resolve_dimensions(width: Option<u32>, height: Option<u32>, src_w: u32, src_h: u32) -> (r: (u32, u32))
    ensures
        r.0 == encodable_side(requested_dimensions(width, height, src_w, src_h).0),
        r.1 == encodable_side(requested_dimensions(width, height, src_w, src_h).1),
        r.0 >= 2 && r.0 % 2 == 0,
        r.1 >= 2 && r.1 % 2 == 0,
        ({
            let (w, h) = requested_dimensions(width, height, src_w, src_h);
            &&& r.0 <= (if w < 2 { 2 } else { w }) < r.0 + 2
            &&& r.1 <= (if h < 2 { 2 } else { h }) < r.1 + 2
        }),
{
    let (w, h) = match (width, height) {
        (Some(w), Some(h)) => (w, h),
        (Some(w), None) => (w, scale_side(w, src_h, src_w)),
        (None, Some(h)) => (scale_side(h, src_w, src_h), h),
        (None, None) => (src_w, src_h),
    };
    let w2 = if w < 2 { 2 } else { w };
    let h2 = if h < 2 { 2 } else { h };
    (even(w2), even(h2))
}

/// A side derived from the aspect ratio is the nearest integer to the exact
/// value: twice its distance from `a * num / den` is at most 1, unless the
/// value does not fit in a `u32`.
pub proof fn lemma_scaled_side_nearest(a: u32, num: u32, den: u32)
    requires
        den > 0,
        scaled_side(a, num, den) < u32::MAX,
    ensures
        -(den as int) <= 2 * (scaled_side(a, num, den) * den - a * num) <= den,
{
    let q = (2 * (a * num) + den) / (2 * den);
    let an = a * num;
    assert(-(den as int) <= 2 * (q * den - an) <= den) by (nonlinear_arith)
        requires
            den > 0,
            q == (2 * an + den) / (2 * den),
    ;
}

/// A given side is kept, and with neither side given the source size is
/// used. A missing side is derived so that the source aspect ratio is kept:
/// the height for width `w` is the integer nearest to `w * src_h / src_w`,
/// and the width for height `h` the one nearest to `h * src_w / src_h`
/// (unless the value does not fit in a `u32`).
pub proof fn lemma_requested_keeps_aspect(width: Option<u32>, height: Option<u32>, src_w: u32, src_h: u32)
    ensures
        width matches Some(w) ==> requested_dimensions(width, height, src_w, src_h).0 == w,
        height matches Some(h) ==> requested_dimensions(width, height, src_w, src_h).1 == h,
        width is None && height is None ==> requested_dimensions(width, height, src_w, src_h) == (src_w, src_h),
        ({
            let d = requested_dimensions(width, height, src_w, src_h);
            width is Some && height is None && src_w > 0 && d.1 < u32::MAX ==> -(src_w as int) <= 2 * (d.1 * src_w
                - width->0 * src_h) <= src_w
        }),
        ({
            let d = requested_dimensions(width, height, src_w, src_h);
            height is Some && width is None && src_h > 0 && d.0 < u32::MAX ==> -(src_h as int) <= 2 * (d.0 * src_h
                - height->0 * src_w) <= src_h
        }),
{
    match (width, height) {
        (Some(w), None) => {
            if src_w > 0 && scaled_side(w, src_h, src_w) < u32::MAX {
                lemma_scaled_side_nearest(w, src_h, src_w);
            }
        },
        (None, Some(h)) => {
            if src_h > 0 && scaled_side(h, src_w, src_h) < u32::MAX {
                lemma_scaled_side_nearest(h, src_w, src_h);
            }
        },
        _ => {},
    }
}

} // verus!
