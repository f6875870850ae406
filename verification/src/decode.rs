use crate::cli::{Fit, Source};
use crate::collect::{is_raw, is_raw_path};
use crate::frame::{black, crop, crop_rows, lemma_crop_rows_len, overlay_on_black, overlay_rows, pixel_byte, push_black, resize_triangle, triangle_resized};
use vstd::prelude::*;

verus! {

/// Concrete decode strategy for a RAW file, after `Source::Auto` has been
/// resolved against the output size. Non-RAW inputs ignore this.
#[derive(Copy, Clone, Debug, PartialEq, Eq, Structural)]
pub enum RawMode {
    /// Demosaic the sensor data through rawler's full develop pipeline.
    Develop,
    /// Decode the camera's embedded JPEG preview (no demosaic).
    Preview,
}

/// How a RAW file's pixels are obtained: `Raw` always demosaics, `Preview`
/// always takes the embedded preview, and `Auto` takes the preview when there
/// is one that covers the `tw` x `th` output, else demosaics.
pub open spec fn raw_mode_spec(source: Source, preview: Option<(u32, u32)>, tw: u32, th: u32) -> RawMode {
    match source {
        Source::Raw => RawMode::Develop,
        Source::Preview => RawMode::Preview,
        Source::Auto => match preview {
            Some((pw, ph)) => if pw >= tw && ph >= th {
                RawMode::Preview
            } else {
                RawMode::Develop
            },
            None => RawMode::Develop,
        },
    }
}

/// There is an embedded preview and it is at least `tw` wide and at least
/// `th` high, so it covers the output on both sides.
pub open spec fn preview_covers(preview: Option<(u32, u32)>, tw: u32, th: u32) -> bool {
    match preview {
        Some((pw, ph)) => tw <= pw && th <= ph,
        None => false,
    }
}

/// With `Source::Auto` the preview is taken exactly when it covers the
/// output on both sides: one that is narrower or lower than the output, or
/// no preview at all, means demosaicing. `Source::Raw` always demosaics and
/// `Source::Preview` always takes the preview, whatever its size.
pub proof fn lemma_auto_takes_covering_preview(preview: Option<(u32, u32)>, tw: u32, th: u32)
    ensures
        raw_mode_spec(Source::Auto, preview, tw, th) == RawMode::Preview <==> preview_covers(preview, tw, th),
        preview matches Some((pw, ph)) && (pw < tw || ph < th) ==> raw_mode_spec(Source::Auto, preview, tw, th) == RawMode::Develop,
        raw_mode_spec(Source::Raw, preview, tw, th) == RawMode::Develop,
        raw_mode_spec(Source::Preview, preview, tw, th) == RawMode::Preview,
{
}

/// Resolves `source` for an output of `tw` x `th`, given the size of the
/// embedded preview (`None` when there is none).
pub fn raw_mode(source: Source, preview: Option<(u32, u32)>, tw: u32, th: u32) -> (r: RawMode)
    ensures
        r == raw_mode_spec(source, preview, tw, th),
        source == Source::Raw ==> r == RawMode::Develop,
        source == Source::Preview ==> r == RawMode::Preview,
        source == Source::Auto ==> (r == RawMode::Preview <==> preview_covers(preview, tw, th)),
{
    match source {
        Source::Raw => RawMode::Develop,
        Source::Preview => RawMode::Preview,
        Source::Auto => match preview {
            Some((pw, ph)) => if pw >= tw && ph >= th {
                RawMode::Preview
            } else {
                RawMode::Develop
            },
            None => RawMode::Develop,
        },
    }
}

/// The decoder that reads a frame file.
#[derive(Copy, Clone, Debug, PartialEq, Eq, Structural)]
pub enum Decoder {
    /// rawler's full develop pipeline.
    RawDevelop,
    /// The RAW file's embedded preview.
    RawPreview,
    /// The `image` crate, for PNG, JPEG and WebP.
    Image,
}

/// RAW files go through rawler as `mode` says; other files through `image`.
pub open spec fn decoder_spec(path: Seq<char>, mode: RawMode) -> Decoder {
    if is_raw_path(path) {
        match mode {
            RawMode::Develop => Decoder::RawDevelop,
            RawMode::Preview => Decoder::RawPreview,
        }
    } else {
        Decoder::Image
    }
}

/// The decoder for the frame file at `path`.
pub fn decoder_for(path: &str, mode: RawMode) -> (r: Decoder)
    ensures
        r == decoder_spec(path@, mode),
        r == Decoder::Image <==> !is_raw_path(path@),
        r == Decoder::RawPreview <==> is_raw_path(path@) && mode == RawMode::Preview,
        r == Decoder::RawDevelop <==> is_raw_path(path@) && mode == RawMode::Develop,
{
    if is_raw(path) {
        match mode {
            RawMode::Develop => Decoder::RawDevelop,
            RawMode::Preview => Decoder::RawPreview,
        }
    } else {
        Decoder::Image
    }
}


/// `v` capped at `u32::MAX`, as a float-to-`u32` cast caps it.
pub open spec fn saturate_u32(v: int) -> u32 {
    if v > u32::MAX { u32::MAX } else if v < 0 { 0 } else { v as u32 }
}

/// `v` kept within `1..=hi`.
pub open spec fn clamp_side(v: int, hi: u32) -> u32 {
    if v < 1 { 1 } else if v > hi { hi } else { v as u32 }
}

/// The size a `w` x `h` frame (both nonzero) is scaled to for `Fit::Cover`:
/// the smallest scale at which it covers `tw` x `th`, rounding up.
pub open spec fn cover_size(w: u32, h: u32, tw: u32, th: u32) -> (u32, u32) {
    if tw * h >= th * w {
        (tw, saturate_u32((h * tw + w - 1) / (w as int)))
    } else {
        (saturate_u32((w * th + h - 1) / (h as int)), th)
    }
}

/// The size a `w` x `h` frame (both nonzero) is scaled to for
/// `Fit::Contain`: the largest scale at which it fits inside `tw` x `th`,
/// rounding to nearest and keeping each side within `1..=` the target side.
pub open spec fn contain_size(w: u32, h: u32, tw: u32, th: u32) -> (u32, u32) {
    if tw * h <= th * w {
        (tw, clamp_side((2 * (h * tw) + w) / (2 * w as int), th))
    } else {
        (clamp_side((2 * (w * th) + h) / (2 * h as int), tw), th)
    }
}

/// The `tw` x `th` output frame made of the `w` x `h` RGB frame `rgb`: the
/// frame itself when it already has that size; all black when it has no
/// pixels; otherwise resized (Triangle filter) to exactly the target
/// (`Stretch`), to cover it and then center-cropped (`Cover`), or to fit
/// inside it and then centered on a black canvas (`Contain`).
pub open spec fn fitted(rgb: Seq<u8>, w: u32, h: u32, tw: u32, th: u32, fit: Fit) -> Seq<u8> {
    if w == tw && h == th {
        rgb
    } else if w == 0 || h == 0 {
        black((tw * th * 3) as nat)
    } else {
        match fit {
            Fit::Stretch => triangle_resized(rgb, w, h, tw, th),
            Fit::Cover => {
                let (nw, nh) = cover_size(w, h, tw, th);
                crop_rows(
                    triangle_resized(rgb, w, h, nw, nh),
                    nw as nat,
                    ((nw - tw) / 2) as nat,
                    ((nh - th) / 2) as nat,
                    tw as nat,
                    th as nat,
                )
            },
            Fit::Contain => {
                let (nw, nh) = contain_size(w, h, tw, th);
                overlay_rows(
                    triangle_resized(rgb, w, h, nw, nh),
                    nw as nat,
                    nh as nat,
                    tw as nat,
                    ((tw - nw) / 2) as nat,
                    ((th - nh) / 2) as nat,
                    th as nat,
                )
            },
        }
    }
}

/// The inputs on which fitting a frame can run: a `Contain` target has no
/// empty side, a `Cover` source that is to be resized has either no empty
/// side or two, and the buffers it allocates have a size that fits in memory.
pub open spec fn fit_possible(w: u32, h: u32, tw: u32, th: u32, fit: Fit) -> bool {
    &&& tw * th * 3 <= usize::MAX
    &&& fit == Fit::Contain ==> tw >= 1 && th >= 1
    &&& (fit == Fit::Cover && !(w == tw && h == th)) ==> (w == 0) == (h == 0)
    &&& (fit == Fit::Cover && w > 0 && h > 0) ==> cover_size(w, h, tw, th).0 * cover_size(w, h, tw, th).1 * 3
        <= usize::MAX
}

/// The size for `Fit::Cover`; it covers the target, and one side matches.
pub fn cover_dims(w: u32, h: u32, tw: u32, th: u32) -> (r: (u32, u32))
    requires
        w > 0,
        h > 0,
    ensures
        r == cover_size(w, h, tw, th),
        r.0 >= tw && r.1 >= th,
        r.0 == tw || r.1 == th,
        tw * h >= th * w ==> r.0 == tw && (r.1 == u32::MAX || h * tw <= r.1 * w) && (r.1 - 1) * w < h * tw,
        tw * h < th * w ==> r.1 == th && (r.0 == u32::MAX || w * th <= r.0 * h) && (r.0 - 1) * h < w * th,
{
    let w1 = w as u128;
    let h1 = h as u128;
    let tw1 = tw as u128;
    let th1 = th as u128;
    assert(tw1 * h1 <= 0xffff_ffff * 0xffff_ffffu128 && th1 * w1 <= 0xffff_ffff * 0xffff_ffffu128) by (nonlinear_arith)
        requires
            w1 <= 0xffff_ffff,
            h1 <= 0xffff_ffff,
            tw1 <= 0xffff_ffff,
            th1 <= 0xffff_ffff,
    ;
    if tw1 * h1 >= th1 * w1 {
        let q = (h1 * tw1 + w1 - 1) / w1;
        assert(q >= th1) by (nonlinear_arith)
            requires
                tw1 * h1 >= th1 * w1,
                w1 > 0,
                q == (h1 * tw1 + w1 - 1) / (w1 as int),
        ;
        assert(h1 * tw1 <= q * w1 && (q - 1) * w1 < h1 * tw1) by (nonlinear_arith)
            requires
                w1 > 0,
                q == (h1 * tw1 + w1 - 1) / (w1 as int),
        ;
        let nh = if q > 0xffff_ffff { u32::MAX } else { q as u32 };
        assert((nh - 1) * w1 < h1 * tw1) by (nonlinear_arith)
            requires
                nh <= q,
                (q - 1) * w1 < h1 * tw1,
        ;
        (tw, nh)
    } else {
        let q = (w1 * th1 + h1 - 1) / h1;
        assert(q >= tw1) by (nonlinear_arith)
            requires
                tw1 * h1 < th1 * w1,
                h1 > 0,
                q == (w1 * th1 + h1 - 1) / (h1 as int),
        ;
        assert(w1 * th1 <= q * h1 && (q - 1) * h1 < w1 * th1) by (nonlinear_arith)
            requires
                h1 > 0,
                q == (w1 * th1 + h1 - 1) / (h1 as int),
        ;
        let nw = if q > 0xffff_ffff { u32::MAX } else { q as u32 };
        assert((nw - 1) * h1 < w1 * th1) by (nonlinear_arith)
            requires
                nw <= q,
                (q - 1) * h1 < w1 * th1,
        ;
        (nw, th)
    }
}

/// The size for `Fit::Contain`; it fits inside the target, and one side
/// matches.
pub fn contain_dims(w: u32, h: u32, tw: u32, th: u32) -> (r: (u32, u32))
    requires
        w > 0,
        h > 0,
        tw > 0,
        th > 0,
    ensures
        r == contain_size(w, h, tw, th),
        1 <= r.0 <= tw && 1 <= r.1 <= th,
        r.0 == tw || r.1 == th,
        tw * h <= th * w ==> {
            &&& r.0 == tw
            &&& r.1 > 1 ==> 2 * r.1 * w <= 2 * h * tw + w
            &&& r.1 < th ==> 2 * h * tw + w < 2 * (r.1 + 1) * w
        },
        tw * h > th * w ==> {
            &&& r.1 == th
            &&& r.0 > 1 ==> 2 * r.0 * h <= 2 * w * th + h
            &&& r.0 < tw ==> 2 * w * th + h < 2 * (r.0 + 1) * h
        },
{
    let w1 = w as u128;
    let h1 = h as u128;
    let tw1 = tw as u128;
    let th1 = th as u128;
    assert(tw1 * h1 <= 0xffff_ffff * 0xffff_ffffu128 && th1 * w1 <= 0xffff_ffff * 0xffff_ffffu128) by (nonlinear_arith)
        requires
            w1 <= 0xffff_ffff,
            h1 <= 0xffff_ffff,
            tw1 <= 0xffff_ffff,
            th1 <= 0xffff_ffff,
    ;
    if tw1 * h1 <= th1 * w1 {
        let q = (2 * (h1 * tw1) + w1) / (2 * w1);
        assert(2 * q * w1 <= 2 * h1 * tw1 + w1 < 2 * (q + 1) * w1) by (nonlinear_arith)
            requires
                w1 > 0,
                q == (2 * (h1 * tw1) + w1) / (2 * w1 as int),
        ;
        let nh = if q < 1 { 1 } else if q > th1 { th } else { q as u32 };
        assert(nh > 1 ==> 2 * nh * w1 <= 2 * h1 * tw1 + w1) by (nonlinear_arith)
            requires
                nh > 1 ==> nh <= q,
                2 * q * w1 <= 2 * h1 * tw1 + w1,
        ;
        assert(nh < th1 ==> 2 * h1 * tw1 + w1 < 2 * (nh + 1) * w1) by (nonlinear_arith)
            requires
                nh < th1 ==> q <= nh,
                2 * h1 * tw1 + w1 < 2 * (q + 1) * w1,
        ;
        (tw, nh)
    } else {
        let q = (2 * (w1 * th1) + h1) / (2 * h1);
        assert(2 * q * h1 <= 2 * w1 * th1 + h1 < 2 * (q + 1) * h1) by (nonlinear_arith)
            requires
                h1 > 0,
                q == (2 * (w1 * th1) + h1) / (2 * h1 as int),
        ;
        let nw = if q < 1 { 1 } else if q > tw1 { tw } else { q as u32 };
        assert(nw > 1 ==> 2 * nw * h1 <= 2 * w1 * th1 + h1) by (nonlinear_arith)
            requires
                nw > 1 ==> nw <= q,
                2 * q * h1 <= 2 * w1 * th1 + h1,
        ;
        assert(nw < tw1 ==> 2 * w1 * th1 + h1 < 2 * (nw + 1) * h1) by (nonlinear_arith)
            requires
                nw < tw1 ==> q <= nw,
                2 * w1 * th1 + h1 < 2 * (q + 1) * h1,
        ;
        (nw, th)
    }
}

/// Maps the decoded `w` x `h` RGB frame `rgb` onto the `tw` x `th` output as
/// `fit` says (see `fitted`), giving the raw RGB bytes that go to the
/// encoder.
pub fn load_frame(rgb: Vec<u8>, w: u32, h: u32, tw: u32, th: u32, fit: Fit) -> (r: Vec<u8>)
    requires
        rgb@.len() == w * h * 3,
        fit_possible(w, h, tw, th, fit),
    ensures
        r@ == fitted(rgb@, w, h, tw, th, fit),
        r@.len() == tw * th * 3,
        w == tw && h == th ==> r@ == rgb@,
        !(w == tw && h == th) && (w == 0 || h == 0) ==> r@ == black((tw * th * 3) as nat),
        !(w == tw && h == th) && w > 0 && h > 0 && fit == Fit::Stretch ==> r@ == triangle_resized(rgb@, w, h, tw, th),
        !(w == tw && h == th) && w > 0 && h > 0 && fit == Fit::Cover ==> ({
            let (nw, nh) = cover_size(w, h, tw, th);
            forall|x: nat, y: nat, c: nat|
                x < tw && y < th && c < 3 ==> #[trigger] pixel_byte(r@, tw as nat, x, y, c) == pixel_byte(
                    triangle_resized(rgb@, w, h, nw, nh),
                    nw as nat,
                    x + ((nw - tw) / 2) as nat,
                    y + ((nh - th) / 2) as nat,
                    c,
                )
        }),
        !(w == tw && h == th) && w > 0 && h > 0 && fit == Fit::Contain ==> ({
            let (nw, nh) = contain_size(w, h, tw, th);
            let x0 = ((tw - nw) / 2) as nat;
            let y0 = ((th - nh) / 2) as nat;
            forall|x: nat, y: nat, c: nat|
                x < tw && y < th && c < 3 ==> #[trigger] pixel_byte(r@, tw as nat, x, y, c) == (if y0 <= y < y0 + nh
                    && x0 <= x < x0 + nw {
                    pixel_byte(triangle_resized(rgb@, w, h, nw, nh), nw as nat, (x - x0) as nat, (y - y0) as nat, c)
                } else {
                    0u8
                })
        }),
{
    if w == tw && h == th {
        return rgb;
    }
    if w == 0 || h == 0 {
        let mut out: Vec<u8> = Vec::new();
        push_black(&mut out, (tw as usize) * (th as usize) * 3);
        return out;
    }
    match fit {
        Fit::Stretch => resize_triangle(rgb, w, h, tw, th),
        Fit::Cover => {
            let (nw, nh) = cover_dims(w, h, tw, th);
            let resized = resize_triangle(rgb, w, h, nw, nh);
            let x0 = (nw - tw) / 2;
            let y0 = (nh - th) / 2;
            proof {
                lemma_crop_rows_len(resized@, nw as nat, nh as nat, x0 as nat, y0 as nat, tw as nat, th as nat);
                assert(th * tw * 3 == tw * th * 3) by (nonlinear_arith);
            }
            crop(&resized, nw, nh, x0, y0, tw, th)
        },
        Fit::Contain => {
            let (nw, nh) = contain_dims(w, h, tw, th);
            assert(nw * nh * 3 <= tw * th * 3) by (nonlinear_arith)
                requires
                    nw <= tw,
                    nh <= th,
            ;
            let resized = resize_triangle(rgb, w, h, nw, nh);
            let x0 = (tw - nw) / 2;
            let y0 = (th - nh) / 2;
            proof {
                crate::frame::lemma_overlay_rows_len(resized@, nw as nat, nh as nat, tw as nat, x0 as nat, y0 as nat, th as nat);
                assert(th * tw * 3 == tw * th * 3) by (nonlinear_arith);
            }
            overlay_on_black(&resized, nw, nh, tw, th, x0, y0)
        },
    }
}

} // verus!
