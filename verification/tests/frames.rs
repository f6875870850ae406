use timelapse_builder::cli::resolve_dimensions;
use timelapse_builder::decode::{
    contain_dims, cover_dims, decoder_for, load_frame, raw_mode, Decoder, RawMode,
};
use timelapse_builder::frame::{crop, overlay_on_black};
use timelapse_builder::{Fit, Source};

#[test]
fn dimensions_keep_aspect() {
    assert_eq!(resolve_dimensions(Some(1280), None, 4000, 3000), (1280, 960));
    assert_eq!(resolve_dimensions(None, Some(720), 1920, 1080), (1280, 720));
    assert_eq!(resolve_dimensions(Some(101), None, 3, 2), (100, 66));
    assert_eq!(resolve_dimensions(Some(640), Some(481), 10, 10), (640, 480));
    assert_eq!(resolve_dimensions(None, None, 1921, 1081), (1920, 1080));
}

#[test]
fn dimensions_round_half_up_and_floor_to_even() {
    assert_eq!(resolve_dimensions(Some(3), None, 2, 1), (2, 2));
    assert_eq!(resolve_dimensions(Some(5), None, 2, 1), (4, 2));
    assert_eq!(resolve_dimensions(Some(7), None, 2, 1), (6, 4));
    assert_eq!(resolve_dimensions(Some(1), Some(0), 8, 8), (2, 2));
}

#[test]
fn dimensions_degenerate_source() {
    assert_eq!(resolve_dimensions(Some(100), None, 0, 50), (100, 4294967294));
    assert_eq!(resolve_dimensions(Some(100), None, 0, 0), (100, 2));
    assert_eq!(resolve_dimensions(None, Some(9), 0, 0), (2, 8));
}

#[test]
fn raw_mode_resolution() {
    assert_eq!(raw_mode(Source::Auto, Some((6000, 4000)), 1920, 1080), RawMode::Preview);
    assert_eq!(raw_mode(Source::Auto, Some((1920, 1080)), 1920, 1080), RawMode::Preview);
    assert_eq!(raw_mode(Source::Auto, Some((1920, 1000)), 1920, 1080), RawMode::Develop);
    assert_eq!(raw_mode(Source::Auto, None, 2, 2), RawMode::Develop);
    assert_eq!(raw_mode(Source::Raw, Some((9000, 9000)), 2, 2), RawMode::Develop);
    assert_eq!(raw_mode(Source::Preview, None, 2, 2), RawMode::Preview);
}

#[test]
fn decoder_choice() {
    assert_eq!(decoder_for("a.CR2", RawMode::Develop), Decoder::RawDevelop);
    assert_eq!(decoder_for("a.cr2", RawMode::Preview), Decoder::RawPreview);
    assert_eq!(decoder_for("a.png", RawMode::Develop), Decoder::Image);
    assert_eq!(decoder_for("a.jpeg", RawMode::Preview), Decoder::Image);
}

#[test]
fn cover_and_contain_sizes() {
    assert_eq!(cover_dims(4000, 3000, 1920, 1080), (1920, 1440));
    assert_eq!(cover_dims(1000, 3000, 1920, 1080), (1920, 5760));
    assert_eq!(cover_dims(3000, 1000, 1920, 1080), (3240, 1080));
    assert_eq!(contain_dims(4000, 3000, 1920, 1080), (1440, 1080));
    assert_eq!(contain_dims(3000, 1000, 1920, 1080), (1920, 640));
    assert_eq!(contain_dims(1, 10000, 100, 100), (1, 100));
}

fn pixels(n: u8) -> Vec<u8> {
    (0..n).flat_map(|i| [i, i + 100, i + 200]).collect()
}

#[test]
fn frame_of_target_size_is_unchanged() {
    let rgb = pixels(6);
    assert_eq!(load_frame(rgb.clone(), 3, 2, 3, 2, Fit::Contain), rgb);
}

#[test]
fn stretch_resizes_to_target() {
    let out = load_frame(vec![200, 10, 20], 1, 1, 4, 2, Fit::Stretch);
    assert_eq!(out.len(), 4 * 2 * 3);
    for px in out.chunks(3) {
        assert_eq!(px, [200, 10, 20]);
    }
}

#[test]
fn cover_crops_the_middle() {
    // A 4x2 frame covers 2x2 at its own size; the middle two columns remain.
    let rgb = pixels(8);
    let out = load_frame(rgb.clone(), 4, 2, 2, 2, Fit::Cover);
    let want: Vec<u8> = [1u8, 2, 5, 6].iter().flat_map(|&i| [i, i + 100, i + 200]).collect();
    assert_eq!(out, want);
}

#[test]
fn contain_letterboxes() {
    // A 4x2 frame fits 4x4 at its own size, centered between black rows.
    let rgb = pixels(8);
    let out = load_frame(rgb.clone(), 4, 2, 4, 4, Fit::Contain);
    let mut want = vec![0u8; 12];
    want.extend_from_slice(&rgb);
    want.extend_from_slice(&[0u8; 12]);
    assert_eq!(out, want);
}

#[test]
fn contain_upscales_then_centers() {
    let out = load_frame(vec![9, 9, 9], 1, 1, 3, 1, Fit::Contain);
    assert_eq!(out, vec![0, 0, 0, 9, 9, 9, 0, 0, 0]);
}

#[test]
fn empty_source_gives_black() {
    assert_eq!(load_frame(Vec::new(), 0, 0, 2, 2, Fit::Cover), vec![0u8; 12]);
    assert_eq!(load_frame(Vec::new(), 0, 3, 2, 1, Fit::Contain), vec![0u8; 6]);
    assert_eq!(load_frame(Vec::new(), 5, 0, 1, 1, Fit::Stretch), vec![0u8; 3]);
}

#[test]
fn crop_and_overlay() {
    let rgb = pixels(9); // 3x3
    let c = crop(&rgb, 3, 3, 1, 1, 2, 1);
    assert_eq!(c, vec![4, 104, 204, 5, 105, 205]);
    let o = overlay_on_black(&vec![1, 2, 3], 1, 1, 2, 2, 1, 0);
    assert_eq!(o, vec![0, 0, 0, 1, 2, 3, 0, 0, 0, 0, 0, 0]);
}
