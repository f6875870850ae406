use timelapse_builder::encode::encoder_args;
use timelapse_builder::form::nonempty;
use timelapse_builder::gpu::unpack_rgb;
use timelapse_builder::pipeline::{batch_size, select_frames, Action, FrameResult, Outcome, Tally};

fn strings(v: &[&str]) -> Vec<String> {
    v.iter().map(|s| s.to_string()).collect()
}

#[test]
fn every_and_limit() {
    let files: Vec<String> = (0..10).map(|i| format!("f{i}")).collect();
    assert_eq!(select_frames(&files, 3, None), strings(&["f0", "f3", "f6", "f9"]));
    assert_eq!(select_frames(&files, 3, Some(2)), strings(&["f0", "f3"]));
    assert_eq!(select_frames(&files, 0, None), files);
    assert_eq!(select_frames(&files, 1, Some(0)), Vec::<String>::new());
    assert_eq!(select_frames(&files, 20, Some(5)), strings(&["f0"]));
    assert_eq!(select_frames(&files, 5, Some(9)), strings(&["f0", "f5"]));
}

#[test]
fn batch_sizes() {
    assert_eq!(batch_size(16, 1920, 1080), 16);
    assert_eq!(batch_size(2, 1920, 1080), 4);
    assert_eq!(batch_size(0, 1920, 1080), 4);
    assert_eq!(batch_size(1000, 1920, 1080), 86);
    assert_eq!(batch_size(8, 20000, 20000), 4);
}

#[test]
fn tally_counts_frames() {
    let mut t = Tally::new(3);
    assert_eq!(t.step(FrameResult::Decoded), Action::Write);
    assert_eq!(t.step(FrameResult::Failed), Action::Skip);
    assert_eq!(t.step(FrameResult::NotRun), Action::Stop);
    assert_eq!((t.done, t.skipped), (2, 1));
    assert_eq!(t.encoded(), 1);
    assert_eq!(t.outcome(true), Outcome::Cancelled { encoded: 1 });
    assert_eq!(t.step(FrameResult::Decoded), Action::Write);
    assert_eq!(t.outcome(false), Outcome::Finished { encoded: 2, skipped: 1 });
}

#[test]
fn encoder_arguments_x264() {
    let args = encoder_args(640, 480, "30", "libx264", 18, "medium", "out.mp4");
    let want = strings(&[
        "-hide_banner", "-loglevel", "error", "-stats", "-y", "-f", "rawvideo", "-pixel_format", "rgb24",
        "-video_size", "640x480", "-framerate", "30", "-i", "-", "-c:v", "libx264", "-pix_fmt", "yuv420p",
        "-r", "30", "-crf", "18", "-preset", "medium", "-movflags", "+faststart", "out.mp4",
    ]);
    assert_eq!(args, want);
}

#[test]
fn encoder_arguments_without_preset() {
    let args = encoder_args(3840, 2160, "23.976", "libvpx-vp9", 0, "slow", "a.webm");
    assert!(!args.iter().any(|a| a == "-preset"));
    assert_eq!(args[10], "3840x2160");
    assert_eq!(args[22], "0");
    assert_eq!(args.last().unwrap(), "a.webm");
    let hevc = encoder_args(2, 2, "1", "hevc_nvenc", 51, "fast", "o.mp4");
    assert_eq!(&hevc[23..25], &["-preset".to_string(), "fast".to_string()]);
}

#[test]
fn unpacks_pixels() {
    assert_eq!(unpack_rgb(&vec![0x00332211, 0xff0000ff]), vec![0x11, 0x22, 0x33, 0xff, 0, 0]);
    assert_eq!(unpack_rgb(&Vec::new()), Vec::<u8>::new());
}

#[test]
fn form_fields() {
    assert_eq!(nonempty("  x y \n"), Some("x y".to_string()));
    assert_eq!(nonempty("   "), None);
    assert_eq!(nonempty(""), None);
    assert_eq!(nonempty("\u{3000}DSC(\\d+)\t"), Some("DSC(\\d+)".to_string()));
}

#[test]
fn encoder_arguments_large_numbers() {
    let args = encoder_args(4294967295, 10, "60", "libx265", 4294967295, "slow", "x.mkv");
    assert_eq!(args[10], "4294967295x10");
    assert_eq!(args[22], "4294967295");
    assert_eq!(args[23], "-preset");
}
