use crate::text::{contains_str, decimal, has_substring, push_decimal, string_of};
use vstd::prelude::*;

verus! {

/// Codecs whose encoders take a `-preset` (x264, x265 and HEVC ones).
pub open spec fn takes_preset(codec: Seq<char>) -> bool {
    has_substring(codec, "264"@) || has_substring(codec, "265"@) || has_substring(codec, "hevc"@)
}

/// The ffmpeg command line, after the program name, that reads raw RGB
/// frames of `w` x `h` from standard input at `fps` frames per second and
/// writes `output` with `codec` at quality `crf` (and `preset`, for codecs
/// that take one), in yuv420p with the index at the front of the file.
pub open spec fn encoder_command(
    w: u32,
    h: u32,
    fps: Seq<char>,
    codec: Seq<char>,
    crf: u32,
    preset: Seq<char>,
    output: Seq<char>,
) -> Seq<Seq<char>> {
    seq![
        "-hide_banner"@,
        "-loglevel"@,
        "error"@,
        "-stats"@,
        "-y"@,
        "-f"@,
        "rawvideo"@,
        "-pixel_format"@,
        "rgb24"@,
        "-video_size"@,
        decimal(w as nat) + seq!['x'] + decimal(h as nat),
        "-framerate"@,
        fps,
        "-i"@,
        "-"@,
        "-c:v"@,
        codec,
        "-pix_fmt"@,
        "yuv420p"@,
        "-r"@,
        fps,
        "-crf"@,
        decimal(crf as nat),
    ] + (if takes_preset(codec) {
        seq!["-preset"@, preset]
    } else {
        Seq::empty()
    }) + seq!["-movflags"@, "+faststart"@, output]
}

/// A codec whose name holds "264", "265" or "hevc" (libx264, h264_nvenc,
/// libx265, hevc_nvenc, ...) gets `-preset` and the preset right after the
/// quality and right before `-movflags`; any other codec gets no `-preset`
/// there, and `-movflags` follows the quality directly. The quality is
/// always `-crf` and the number in decimal, and the output path comes last.
pub proof fn lemma_preset_only_for_x26x(
    w: u32,
    h: u32,
    fps: Seq<char>,
    codec: Seq<char>,
    crf: u32,
    preset: Seq<char>,
    output: Seq<char>,
)
    ensures
        ({
            let cmd = encoder_command(w, h, fps, codec, crf, preset, output);
            &&& cmd[21] == "-crf"@
            &&& cmd[22] == decimal(crf as nat)
            &&& cmd.last() == output
            &&& cmd[cmd.len() - 2] == "+faststart"@
            &&& (has_substring(codec, "264"@) || has_substring(codec, "265"@) || has_substring(codec, "hevc"@) ==> {
                &&& cmd.len() == 28
                &&& cmd[23] == "-preset"@
                &&& cmd[24] == preset
                &&& cmd[25] == "-movflags"@
            })
            &&& (!(has_substring(codec, "264"@) || has_substring(codec, "265"@) || has_substring(codec, "hevc"@)) ==> {
                &&& cmd.len() == 26
                &&& cmd[23] == "-movflags"@
            })
        }),
{
}

fn push_str(args: &mut Vec<String>, s: &str)
    ensures
        final(args).deep_view() == old(args).deep_view().push(s@),
{
    let ghost before = args.deep_view();
    args.push(String::from_str(s));
    assert(args.deep_view() =~= before.push(s@));
}

/// The ffmpeg arguments for encoding (see `encoder_command`); `fps` is the
/// frame rate as it is written on the command line.
pub fn encoder_args(w: u32, h: u32, fps: &str, codec: &str, crf: u32, preset: &str, output: &str) -> (r: Vec<String>)
    ensures
        r.deep_view() == encoder_command(w, h, fps@, codec@, crf, preset@, output@),
        has_substring(codec@, "264"@) || has_substring(codec@, "265"@) || has_substring(codec@, "hevc"@) ==> {
            &&& r.deep_view().len() == 28
            &&& r.deep_view()[23] == "-preset"@
            &&& r.deep_view()[24] == preset@
            &&& r.deep_view()[25] == "-movflags"@
        },
        !(has_substring(codec@, "264"@) || has_substring(codec@, "265"@) || has_substring(codec@, "hevc"@)) ==> {
            &&& r.deep_view().len() == 26
            &&& r.deep_view()[23] == "-movflags"@
        },
{
    proof {
        lemma_preset_only_for_x26x(w, h, fps@, codec@, crf, preset@, output@);
    }
    let mut args: Vec<String> = Vec::new();
    push_str(&mut args, "-hide_banner");
    push_str(&mut args, "-loglevel");
    push_str(&mut args, "error");
    push_str(&mut args, "-stats");
    push_str(&mut args, "-y");
    push_str(&mut args, "-f");
    push_str(&mut args, "rawvideo");
    push_str(&mut args, "-pixel_format");
    push_str(&mut args, "rgb24");
    push_str(&mut args, "-video_size");
    let mut size: Vec<char> = Vec::new();
    push_decimal(&mut size, w);
    size.push('x');
    push_decimal(&mut size, h);
    let size_s = string_of(&size);
    push_str(&mut args, size_s.as_str());
    push_str(&mut args, "-framerate");
    push_str(&mut args, fps);
    push_str(&mut args, "-i");
    push_str(&mut args, "-");
    push_str(&mut args, "-c:v");
    push_str(&mut args, codec);
    push_str(&mut args, "-pix_fmt");
    push_str(&mut args, "yuv420p");
    push_str(&mut args, "-r");
    push_str(&mut args, fps);
    push_str(&mut args, "-crf");
    let mut q: Vec<char> = Vec::new();
    push_decimal(&mut q, crf);
    let q_s = string_of(&q);
    push_str(&mut args, q_s.as_str());
    let ghost head = args.deep_view();
    let preset_used = contains_str(codec, "264") || contains_str(codec, "265") || contains_str(codec, "hevc");
    if preset_used {
        push_str(&mut args, "-preset");
        push_str(&mut args, preset);
    }
    let ghost mid = args.deep_view();
    push_str(&mut args, "-movflags");
    push_str(&mut args, "+faststart");
    push_str(&mut args, output);
    assert(size@ =~= decimal(w as nat) + seq!['x'] + decimal(h as nat));
    assert(q@ =~= decimal(crf as nat));
    assert(args.deep_view() =~= encoder_command(w, h, fps@, codec@, crf, preset@, output@));
    args
}

} // verus!
