# timelapse_builder

Turns a pile of stills (PNG, JPEG, WebP and camera RAW) into a timelapse
video, decoding frames in parallel and streaming them into ffmpeg.

The decisions the builder makes are a Verus-verified library under `src/`:

- `cli`: the option enums and the output size (`resolve_dimensions`).
- `collect`: which files are frames, collecting them from the inputs, the
  natural order of file names and the stable frame ordering (`order`), with
  the laws of that order.
- `decode`: the RAW source choice, the decoder choice and fitting a decoded
  frame onto the output (`load_frame`, cover/contain geometry).
- `frame`: crop and letterbox of raw RGB buffers, and the resize call into
  the `image` crate.
- `pipeline`: frame sampling (`--every`, `--limit`), batch size and the
  per-frame bookkeeping of a build.
- `encode`: the ffmpeg command line.
- `gpu`: unpacking the demosaic shader's output words.
- `form`: trimming form fields.
- `text`: character helpers.

`app/` is the command-line program around it: argument parsing (clap), file
system access (walkdir), decoding files (image, rawler), the GPU demosaic
(wgpu), the ffmpeg process and progress output (indicatif).

`tests/` runs the library on concrete inputs.
