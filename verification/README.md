# rtl

The verified core of `RTL --gc`, a frame extractor for MP4/MOV files with H.264
video, written in Verus.

- `src/bmff.rs` walks ISO-BMFF boxes and turns the `stsz`, `stco`/`co64` and
  `stsc` tables of the first video track into the bytes of each sample.
- `src/h264.rs`, `src/bits.rs` and `src/sps.rs` split NAL units out of Annex-B
  streams and AVCC samples, remove emulation-prevention bytes, read the avcC
  record and compute the picture size from a sequence parameter set.
- `src/decoder.rs` checks for the Baseline profile, walks access units (slice
  reconstruction is not implemented, so no frame is ever invented) and converts
  YUV 4:2:0 planes to RGB.
- `src/decoded.rs`, `src/frames.rs` and `src/stack.rs` hold validated RGB frames
  and the linked lists of frames, and write the PPM header, frame file names and
  manifest lines.
- `src/cli.rs`, `src/error.rs` and `src/text.rs` cover the command line, the
  errors and number formatting.

Every function states its result exactly in its contract, over specification
functions of the formats. `app/` holds the program: file and process I/O, FFmpeg,
and writing the output directories.
