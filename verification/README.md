# media_containers

Matroska, WebM and ISO base media files (MP4, fragmented MP4, HEIF): demuxing, muxing,
bounded streaming and PGS subtitle decoding, written and proved in Verus.

## Layout

- `src/mkv`: EBML elements, the demuxer and the frames of a file in memory, the muxer for
  files and streams, the bounded walk over a seekable source, the PGS decoder, and the
  choice of audio decoders. `roundtrip` proves that what the muxer writes, the demuxer
  reads: texts up to their first NUL, and times if they fit signed 64-bit numbers.
  `streaming` proves that a source which can be opened and walked step by step gives the
  metadata and the frames that the same bytes give in memory: the index if it is wanted,
  and in the same ticks if their length does not change behind it.
- `src/isobmff`: boxes and their encoders, initialization segments and fragments, the
  bounded demuxer, the sample tables of a movie, HEIF items, and corrections to boxes that
  were written by others.
- `src/bytes.rs`, `src/text.rs`: numbers and text in byte strings.
- `app`: what does input and output, computes with floating point or implements traits of
  other crates: readers and writers around the library, audio decoding with symphonia, and
  error types with `Display`.
- `tests`: scenarios, and comparisons with `mp4-atom` and `matroska-demuxer`.

## How to read it

Contracts speak of views: a file is a sequence of bytes, a muxer is the log of what was
appended to it. Properties that relate several functions are public proof functions whose
names start with `law_`.

Nothing in `src` reads or writes. Where a source is behind a reader, the library says what
to read next and takes what came back (`Opener`, `Walker`, `SampleReader`).

Floats are kept as their bits (`FloatBits`).

What is believed without proof is marked `external_body`: a few functions of the standard
library and one of symphonia. Each says above itself what is believed of it.
