# mkv_lib

The core of a Matroska subtitle tool: it inspects MKV files, reads their
text subtitles (SubRip, ASS/SSA, WebVTT) into an editor, writes edited
subtitles back by remuxing, and attaches fonts, optionally cut down to the
characters the subtitles use. Two FFmpeg back ends do the media work: the
FFmpeg libraries, or the `ffmpeg` program when one ships with the
application.

The library in `src/` is verified with Verus. Each public function states
its result in its contract, over spec functions on sequences of characters
and bytes; the proof functions state laws that hold across functions.

- `text`, `number`, `paths`: string operations as `str` performs them,
  decimal integers as `str::parse` and `format!` read and write them, and
  file names and extensions.
- `media`: streams, subtitle documents and edits; which codecs are editable.
- `ass`: ASS and SubRip timestamps, dialogue events, ASS documents and the
  tags SubRip keeps as HTML; a written timestamp or dialogue event reads
  back as itself.
- `probe`: the `ffmpeg` program's input description, and the arguments it
  is run with to read and to remux subtitles.
- `ffi`: the FFmpeg library back end: what each stream becomes, the text
  assembled from decoded subtitle rectangles, and the plan of a remux.
- `server`: the local HTTP server that hands edited texts to `ffmpeg`.
- `fonts`: attachment names and MIME types, the glyphs a subset keeps, and a
  font's full name, with allsorts and encoding_rs behind trusted wrappers.
- `service`: the choice of back end, the text fonts are cut to, and the
  accepted input and output paths.

`app/` is the Tauri application around the library: the commands, the
FFmpeg library calls, the `ffmpeg` runs, files and sockets.
