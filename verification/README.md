# srt_tools

Parsing and editing of SubRip (`.srt`) and WebVTT (`.vtt`) subtitles, verified
with Verus. Every operation states its result over a model of the text
(`Seq<char>`) and of the cues (`CueModel`), and the main properties are proved
as lemmas.

Layout:

- `src/text.rs`, `src/numeral.rs`: characters, trimming, lines, line endings,
  decimal numerals.
- `src/timestamp.rs`, `src/cue.rs`, `src/format.rs`, `src/error.rs`: the data
  types and timestamp reading and formatting.
- `src/parse.rs`: the line-by-line model of parsing and the parser.
- `src/write.rs`: SRT and WebVTT output.
- `src/edit.rs`, `src/fix.rs`, `src/stats.rs`, `src/options.rs`,
  `src/duration.rs`: renumbering, shifting, merging, cleaning up, summary
  figures and their report, command-line values and durations.
- `src/laws_*.rs`: proved properties, among them that parsing written cues
  gives them back (`lemma_srt_round_trip`, `lemma_vtt_round_trip`,
  `lemma_reparse`), that line endings and a byte-order mark do not change
  what is parsed (`src/laws_input.rs`), and that `fix` is idempotent.
- `app/main.rs`: the `srt-tools` command line (argument parsing, file and
  standard I/O, and the floating-point steps: scaling, reading a fractional
  duration's number, and the coverage percentage).
