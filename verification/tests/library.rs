use srt_tools::{fix, merge, parse, shift, to_srt, to_vtt, Cue, Format, ParseError, Timestamp};

const SAMPLE: &str = "1\n00:00:01,000 --> 00:00:04,000\nHello world\n\n2\n00:00:05,500 --> 00:00:07,250\nSecond line\nwith two rows\n";

#[test]
fn timestamp_parse_srt() {
    let t = Timestamp::parse("01:02:03,456").unwrap();
    assert_eq!(t.ms, ((1 * 60 + 2) * 60 + 3) * 1000 + 456);
    assert_eq!(t.to_srt(), "01:02:03,456");
}

#[test]
fn timestamp_parse_vtt_dot_and_no_hours() {
    let t = Timestamp::parse("02:03.456").unwrap();
    assert_eq!(t, Timestamp::from_hmsm(0, 2, 3, 456));
    assert_eq!(t.to_vtt(), "00:02:03.456");
}

#[test]
fn timestamp_parse_short_millis_padding() {
    // "5" tenths means 500ms; "05" means 50ms.
    assert_eq!(Timestamp::parse("00:00:00,5").unwrap().ms, 500);
    assert_eq!(Timestamp::parse("00:00:00,05").unwrap().ms, 50);
    assert_eq!(Timestamp::parse("00:00:00,005").unwrap().ms, 5);
}

#[test]
fn timestamp_parse_rejects_garbage() {
    assert!(Timestamp::parse("aa:bb:cc,ddd").is_err());
    assert!(Timestamp::parse("00:99:00,000").is_err()); // minutes out of range
    assert!(Timestamp::parse("").is_err());
}

#[test]
fn parse_known_srt() {
    let cues = parse(SAMPLE).unwrap();
    assert_eq!(cues.len(), 2);
    assert_eq!(cues[0].index, 1);
    assert_eq!(cues[0].start, Timestamp::from_hmsm(0, 0, 1, 0));
    assert_eq!(cues[0].end, Timestamp::from_hmsm(0, 0, 4, 0));
    assert_eq!(cues[0].text, "Hello world");
    assert_eq!(cues[1].text, "Second line\nwith two rows");
    assert_eq!(cues[1].start, Timestamp::from_hmsm(0, 0, 5, 500));
}

#[test]
fn parse_crlf_and_bom() {
    let with_bom = "\u{feff}1\r\n00:00:01,000 --> 00:00:02,000\r\nHi\r\n\r\n";
    let cues = parse(with_bom).unwrap();
    assert_eq!(cues.len(), 1);
    assert_eq!(cues[0].text, "Hi");
}

#[test]
fn shift_by_2500ms_exact() {
    let mut cues = parse(SAMPLE).unwrap();
    shift(&mut cues, 2500, None);
    // 00:00:01,000 + 2.5s = 00:00:03,500
    assert_eq!(cues[0].start.to_srt(), "00:00:03,500");
    // 00:00:04,000 + 2.5s = 00:00:06,500
    assert_eq!(cues[0].end.to_srt(), "00:00:06,500");
    // 00:00:05,500 + 2.5s = 00:00:08,000
    assert_eq!(cues[1].start.to_srt(), "00:00:08,000");
    // 00:00:07,250 + 2.5s = 00:00:09,750
    assert_eq!(cues[1].end.to_srt(), "00:00:09,750");
}

#[test]
fn shift_negative_saturates_at_zero() {
    let mut cues = parse(SAMPLE).unwrap();
    shift(&mut cues, -10_000, None);
    assert_eq!(cues[0].start.ms, 0);
    assert_eq!(cues[0].end.ms, 0);
}

#[test]
fn shift_from_threshold_only_moves_later_cues() {
    let mut cues = parse(SAMPLE).unwrap();
    let from = Timestamp::from_hmsm(0, 0, 5, 0);
    shift(&mut cues, 1000, Some(from));
    // First cue (starts at 1s) is untouched.
    assert_eq!(cues[0].start.to_srt(), "00:00:01,000");
    // Second cue (starts at 5.5s >= 5s) moves +1s.
    assert_eq!(cues[1].start.to_srt(), "00:00:06,500");
}

#[test]
fn fix_reorders_and_renumbers_scrambled_input() {
    // Out of order, with bad indices, an empty cue, and an overlap.
    let scrambled = vec![
        Cue::new(7, Timestamp::from_ms(5000), Timestamp::from_ms(6000), "third"),
        Cue::new(2, Timestamp::from_ms(1000), Timestamp::from_ms(3500), "first"),
        Cue::new(3, Timestamp::from_ms(9000), Timestamp::from_ms(9000), "   "), // empty
        Cue::new(4, Timestamp::from_ms(3000), Timestamp::from_ms(4000), "second"),
    ];
    let fixed = fix(scrambled);
    assert_eq!(fixed.len(), 3); // empty dropped
    assert_eq!(fixed[0].index, 1);
    assert_eq!(fixed[0].text, "first");
    assert_eq!(fixed[1].index, 2);
    assert_eq!(fixed[1].text, "second");
    assert_eq!(fixed[2].index, 3);
    assert_eq!(fixed[2].text, "third");
    // "first" ended at 3500 but "second" starts at 3000 -> clamped to 3000.
    assert_eq!(fixed[0].end.ms, 3000);
}

#[test]
fn fix_clamps_end_before_start() {
    let bad = vec![Cue::new(1, Timestamp::from_ms(5000), Timestamp::from_ms(2000), "rev")];
    let fixed = fix(bad);
    assert_eq!(fixed[0].end.ms, 5000); // end clamped up to start
}

#[test]
fn lib_merge_concatenates_and_renumbers() {
    let a = parse(SAMPLE).unwrap();
    let b = parse(SAMPLE).unwrap();
    let merged = merge(&[a, b], 0);
    assert_eq!(merged.len(), 4);
    assert_eq!(merged[0].index, 1);
    assert_eq!(merged[3].index, 4);
    // Times preserved (offset 0): 3rd cue == first sample's first cue time.
    assert_eq!(merged[2].start.to_srt(), "00:00:01,000");
}

#[test]
fn merge_with_offset_shifts_subsequent_files() {
    let a = parse(SAMPLE).unwrap();
    let b = parse(SAMPLE).unwrap();
    let merged = merge(&[a, b], 60_000); // +60s between files
    // File 0 unchanged.
    assert_eq!(merged[0].start.to_srt(), "00:00:01,000");
    // File 1 (k=1) shifted +60s: 1s -> 61s.
    assert_eq!(merged[2].start.to_srt(), "00:01:01,000");
}

#[test]
fn srt_to_vtt_round_trip_preserves_cues() {
    let original = parse(SAMPLE).unwrap();
    let vtt = to_vtt(&original);
    assert!(vtt.starts_with("WEBVTT"));
    let back = parse(&vtt).unwrap();
    assert_eq!(original, back);
}

#[test]
fn vtt_to_srt_round_trip_preserves_cues() {
    let vtt = "WEBVTT\n\nNOTE this is a note\n\nintro\n00:00:01.000 --> 00:00:04.000\nHello\n\n00:00:05.500 --> 00:00:07.250 position:50%\nWorld\n";
    let cues = parse(vtt).unwrap();
    assert_eq!(cues.len(), 2);
    assert_eq!(cues[0].text, "Hello");
    assert_eq!(cues[1].start, Timestamp::from_hmsm(0, 0, 5, 500));
    // Cue settings on the timing line are ignored.
    assert_eq!(cues[1].end, Timestamp::from_hmsm(0, 0, 7, 250));
    let srt = to_srt(&cues);
    let reparsed = parse(&srt).unwrap();
    assert_eq!(cues, reparsed);
}

#[test]
fn parse_empty_input_errors() {
    assert_eq!(parse("\n\n  \n"), Err(ParseError::Empty));
}

#[test]
fn parse_missing_arrow_errors() {
    let bad = "1\nthis is not a timing line\nHello\n";
    assert!(matches!(parse(bad), Err(ParseError::MissingArrow { .. })));
}

#[test]
fn format_from_path_infers_extension() {
    assert_eq!(Format::from_path("a.vtt"), Format::Vtt);
    assert_eq!(Format::from_path("A.VTT"), Format::Vtt);
    assert_eq!(Format::from_path("a.srt"), Format::Srt);
    assert_eq!(Format::from_path("noext"), Format::Srt);
}
