use srt_tools::{
    duration_form, fix, merge, output_format, parse, renumber, resolve_format, shift, split_sign,
    stats, stats_text, to_format, to_srt, to_vtt, try_parse, Cue, DurationError, DurationForm,
    Format, FormatChoiceError, ParseError, ParseFailure, Timestamp,
};

const SAMPLE: &str = "1\n00:00:01,000 --> 00:00:04,000\nHello world\n\n2\n00:00:05,500 --> 00:00:07,250\nSecond line\nwith two rows\n";

#[test]
fn srt_text_is_exact() {
    let cues = vec![
        Cue::new(1, Timestamp::from_ms(1000), Timestamp::from_ms(4000), "Hi\nthere"),
        Cue::new(2, Timestamp::from_ms(3_723_004), Timestamp::from_ms(3_723_005), ""),
    ];
    assert_eq!(
        to_srt(&cues),
        "1\n00:00:01,000 --> 00:00:04,000\nHi\nthere\n\n2\n01:02:03,004 --> 01:02:03,005\n\n"
    );
    assert_eq!(
        to_vtt(&cues),
        "WEBVTT\n\n1\n00:00:01.000 --> 00:00:04.000\nHi\nthere\n\n2\n01:02:03.004 --> 01:02:03.005\n\n"
    );
    assert_eq!(to_format(&cues, Format::Srt), to_srt(&cues));
    assert_eq!(to_format(&cues, Format::Vtt), to_vtt(&cues));
}

#[test]
fn round_trip_with_empty_body_and_long_hours() {
    let cues = vec![
        Cue::new(1, Timestamp::from_ms(0), Timestamp::from_ms(0), ""),
        Cue::new(2, Timestamp::from_ms(360_000_000_123), Timestamp::from_ms(360_000_000_124), "a --> b"),
    ];
    assert_eq!(parse(&to_srt(&cues)).unwrap(), cues);
    assert_eq!(parse(&to_vtt(&cues)).unwrap(), cues);
    assert_eq!(Timestamp::from_ms(360_000_000_123).to_srt(), "100000:00:00,123");
}

#[test]
fn negative_times_format_as_zero() {
    assert_eq!(Timestamp::from_ms(-5).to_srt(), "00:00:00,000");
    assert_eq!(Timestamp::from_ms(-5).to_vtt(), "00:00:00.000");
}

#[test]
fn timestamp_parse_edge_cases() {
    assert_eq!(Timestamp::parse("  1:02:03.4 ").unwrap().ms, 3_723_400);
    assert_eq!(Timestamp::parse("05:06").unwrap().ms, 306_000);
    assert_eq!(Timestamp::parse("00:00:01,").unwrap().ms, 1000);
    assert_eq!(
        Timestamp::parse("1:2:3:4"),
        Err(ParseError::BadTimestamp("1:2:3:4".to_string()))
    );
    assert!(Timestamp::parse("00:00:00,1234").is_err());
    assert!(Timestamp::parse("00:60:00").is_err());
    assert!(Timestamp::parse("00:00:60").is_err());
    assert!(Timestamp::parse("-1:00:00").is_err());
    // A field that no i64 holds is rejected like any malformed field.
    assert!(Timestamp::parse("99999999999999999999:00:00").is_err());
}

#[test]
fn timestamp_too_large_is_reported() {
    assert_eq!(
        Timestamp::try_parse("9223372036854775807:00:00"),
        Err(ParseFailure::TooLarge)
    );
    assert_eq!(
        Timestamp::try_parse("x"),
        Err(ParseFailure::Rejected(ParseError::BadTimestamp("x".to_string())))
    );
    assert_eq!(Timestamp::try_parse("00:00:02").unwrap().ms, 2000);
    let text = "1\n9223372036854775807:00:00,000 --> 00:00:01,000\nx\n";
    assert_eq!(try_parse(text), Err(ParseFailure::TooLarge));
}

#[test]
fn parse_reports_bad_timing_with_line() {
    let text = "\n\n1\n00:00:01,000 --> soon\nx\n";
    assert_eq!(
        parse(text),
        Err(ParseError::BadTiming {
            line: 3,
            text: "00:00:01,000 --> soon".to_string()
        })
    );
    assert_eq!(
        parse("1\nno arrow\n"),
        Err(ParseError::MissingArrow { line: 1 })
    );
    assert_eq!(parse("WEBVTT\n\nNOTE only a note\n"), Err(ParseError::Empty));
}

#[test]
fn parse_skips_vtt_blocks_and_identifiers() {
    let text = "WEBVTT - title\n\nSTYLE\n::cue { color: red }\n\nREGION\nid:r\n\nNOTE\nmore\n\nid-1\n00:01.000 --> 00:02.000 line:0\nA\nB\n\n00:03.000-->00:04.500\n\n";
    let cues = parse(text).unwrap();
    assert_eq!(cues.len(), 2);
    assert_eq!(cues[0].text, "A\nB");
    assert_eq!(cues[0].start.ms, 1000);
    assert_eq!(cues[1].index, 2);
    assert_eq!(cues[1].end.ms, 4500);
    assert_eq!(cues[1].text, "");
}

#[test]
fn cue_helpers() {
    let c = Cue::new(3, Timestamp::from_ms(1500), Timestamp::from_ms(1000), " \t ");
    assert_eq!(c.duration_ms(), -500);
    assert!(c.is_empty());
    assert!(!Cue::new(1, Timestamp::from_ms(0), Timestamp::from_ms(1), "x").is_empty());
    assert_eq!(c.duplicate(), c);
}

#[test]
fn timestamp_arithmetic() {
    assert_eq!(Timestamp::from_hmsm(1, 2, 3, 4).ms, 3_723_004);
    assert_eq!(Timestamp::from_ms(1000).shifted(-1500).ms, 0);
    assert_eq!(Timestamp::from_ms(1000).shifted(250).ms, 1250);
}

#[test]
fn renumber_rewrites_indices() {
    let mut cues = vec![
        Cue::new(9, Timestamp::from_ms(0), Timestamp::from_ms(1), "a"),
        Cue::new(4, Timestamp::from_ms(2), Timestamp::from_ms(3), "b"),
    ];
    renumber(&mut cues);
    assert_eq!(cues[0].index, 1);
    assert_eq!(cues[1].index, 2);
    assert_eq!(cues[1].text, "b");
}

#[test]
fn shift_never_goes_below_zero() {
    let mut cues = parse(SAMPLE).unwrap();
    shift(&mut cues, -5_000, None);
    assert_eq!(cues[0].start.ms, 0);
    assert_eq!(cues[1].start.ms, 500);
    assert_eq!(cues[1].end.ms, 2250);
}

#[test]
fn merge_negative_offset_saturates() {
    let a = parse(SAMPLE).unwrap();
    let b = parse(SAMPLE).unwrap();
    let merged = merge(&[a, b], -2000);
    assert_eq!(merged.len(), 4);
    assert_eq!(merged[2].start.ms, 0);
    assert_eq!(merged[3].start.ms, 3500);
    assert_eq!(merged[3].index, 4);
}

#[test]
fn fix_is_idempotent_on_example() {
    let scrambled = vec![
        Cue::new(7, Timestamp::from_ms(5000), Timestamp::from_ms(6000), "third"),
        Cue::new(2, Timestamp::from_ms(1000), Timestamp::from_ms(3500), "first"),
        Cue::new(8, Timestamp::from_ms(1000), Timestamp::from_ms(1200), "early"),
        Cue::new(3, Timestamp::from_ms(9000), Timestamp::from_ms(9000), "   "),
    ];
    let once = fix(scrambled);
    assert_eq!(once.len(), 3);
    assert_eq!(once[0].text, "first");
    assert_eq!(once[0].end.ms, 1000);
    assert_eq!(once[1].text, "early");
    assert_eq!(once[1].end.ms, 1200);
    let twice = fix(once.clone());
    assert_eq!(once, twice);
}

#[test]
fn fix_keeps_input_order_for_equal_starts() {
    let cues = vec![
        Cue::new(1, Timestamp::from_ms(1000), Timestamp::from_ms(3000), "a"),
        Cue::new(2, Timestamp::from_ms(1000), Timestamp::from_ms(2000), "b"),
    ];
    let expected = vec![
        Cue::new(1, Timestamp::from_ms(1000), Timestamp::from_ms(1000), "a"),
        Cue::new(2, Timestamp::from_ms(1000), Timestamp::from_ms(2000), "b"),
    ];
    assert_eq!(fix(cues), expected);
}

#[test]
fn parse_ignores_line_endings_and_bom() {
    let lf = parse(SAMPLE);
    let crlf = SAMPLE.replace("\n", "\r\n");
    assert_eq!(parse(&crlf), lf);
    let with_bom = format!("\u{feff}{}", SAMPLE);
    assert_eq!(parse(&with_bom), lf);
    let both = format!("\u{feff}{}", crlf);
    assert_eq!(parse(&both), lf);
    let vtt = "WEBVTT\n\n00:01.000 --> 00:02.000\nHi\n";
    assert_eq!(parse(&vtt.replace("\n", "\r\n")), parse(vtt));
}

fn number(sign: i64, text: &str, unit_ms: i64) -> Result<DurationForm, DurationError> {
    Ok(DurationForm::Number { sign, number: text.to_string(), unit_ms })
}

#[test]
fn duration_form_numbers() {
    assert_eq!(duration_form("+2.5s"), number(1, "2.5", 1000));
    assert_eq!(duration_form("  -1.2s "), number(-1, "1.2", 1000));
    assert_eq!(duration_form("3s"), number(1, "3", 1000));
    assert_eq!(duration_form("1200ms"), number(1, "1200", 1));
    assert_eq!(duration_form("- 500ms"), number(-1, "500", 1));
    assert_eq!(duration_form("1m"), number(1, "1", 60_000));
    assert_eq!(duration_form("2.5"), number(1, "2.5", 1000));
    assert_eq!(duration_form("-1"), number(-1, "1", 1000));
    assert_eq!(duration_form("1.5 s"), number(1, "1.5 ", 1000));
    assert_eq!(duration_form("abc"), number(1, "abc", 1000));
}

#[test]
fn duration_form_clock_and_errors() {
    assert_eq!(duration_form("00:00:02,500"), Ok(DurationForm::Clock(2500)));
    assert_eq!(duration_form("-00:01.250"), Ok(DurationForm::Clock(-1_250)));
    assert_eq!(duration_form("+1:00:00.000"), Ok(DurationForm::Clock(3_600_000)));
    assert_eq!(duration_form("   "), Err(DurationError::Empty));
    assert_eq!(duration_form(""), Err(DurationError::Empty));
    assert_eq!(
        duration_form("-1:xx"),
        Err(DurationError::BadTimestamp(ParseError::BadTimestamp("1:xx".to_string())))
    );
    assert_eq!(
        duration_form("3000000000000:00:00,000"),
        Err(DurationError::TooLarge)
    );
    assert_eq!(
        duration_form("99999999999999999999:00:00,000"),
        Err(DurationError::BadTimestamp(ParseError::BadTimestamp(
            "99999999999999999999:00:00,000".to_string()
        )))
    );
}

#[test]
fn stats_text_of_sample_and_of_nothing() {
    let cues = parse(SAMPLE).unwrap();
    assert_eq!(
        stats_text(&stats(&cues)),
        "cues:      2\nfirst:     00:00:01,000\nlast:      00:00:07,250\nspan:      00:00:06,250\non-screen: 00:00:04,750\n"
    );
    assert_eq!(
        stats_text(&stats(&[])),
        "cues:      0\nfirst:     -\nlast:      -\nspan:      00:00:00,000\non-screen: 00:00:00,000\n"
    );
}

#[test]
fn shifts_of_one_direction_compose() {
    let t = Timestamp::from_ms(1500);
    assert_eq!(t.shifted(-1000).shifted(-800), t.shifted(-1800));
    assert_eq!(t.shifted(-1000).shifted(-800).ms, 0);
    assert_eq!(t.shifted(200).shifted(300), t.shifted(500));
    // In opposite directions a clamp at zero is not undone.
    assert_eq!(t.shifted(-2000).shifted(1000).ms, 1000);
    assert_eq!(t.shifted(-1000).ms, 500);
}

#[test]
fn output_format_cases() {
    assert_eq!(output_format(Some(Format::Srt), Some("out.vtt")), Format::Srt);
    assert_eq!(output_format(Some(Format::Vtt), None), Format::Vtt);
    assert_eq!(output_format(None, Some("dir/OUT.VTT")), Format::Vtt);
    assert_eq!(output_format(None, Some("out.srt")), Format::Srt);
    assert_eq!(output_format(None, Some("vtt")), Format::Srt);
    assert_eq!(output_format(None, None), Format::Srt);
}

#[test]
fn stats_of_sample() {
    let cues = parse(SAMPLE).unwrap();
    let s = stats(&cues);
    assert_eq!(s.count, 2);
    assert_eq!(s.first_start, Some(Timestamp::from_ms(1000)));
    assert_eq!(s.last_end, Some(Timestamp::from_ms(7250)));
    assert_eq!(s.span_ms, 6250);
    assert_eq!(s.display_ms, 4750);
    let none = stats(&[]);
    assert_eq!(none.count, 0);
    assert_eq!(none.first_start, None);
    assert_eq!(none.span_ms, 0);
    assert_eq!(none.display_ms, 0);
}

#[test]
fn split_sign_cases() {
    assert_eq!(split_sign("-  1.5s"), (-1, "1.5s"));
    assert_eq!(split_sign("+2"), (1, "2"));
    assert_eq!(split_sign("3s"), (1, "3s"));
    assert_eq!(split_sign(""), (1, ""));
}

#[test]
fn resolve_format_cases() {
    assert_eq!(resolve_format(Some("VTT"), None), Ok(Format::Vtt));
    assert_eq!(resolve_format(Some("srt"), Some("x.vtt")), Ok(Format::Srt));
    assert_eq!(
        resolve_format(Some("Ass"), None),
        Err(FormatChoiceError::Unknown("ass".to_string()))
    );
    assert_eq!(resolve_format(None, Some("out.Vtt")), Ok(Format::Vtt));
    assert_eq!(resolve_format(None, Some("out")), Ok(Format::Srt));
    assert_eq!(resolve_format(None, None), Err(FormatChoiceError::Missing));
}

#[test]
fn shift_then_back_restores() {
    let original = parse(SAMPLE).unwrap();
    let mut cues = original.clone();
    shift(&mut cues, 1500, None);
    shift(&mut cues, -1500, None);
    assert_eq!(cues, original);
}

#[test]
fn reparse_of_vtt_input_is_stable() {
    let vtt = "WEBVTT\n\nNOTE n\n\nid\n00:00:01.000 --> 00:00:04.000\nHello\n\n00:05.5 --> 00:07.25 align:start\nWorld\nagain\n";
    let cues = parse(vtt).unwrap();
    assert_eq!(parse(&to_srt(&cues)).unwrap(), cues);
    assert_eq!(parse(&to_vtt(&cues)).unwrap(), cues);
    assert_eq!(cues[1].end.ms, 7250);
}
