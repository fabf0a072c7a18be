use subtitle_filter::errors::SubError;
use subtitle_filter::export::export_subtitles;
use subtitle_filter::pattern::{compile_pattern, Pattern, PatternState};
use subtitle_filter::segment::segment;
use subtitle_filter::subs::load_subtitles;
use subtitle_filter::time::MovieTime;

fn pattern(src: &str) -> Pattern {
    match compile_pattern(src) {
        PatternState::Compiled(p) => p,
        PatternState::Invalid(reason) => panic!("pattern rejected: {}", reason),
    }
}

#[test]
fn timecode_parse_example() {
    let t = MovieTime::from_str("01:02:03,456").unwrap();
    assert_eq!(t.mili, 3_723_456);
}

#[test]
fn timecode_render_example() {
    assert_eq!(MovieTime { mili: 3_723_456 }.to_string(), "01:02:03,456");
    assert_eq!(MovieTime { mili: 0 }.to_string(), "00:00:00,000");
}

#[test]
fn timecode_round_trip_values() {
    for ms in [0u32, 1, 999, 1000, 59_999, 60_000, 3_599_999, 3_600_000, 359_999_999] {
        let rendered = MovieTime { mili: ms }.to_string();
        let back = MovieTime::from_str(&rendered).unwrap();
        assert_eq!(back.mili, ms);
        assert_eq!(back.to_string(), rendered);
    }
}

#[test]
fn timecode_wide_hours_kept() {
    assert_eq!(MovieTime { mili: 360_000_000 }.to_string(), "100:00:00,000");
}

#[test]
fn timecode_rejects_short_or_non_numeric() {
    assert_eq!(MovieTime::from_str("01:02:03"), Err(SubError::Format));
    assert_eq!(MovieTime::from_str("aa:02:03,456"), Err(SubError::Format));
    assert_eq!(MovieTime::from_str("01:02:03,4x6"), Err(SubError::Format));
}

#[test]
fn timecode_ignores_separator_bytes() {
    let t = MovieTime::from_str("01x02y03z456").unwrap();
    assert_eq!(t.mili, 3_723_456);
}

const SAMPLE: &[u8] =
    b"1\n00:00:01,000 --> 00:00:02,500\nHello world\n\n2\n00:00:03,000 --> 00:00:04,000\n[music]\n\n";

#[test]
fn parser_example() {
    let recs = load_subtitles(&SAMPLE.to_vec()).unwrap();
    assert_eq!(recs.len(), 2);
    assert_eq!(recs[0].text, b"Hello world".to_vec());
    assert_eq!(recs[1].start.to_string(), "00:00:03,000");
}

#[test]
fn parser_determinism() {
    let a = load_subtitles(&SAMPLE.to_vec()).unwrap();
    let b = load_subtitles(&SAMPLE.to_vec()).unwrap();
    assert_eq!(a.len(), b.len());
    for (x, y) in a.iter().zip(b.iter()) {
        assert_eq!(x.index, y.index);
        assert_eq!(x.start.mili, y.start.mili);
        assert_eq!(x.stop.mili, y.stop.mili);
        assert_eq!(x.text, y.text);
    }
}

#[test]
fn parser_reorders_by_index() {
    let bytes = b"2\n00:00:03,000 --> 00:00:04,000\nsecond\n\n1\n00:00:01,000 --> 00:00:02,000\nfirst\n\n";
    let recs = load_subtitles(&bytes.to_vec()).unwrap();
    assert_eq!(recs.len(), 2);
    assert_eq!(recs[0].index, 1);
    assert_eq!(recs[0].text, b"first".to_vec());
    assert_eq!(recs[1].index, 2);
    assert_eq!(recs[1].text, b"second".to_vec());
}

#[test]
fn parser_keeps_tie_order() {
    let bytes = b"5\n00:00:01,000 --> 00:00:02,000\nearly\n\n5\n00:00:03,000 --> 00:00:04,000\nlate\n\n";
    let recs = load_subtitles(&bytes.to_vec()).unwrap();
    assert_eq!(recs.len(), 2);
    assert_eq!(recs[0].text, b"early".to_vec());
    assert_eq!(recs[1].text, b"late".to_vec());
}

#[test]
fn parser_joins_text_lines_and_crlf() {
    let bytes = b"1\r\n00:00:01,000 --> 00:00:02,000\r\nline one\r\nline two\r\n\r\n";
    let recs = load_subtitles(&bytes.to_vec()).unwrap();
    assert_eq!(recs.len(), 1);
    assert_eq!(recs[0].text, b"line one\nline two".to_vec());
}

#[test]
fn parser_drops_unterminated_trailing_block() {
    let bytes = b"1\n00:00:01,000 --> 00:00:02,000\nkept\n\n2\n00:00:03,000 --> 00:00:04,000\ndropped";
    let recs = load_subtitles(&bytes.to_vec()).unwrap();
    assert_eq!(recs.len(), 1);
    assert_eq!(recs[0].text, b"kept".to_vec());
}

#[test]
fn parser_rejects_malformed_blocks() {
    assert_eq!(load_subtitles(&b"abc\n\n".to_vec()), Err(SubError::Format));
    assert_eq!(
        load_subtitles(&b"1\n00:00:01,000 00:00:02,000\nx\n\n".to_vec()),
        Err(SubError::Format)
    );
    assert_eq!(
        load_subtitles(&b"1\na --> b --> c\nx\n\n".to_vec()),
        Err(SubError::Format)
    );
    assert_eq!(
        load_subtitles(&b"99999\n00:00:01,000 --> 00:00:02,000\nx\n\n".to_vec()),
        Err(SubError::Format)
    );
    assert_eq!(
        load_subtitles(&b"x1\n00:00:01,000 --> 00:00:02,000\nx\n\n".to_vec()),
        Err(SubError::Format)
    );
}

#[test]
fn encoding_fallback_accepts_windows_1252() {
    let bytes = b"1\n00:00:01,000 --> 00:00:02,000\ncaf\xe9\n\n";
    let recs = load_subtitles(&bytes.to_vec()).unwrap();
    assert_eq!(recs.len(), 1);
    assert_eq!(recs[0].text, "caf\u{e9}".as_bytes().to_vec());
}

#[test]
fn encoding_failure_under_both_is_fatal() {
    let mut bytes = vec![0xEFu8, 0xBB, 0xBF, 0xFF];
    bytes.extend_from_slice(b"\n");
    assert_eq!(load_subtitles(&bytes), Err(SubError::Encoding));
}

#[test]
fn pattern_invalid_source_reports_reason() {
    match compile_pattern("[") {
        PatternState::Invalid(reason) => assert!(!reason.is_empty()),
        PatternState::Compiled(_) => panic!("an unclosed class must be rejected"),
    }
}

#[test]
fn segmenter_example() {
    let p = pattern(r"\[music\]");
    let text = b"Hello [music] world".to_vec();
    let (spans, has_removal) = segment(&p, &text);
    assert!(has_removal);
    assert_eq!(spans.len(), 3);
    assert_eq!(spans[0].text, b"Hello ".to_vec());
    assert!(!spans[0].removed);
    assert_eq!(spans[1].text, b"[music]".to_vec());
    assert!(spans[1].removed);
    assert_eq!(spans[2].text, b" world".to_vec());
    assert!(!spans[2].removed);
}

#[test]
fn segmenter_no_match_keeps_whole_text() {
    let p = pattern("xyz");
    let text = b"Hello world".to_vec();
    let (spans, has_removal) = segment(&p, &text);
    assert!(!has_removal);
    assert_eq!(spans.len(), 1);
    assert!(!spans[0].removed);
    assert_eq!(spans[0].text, text);
}

#[test]
fn segmenter_partition_reconstructs_text() {
    for (pat, text) in [
        (r"l+", &b"Hello world"[..]),
        (r"\s*\[[^\]]*\]\s*", &b"a [x] b [y] c"[..]),
        (r"a*", &b"bcb"[..]),
        (r"", &b"ab"[..]),
    ] {
        let p = pattern(pat);
        let (spans, _) = segment(&p, &text.to_vec());
        let mut glued: Vec<u8> = Vec::new();
        for s in &spans {
            glued.extend_from_slice(&s.text);
        }
        assert_eq!(glued, text.to_vec());
    }
}

#[test]
fn exporter_drops_fully_matched_and_renumbers() {
    let recs = vec![
        subtitle(7, 1_000, 2_500, b"Hello [music] world"),
        subtitle(8, 3_000, 4_000, b"[music]"),
        subtitle(9, 5_000, 6_000, b"goodbye"),
    ];
    let p = pattern(r"\s*\[music\]\s*");
    let out = export_subtitles(&recs, &p);
    let expected = b"1\n00:00:01,000 --> 00:00:02,500\nHelloworld\n\n2\n00:00:05,000 --> 00:00:06,000\ngoodbye\n\n";
    assert_eq!(out, expected.to_vec());
}

#[test]
fn exporter_reapplying_same_pattern_removes_nothing_more() {
    let recs = vec![
        subtitle(1, 1_000, 2_500, b"Hello [music] world"),
        subtitle(2, 5_000, 6_000, b"goodbye"),
    ];
    let p = pattern(r"\s*\[music\]\s*");
    let once = export_subtitles(&recs, &p);
    let reloaded = load_subtitles(&once).unwrap();
    let twice = export_subtitles(&reloaded, &p);
    assert_eq!(once, twice);
}

#[test]
fn exporter_empty_input_writes_nothing() {
    let p = pattern("x");
    let out = export_subtitles(&Vec::new(), &p);
    assert!(out.is_empty());
}

fn subtitle(index: u16, start: u32, stop: u32, text: &[u8]) -> subtitle_filter::subs::Subtitle {
    subtitle_filter::subs::Subtitle {
        index,
        start: MovieTime { mili: start },
        stop: MovieTime { mili: stop },
        text: text.to_vec(),
    }
}

#[test]
fn parser_empty_input_yields_no_records() {
    let recs = load_subtitles(&Vec::new()).unwrap();
    assert!(recs.is_empty());
}

#[test]
fn parser_rejects_double_blank_line() {
    let bytes = b"1\n00:00:01,000 --> 00:00:02,000\nx\n\n\n";
    assert_eq!(load_subtitles(&bytes.to_vec()), Err(SubError::Format));
}

#[test]
fn parser_rejects_leading_blank_line() {
    let bytes = b"\n1\n00:00:01,000 --> 00:00:02,000\nx\n\n";
    assert_eq!(load_subtitles(&bytes.to_vec()), Err(SubError::Format));
}

#[test]
fn parser_accepts_record_without_text() {
    let bytes = b"1\n00:00:01,000 --> 00:00:02,000\n\n";
    let recs = load_subtitles(&bytes.to_vec()).unwrap();
    assert_eq!(recs.len(), 1);
    assert!(recs[0].text.is_empty());
}

#[test]
fn exporter_drops_empty_text_record() {
    let recs = vec![
        subtitle(1, 1_000, 2_000, b""),
        subtitle(2, 3_000, 4_000, b"kept"),
    ];
    let p = pattern("zzz");
    let out = export_subtitles(&recs, &p);
    assert_eq!(out, b"1\n00:00:03,000 --> 00:00:04,000\nkept\n\n".to_vec());
}

#[test]
fn exporter_renumbers_past_nine() {
    let mut recs = Vec::new();
    for k in 0..11u32 {
        recs.push(subtitle(
            (30 - k) as u16,
            1_000 * k,
            1_000 * k + 500,
            format!("line {}", k).as_bytes(),
        ));
    }
    let p = pattern("zzz");
    let out = export_subtitles(&recs, &p);
    let text = String::from_utf8(out).unwrap();
    assert!(text.contains("\n\n10\n"));
    assert!(text.contains("\n\n11\n"));
    assert!(text.starts_with("1\n"));
}
