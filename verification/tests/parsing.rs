use lrc_to_sub::lrc::parse_lrc_file;
use lrc_to_sub::lrc::parse_lrc_line;
use lrc_to_sub::lrc::parse_tag;
use lrc_to_sub::lrc::duration_from_time_string;
use lrc_to_sub::lrc::LrcElement;
use lrc_to_sub::lrc::LrcFile;
use lrc_to_sub::lrc::Lyrics;
use lrc_to_sub::lrc::Tag;
use lrc_to_sub::lrc::TextLine;
use lrc_to_sub::lrc::TimedLocation;

#[test]
fn timestamp_simple() {
    assert_eq!(duration_from_time_string("03:45.67"), Ok(225670));
    assert_eq!(duration_from_time_string("00:00.00"), Ok(0));
    assert_eq!(duration_from_time_string("99:59.99"), Ok(5999990));
}

#[test]
fn timestamp_colon_divider() {
    assert_eq!(duration_from_time_string("03:45:67"), Ok(225670));
}

#[test]
fn timestamp_ignores_trailing_characters() {
    assert_eq!(duration_from_time_string("00:01.00xyz"), Ok(1000));
}

#[test]
fn timestamp_too_short() {
    assert!(duration_from_time_string("00:01").is_err());
    assert!(duration_from_time_string("").is_err());
}

#[test]
fn timestamp_bad_minutes() {
    assert!(duration_from_time_string("0a:01.00").is_err());
}

#[test]
fn timestamp_bad_seconds_divider() {
    assert!(duration_from_time_string("00-01.00").is_err());
}

#[test]
fn timestamp_bad_seconds() {
    assert!(duration_from_time_string("00:+1.00").is_err());
}

#[test]
fn timestamp_bad_centiseconds_divider() {
    assert!(duration_from_time_string("00:01x00").is_err());
}

#[test]
fn timestamp_bad_centiseconds() {
    assert!(duration_from_time_string("00:01.0x").is_err());
}

#[test]
fn tag_time() {
    assert_eq!(parse_tag("00:01.50"), Ok(Tag::Time(1500)));
}

#[test]
fn tag_empty_is_error() {
    assert!(parse_tag("").is_err());
}

#[test]
fn tag_offset() {
    assert_eq!(parse_tag("offset:250"), Ok(Tag::Offset(250)));
    assert_eq!(parse_tag("offset:-250"), Ok(Tag::Offset(-250)));
    assert_eq!(parse_tag("offset:+250"), Ok(Tag::Offset(250)));
}

#[test]
fn tag_offset_extremes() {
    assert_eq!(
        parse_tag("offset:9223372036854775807"),
        Ok(Tag::Offset(i64::MAX))
    );
    assert_eq!(
        parse_tag("offset:-9223372036854775808"),
        Ok(Tag::Offset(i64::MIN))
    );
}

#[test]
fn tag_offset_value_up_to_second_colon() {
    assert_eq!(parse_tag("offset:12:34"), Ok(Tag::Offset(12)));
}

#[test]
fn tag_offset_missing_value() {
    assert!(parse_tag("offset").is_err());
    assert!(parse_tag("offset:").is_err());
}

#[test]
fn tag_offset_bad_value() {
    assert!(parse_tag("offset:abc").is_err());
    assert!(parse_tag("offset:99999999999999999999").is_err());
}

#[test]
fn tag_unknown_is_tolerated() {
    assert_eq!(parse_tag("ti:Some Title"), Ok(Tag::Unknown));
    assert_eq!(parse_tag("ar"), Ok(Tag::Unknown));
}

#[test]
fn line_with_two_timestamps() {
    // One text line "Hi" and two timed locations with ranges [0,2) and [2,2).
    let elements = parse_lrc_line("[00:01.00]Hi[00:02.00]", 7).unwrap();
    assert_eq!(elements.len(), 3);
    match &elements[0] {
        LrcElement::TimedLocation(l) => {
            assert_eq!(l.time, 1000);
            assert_eq!(l.source_line_index, 7);
            assert_eq!(l.line_char_from_index, 0);
            assert_eq!(l.line_char_to_index, 2);
        }
        other => panic!("expected a timed location, got {:?}", other),
    }
    match &elements[1] {
        LrcElement::TimedLocation(l) => {
            assert_eq!(l.time, 2000);
            assert_eq!(l.line_char_from_index, 2);
            assert_eq!(l.line_char_to_index, 2);
        }
        other => panic!("expected a timed location, got {:?}", other),
    }
    match &elements[2] {
        LrcElement::TextLine(t) => {
            assert_eq!(t.source_line_index, 7);
            assert_eq!(t.text, "Hi");
        }
        other => panic!("expected a text line, got {:?}", other),
    }
}

#[test]
fn empty_line_has_no_elements() {
    let elements = parse_lrc_line("", 0).unwrap();
    assert!(elements.is_empty());
}

#[test]
fn line_not_starting_with_bracket_is_error() {
    assert!(parse_lrc_line("x[00:01.00]a", 0).is_err());
    assert!(parse_lrc_line("hello", 0).is_err());
}

#[test]
fn line_with_unterminated_bracket_is_error() {
    assert!(parse_lrc_line("[", 0).is_err());
}

#[test]
fn line_with_directive_and_text() {
    let elements = parse_lrc_line("[ti:x]text", 3).unwrap();
    assert_eq!(elements.len(), 2);
    assert!(matches!(&elements[0], LrcElement::Tag(Tag::Unknown)));
    match &elements[1] {
        LrcElement::TextLine(t) => assert_eq!(t.text, "text"),
        other => panic!("expected a text line, got {:?}", other),
    }
}

#[test]
fn offset_applies_to_later_timestamps() {
    // [offset:500] then 00:01.00 yields an effective time of 1.5s.
    let lines = vec!["[offset:500]".to_string(), "[00:01.00]Hi".to_string()];
    let file = parse_lrc_file(&lines).unwrap();
    assert_eq!(file.timed_texts_lines.len(), 1);
    assert_eq!(file.timed_texts_lines[0].time, 1500);
}

#[test]
fn offset_does_not_apply_retroactively() {
    let lines = vec![
        "[00:01.00]a".to_string(),
        "[offset:500]".to_string(),
        "[00:01.00]b".to_string(),
    ];
    let file = parse_lrc_file(&lines).unwrap();
    assert_eq!(file.timed_texts_lines.len(), 2);
    assert_eq!(file.timed_texts_lines[0].time, 1000);
    assert_eq!(file.timed_texts_lines[1].time, 1500);
}

#[test]
fn negative_effective_time_is_error() {
    let lines = vec!["[offset:-2000]".to_string(), "[00:01.00]Hi".to_string()];
    let err = parse_lrc_file(&lines).unwrap_err();
    assert!(err.contains("Cannot apply offset"));
}

#[test]
fn file_parse_propagates_line_error() {
    let lines = vec!["[00:01.00]ok".to_string(), "bad line".to_string()];
    assert!(parse_lrc_file(&lines).is_err());
}

#[test]
fn lyrics_durations_from_consecutive_times() {
    // Timings at 0s, 1s, 3s on one line: derived durations 1s and 2s,
    // the last entry's duration 0.
    let file = LrcFile {
        lines: vec![TextLine {
            source_line_index: 0,
            text: "abc".to_string(),
        }],
        timed_texts_lines: vec![
            TimedLocation {
                time: 0,
                source_line_index: 0,
                line_char_from_index: 0,
                line_char_to_index: 1,
            },
            TimedLocation {
                time: 1000,
                source_line_index: 0,
                line_char_from_index: 1,
                line_char_to_index: 2,
            },
            TimedLocation {
                time: 3000,
                source_line_index: 0,
                line_char_from_index: 2,
                line_char_to_index: 3,
            },
        ],
    };
    let lyrics = Lyrics::new(file);
    assert_eq!(lyrics.lines, vec!["abc".to_string()]);
    assert_eq!(lyrics.timings.len(), 4);
    // The sentinel anchors the first segment's duration.
    assert_eq!(lyrics.timings[0].time, 0);
    assert_eq!(lyrics.timings[0].duration, 0);
    assert_eq!(lyrics.timings[0].line_index, 0);
    assert_eq!(lyrics.timings[1].duration, 1000);
    assert_eq!(lyrics.timings[2].duration, 2000);
    assert_eq!(lyrics.timings[3].duration, 0);
}

#[test]
fn lyrics_empty_without_timings() {
    let file = LrcFile {
        lines: vec![],
        timed_texts_lines: vec![],
    };
    let lyrics = Lyrics::new(file);
    assert!(lyrics.lines.is_empty());
    assert!(lyrics.timings.is_empty());
}

#[test]
fn sorted_and_well_formed_checks() {
    let lines = vec!["[00:01.00]one".to_string(), "[00:02.00]two".to_string()];
    let file = parse_lrc_file(&lines).unwrap();
    assert!(file.timed_texts_sorted());
    let lyrics = Lyrics::new(file);
    assert!(lyrics.is_well_formed());

    let unsorted = vec!["[00:02.00]a[00:01.00]b".to_string()];
    let file2 = parse_lrc_file(&unsorted).unwrap();
    assert!(!file2.timed_texts_sorted());
}

#[test]
fn lyrics_compacts_line_indices() {
    // Two timed lines among three source lines: indices compact to 0 and 1,
    // and only the timed lines' texts are kept.
    let lines = vec![
        "[00:01.00]one".to_string(),
        "[ti:just a directive]untimed".to_string(),
        "[00:02.00]two".to_string(),
    ];
    let file = parse_lrc_file(&lines).unwrap();
    let lyrics = Lyrics::new(file);
    assert_eq!(
        lyrics.lines,
        vec!["one".to_string(), "two".to_string()]
    );
    assert_eq!(lyrics.timings.len(), 3);
    assert_eq!(lyrics.timings[1].line_index, 0);
    assert_eq!(lyrics.timings[2].line_index, 1);
}
