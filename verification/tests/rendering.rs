use lrc_to_sub::lrc::parse_lrc_file;
use lrc_to_sub::lrc::Lyrics;
use lrc_to_sub::subtitle_gen::format_duration;
use lrc_to_sub::subtitle_gen::format_text_duration;
use lrc_to_sub::subtitle_gen::generate_ass_file;
use lrc_to_sub::subtitle_gen::generate_karaoke_line;
use lrc_to_sub::subtitle_gen::generate_karaoke_lines;
use lrc_to_sub::subtitle_gen::run;
use lrc_to_sub::subtitle_gen::KaraokeLine;
use lrc_to_sub::subtitle_gen::KaraokeLineSegment;
use lrc_to_sub::subtitle_gen::ASS_EVENTS_HEADER;
use lrc_to_sub::subtitle_gen::ASS_SCRIPT_INFO_HEADER;
use lrc_to_sub::subtitle_gen::ASS_STYLES_FORMAT;
use lrc_to_sub::subtitle_gen::ASS_STYLES_MID;
use lrc_to_sub::subtitle_gen::ASS_STYLES_ROW1_END;
use lrc_to_sub::subtitle_gen::ASS_STYLES_ROW2_END;
use lrc_to_sub::lrc::LyricsTiming;
use lrc_to_sub::subtitle_style::convert_color_to_ass_standard;
use lrc_to_sub::subtitle_style::is_valid_color;
use lrc_to_sub::subtitle_style::is_valid_style;
use lrc_to_sub::subtitle_style::AssSubtitleStyle;
use lrc_to_sub::subtitle_style::SubtitleStyle;

fn test_style() -> SubtitleStyle {
    SubtitleStyle {
        primary_color: "00FFFFFF".to_string(),
        secondary_color: "00EF8800".to_string(),
        long_text_secondary_color: "00BF6C00".to_string(),
    }
}

fn test_ass_style() -> AssSubtitleStyle {
    AssSubtitleStyle::new(&test_style())
}

#[test]
fn color_white_is_symmetric() {
    // R = G = B = FF, so the reordering gives the same digits back.
    assert_eq!(convert_color_to_ass_standard("00FFFFFF"), "00FFFFFF");
}

#[test]
fn color_six_digits_get_implicit_alpha() {
    assert_eq!(convert_color_to_ass_standard("FFFFFF"), "00FFFFFF");
    assert_eq!(convert_color_to_ass_standard("112233"), "00332211");
}

#[test]
fn color_channels_are_reversed() {
    assert_eq!(convert_color_to_ass_standard("80112233"), "80332211");
}

#[test]
fn color_is_uppercased() {
    assert_eq!(convert_color_to_ass_standard("80abcdef"), "80EFCDAB");
}

#[test]
fn ass_style_converts_all_three_colors() {
    let s = test_ass_style();
    assert_eq!(s.primary_color, "00FFFFFF");
    assert_eq!(s.secondary_color, "000088EF");
    assert_eq!(s.long_text_secondary_color, "00006CBF");
}

#[test]
fn color_validity_check() {
    assert!(is_valid_color("abcdef"));
    assert!(is_valid_color("00FFFFFF"));
    assert!(!is_valid_color("abcde"));
    assert!(!is_valid_color("00ffgg"));
    assert!(!is_valid_color(""));
    assert!(is_valid_style(&test_style()));
    let bad = SubtitleStyle {
        primary_color: "xyz".to_string(),
        secondary_color: "00EF8800".to_string(),
        long_text_secondary_color: "00BF6C00".to_string(),
    };
    assert!(!is_valid_style(&bad));
}

#[test]
fn duration_format_exact() {
    assert_eq!(format_duration(0), "00:00.00");
    assert_eq!(format_duration(225670), "03:45.67");
    assert_eq!(format_duration(5999990), "99:59.99");
    // From 100 minutes on, the minutes field simply grows.
    assert_eq!(format_duration(6600000), "110:00.00");
}

#[test]
fn timestamp_round_trip_recovers_fields() {
    // Parsing MM:SS.CC and formatting the value gives the fields back.
    let ms = lrc_to_sub::lrc::duration_from_time_string("03:45.67").unwrap();
    assert_eq!(format_duration(ms), "03:45.67");
    let ms2 = lrc_to_sub::lrc::duration_from_time_string("00:59:99").unwrap();
    assert_eq!(format_duration(ms2), "00:59.99");
}

#[test]
fn short_segment_uses_plain_karaoke_tag() {
    // 300ms is below the 700ms threshold.
    let s = test_ass_style();
    assert_eq!(format_text_duration(300, "la", &s), "{\\k30}la");
}

#[test]
fn long_segment_uses_color_override_tag() {
    // 800ms is at or above the 700ms threshold.
    let s = test_ass_style();
    assert_eq!(
        format_text_duration(800, "la", &s),
        "{\\2c00006CBF\\K80}la{\\2c}"
    );
}

#[test]
fn threshold_segment_is_long() {
    let s = test_ass_style();
    assert_eq!(
        format_text_duration(700, "x", &s),
        "{\\2c00006CBF\\K70}x{\\2c}"
    );
}

#[test]
fn karaoke_line_slices_text() {
    let timings = vec![
        LyricsTiming {
            time: 1000,
            duration: 500,
            line_index: 0,
            line_char_from_index: 0,
            line_char_to_index: 2,
        },
        LyricsTiming {
            time: 1500,
            duration: 0,
            line_index: 0,
            line_char_from_index: 2,
            line_char_to_index: 5,
        },
    ];
    let kl = generate_karaoke_line(&timings, "Hello");
    assert_eq!(kl.line_start, 1000);
    assert_eq!(kl.line_end, 1500);
    assert_eq!(kl.line_segments.len(), 2);
    assert_eq!(kl.line_segments[0].text, "He");
    assert_eq!(kl.line_segments[0].duration, 500);
    assert_eq!(kl.line_segments[1].text, "llo");
}

#[test]
fn karaoke_line_suppresses_empty_trailing_segment() {
    let timings = vec![
        LyricsTiming {
            time: 1000,
            duration: 1000,
            line_index: 0,
            line_char_from_index: 0,
            line_char_to_index: 5,
        },
        LyricsTiming {
            time: 2000,
            duration: 0,
            line_index: 0,
            line_char_from_index: 5,
            line_char_to_index: 5,
        },
    ];
    let kl = generate_karaoke_line(&timings, "Hello");
    assert_eq!(kl.line_segments.len(), 1);
    assert_eq!(kl.line_segments[0].text, "Hello");
}

#[test]
fn karaoke_lines_group_by_line_index() {
    let lines = vec![
        "[00:01.00]one".to_string(),
        "[00:02.00]two".to_string(),
    ];
    let lyrics = Lyrics::new(parse_lrc_file(&lines).unwrap());
    let kls = generate_karaoke_lines(&lyrics);
    assert_eq!(kls.len(), 2);
    // The sentinel joins the first line's run.
    assert_eq!(kls[0].line_start, 0);
    assert_eq!(kls[0].line_end, 1000);
    assert_eq!(kls[1].line_start, 2000);
    assert_eq!(kls[1].line_end, 2000);
}

#[test]
fn lead_in_respects_line_two_positions_back() {
    // Previous-previous line ends at 4s, the third line starts at 5.5s:
    // lead-in = min(2s, 5.5s - 4s) = 1.5s, so the dialogue starts at 4s.
    let mk = |start: u64, end: u64, text: &str| KaraokeLine {
        line_start: start,
        line_end: end,
        line_segments: vec![KaraokeLineSegment {
            duration: end - start,
            text: text.to_string(),
        }],
    };
    let lines = vec![mk(3000, 4000, "a"), mk(4500, 5000, "b"), mk(5500, 6000, "c")];
    let rows = generate_ass_file(lines, &test_style());
    assert_eq!(rows.len(), 6);
    assert!(rows[5].starts_with("Dialogue: 1,0:00:04.00,0:00:06.00,"));
}

#[test]
fn lead_in_is_clamped_to_two_seconds() {
    let mk = |start: u64, end: u64| KaraokeLine {
        line_start: start,
        line_end: end,
        line_segments: vec![KaraokeLineSegment {
            duration: 100,
            text: "x".to_string(),
        }],
    };
    let lines = vec![mk(10000, 10100)];
    let rows = generate_ass_file(lines, &test_style());
    // Lead-in is two seconds: the line is shown from 8s.
    assert!(rows[3].starts_with("Dialogue: 1,0:00:08.00,0:00:10.10,"));
}

#[test]
fn full_conversion_exact_output() {
    let input = vec!["[00:00.50]He[00:01.00]llo[00:02.00]".to_string()];
    let out = run(&input, &test_style()).unwrap();
    let styles = format!(
        "{}{}{}{}{}{}{}{}{}",
        ASS_STYLES_FORMAT,
        "00FFFFFF",
        ASS_STYLES_MID,
        "000088EF",
        ASS_STYLES_ROW1_END,
        "00FFFFFF",
        ASS_STYLES_MID,
        "000088EF",
        ASS_STYLES_ROW2_END
    );
    let dialogue = "Dialogue: 1,0:00:00.00,0:00:02.00,Jap,,0,0,0,,\
        {\\k0}— {\\k50}{\\k50}He{\\2c00006CBF\\K100}llo{\\2c}";
    let expected = format!(
        "{}\n{}\n{}\n{}",
        ASS_SCRIPT_INFO_HEADER, styles, ASS_EVENTS_HEADER, dialogue
    );
    assert_eq!(out, expected);
}

#[test]
fn out_of_order_timestamps_are_rejected() {
    let input = vec!["[00:02.00]a[00:01.00]b".to_string()];
    assert!(run(&input, &test_style()).is_err());
}

#[test]
fn mismatched_text_lines_are_rejected() {
    // A timed line with no `]` contributes a timing but no lyric text, so
    // a later line's character ranges no longer fit the compacted line
    // list; the conversion reports an error instead of slicing out of
    // range.
    let input = vec![
        "[00:01.00".to_string(),
        "[00:02.00]ABCD".to_string(),
        "[00:03.00]X".to_string(),
    ];
    assert!(run(&input, &test_style()).is_err());
}

#[test]
fn run_reports_parse_failure() {
    let input = vec!["not an lrc line".to_string()];
    let err = run(&input, &test_style()).unwrap_err();
    assert!(err.contains("Parsing lrc file failed"));
}
