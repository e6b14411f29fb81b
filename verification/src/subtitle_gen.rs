//! Karaoke line building and ASS rendering: regroups the normalized timing
//! sequence into display lines, renders each syllable as a karaoke tag with
//! lead-in timing and a long-segment highlight override, and assembles the
//! full ASS file text.

use vstd::prelude::*;
use vstd::string::StrSliceExecFns;
use vstd::string::StringExecFns;

use crate::lrc::lemma_timing_indices_monotone;
use crate::lrc::lemma_timing_times_monotone;
use crate::lrc::lrc_file_spec;
use crate::lrc::lyrics_of;
use crate::lrc::lyrics_wf;
use crate::lrc::parse_lrc_file;
use crate::lrc::sorted_by_time;
use crate::lrc::valid_timestamp;
use crate::lrc::timestamp_ms;
use crate::lrc::LrcFileV;
use crate::lrc::Lyrics;
use crate::lrc::LyricsTiming;
use crate::lrc::LyricsV;
use crate::subtitle_style::ass_style_of;
use crate::subtitle_style::valid_style;
use crate::subtitle_style::AssSubtitleStyle;
use crate::subtitle_style::AssSubtitleStyleV;
use crate::subtitle_style::SubtitleStyle;
use crate::subtitle_style::SubtitleStyleV;
use crate::text::append_two_digits;
use crate::text::dec_str;
use crate::text::digit_char;
use crate::text::dval;
use crate::text::lemma_digit_char_inverse;
use crate::text::u64_to_string;
use crate::text::views_of;
use vstd::arithmetic::div_mod::lemma_fundamental_div_mod_converse;

verus! {

/// One renderable syllable: a display duration (milliseconds) and the
/// literal text slice it reveals (possibly empty).
#[derive(Debug)]
pub struct KaraokeLineSegment {
    pub duration: u64,
    pub text: String,
}

pub ghost struct KaraokeLineSegmentV {
    pub duration: u64,
    pub text: Seq<char>,
}

impl View for KaraokeLineSegment {
    type V = KaraokeLineSegmentV;

    open spec fn view(&self) -> KaraokeLineSegmentV {
        KaraokeLineSegmentV { duration: self.duration, text: self.text@ }
    }
}

/// One display line: start and end times (milliseconds) and its ordered
/// segments.
#[derive(Debug)]
pub struct KaraokeLine {
    pub line_start: u64,
    pub line_end: u64,
    pub line_segments: Vec<KaraokeLineSegment>,
}

pub ghost struct KaraokeLineV {
    pub line_start: u64,
    pub line_end: u64,
    pub line_segments: Seq<KaraokeLineSegmentV>,
}

pub open spec fn seg_views(v: Seq<KaraokeLineSegment>) -> Seq<KaraokeLineSegmentV> {
    Seq::new(v.len(), |i: int| v[i]@)
}

impl View for KaraokeLine {
    type V = KaraokeLineV;

    open spec fn view(&self) -> KaraokeLineV {
        KaraokeLineV {
            line_start: self.line_start,
            line_end: self.line_end,
            line_segments: seg_views(self.line_segments@),
        }
    }
}

pub open spec fn kline_views(v: Seq<KaraokeLine>) -> Seq<KaraokeLineV> {
    Seq::new(v.len(), |i: int| v[i]@)
}

/// One segment per timing of a run: the timing's duration and the line
/// text slice its character range picks out.
pub open spec fn segs_all(t: Seq<LyricsTiming>, line: Seq<char>) -> Seq<KaraokeLineSegmentV> {
    Seq::new(
        t.len(),
        |i: int|
            KaraokeLineSegmentV {
                duration: t[i].duration,
                text: line.subrange(
                    t[i].line_char_from_index as int,
                    t[i].line_char_to_index as int,
                ),
            },
    )
}

/// The display line of one run of timings: it starts at the first and ends
/// at the last timing's time; a trailing segment with an empty text slice
/// is suppressed.
pub open spec fn karaoke_line_of(t: Seq<LyricsTiming>, line: Seq<char>) -> KaraokeLineV
    recommends
        t.len() >= 1,
{
    let all = segs_all(t, line);
    KaraokeLineV {
        line_start: t[0].time,
        line_end: t[t.len() - 1].time,
        line_segments: if all.last().text.len() == 0 {
            all.drop_last()
        } else {
            all
        },
    }
}

/// The first position in `t` whose line index reaches `k`, or `t.len()`.
pub open spec fn cut(t: Seq<LyricsTiming>, k: int) -> int
    decreases t.len(),
{
    if t.len() == 0 {
        0
    } else if t[0].line_index >= k {
        0
    } else {
        1 + cut(t.drop_first(), k)
    }
}

pub proof fn lemma_cut_bounds(t: Seq<LyricsTiming>, k: int)
    ensures
        0 <= cut(t, k) <= t.len(),
        forall|i: int| 0 <= i < cut(t, k) ==> #[trigger] t[i].line_index < k,
        cut(t, k) < t.len() ==> t[cut(t, k)].line_index >= k,
    decreases t.len(),
{
    if t.len() > 0 && t[0].line_index < k {
        lemma_cut_bounds(t.drop_first(), k);
        assert forall|i: int| 0 <= i < cut(t, k) implies #[trigger] t[i].line_index < k by {
            if i > 0 {
                assert(t.drop_first()[i - 1].line_index < k);
            }
        }
    }
}

pub proof fn lemma_cut_at(t: Seq<LyricsTiming>, k: int, m: int)
    requires
        0 <= m <= t.len(),
        forall|i: int| 0 <= i < m ==> #[trigger] t[i].line_index < k,
        m < t.len() ==> t[m].line_index >= k,
    ensures
        cut(t, k) == m,
    decreases t.len(),
{
    if t.len() > 0 && t[0].line_index < k {
        assert(m != 0);
        assert forall|i: int| 0 <= i < m - 1 implies #[trigger] t.drop_first()[i].line_index
            < k by {
            assert(t[i + 1].line_index < k);
        }
        lemma_cut_at(t.drop_first(), k, m - 1);
    }
}

pub proof fn lemma_cut_monotone(t: Seq<LyricsTiming>, k1: int, k2: int)
    requires
        k1 <= k2,
    ensures
        cut(t, k1) <= cut(t, k2),
{
    lemma_cut_bounds(t, k1);
    lemma_cut_bounds(t, k2);
    if cut(t, k2) < cut(t, k1) {
        assert(t[cut(t, k2)].line_index >= k2);
        assert(t[cut(t, k2)].line_index < k1);
    }
}

/// Under well-formed lyrics, every lyric line's timing run is a non-empty
/// contiguous block whose entries carry exactly that line's index.
pub proof fn lemma_group_bounds(l: LyricsV, k: int)
    requires
        lyrics_wf(l),
        0 <= k < l.lines.len(),
    ensures
        0 <= cut(l.timings, k) < cut(l.timings, k + 1) <= l.timings.len(),
        forall|i: int|
            cut(l.timings, k) <= i < cut(l.timings, k + 1) ==> #[trigger] l.timings[i].line_index
                == k,
{
    let t = l.timings;
    lemma_cut_bounds(t, k);
    lemma_cut_bounds(t, k + 1);
    lemma_cut_monotone(t, k, k + 1);
    assert(t.len() > 0);
    assert(k <= t[t.len() - 1].line_index);
    lemma_idx_coverage(t, k);
    let w = choose|i: int| 0 <= i < t.len() && t[i].line_index == k;
    assert(w >= cut(t, k));
    assert(cut(t, k) < t.len());
    lemma_timing_indices_monotone(t, cut(t, k), w);
    assert(t[cut(t, k)].line_index == k);
    if cut(t, k + 1) <= cut(t, k) {
        lemma_timing_indices_monotone(t, cut(t, k + 1), cut(t, k));
        assert(t[cut(t, k + 1)].line_index >= k + 1);
        assert(false);
    }
    assert forall|i: int| cut(t, k) <= i < cut(t, k + 1) implies #[trigger] t[i].line_index
        == k by {
        lemma_timing_indices_monotone(t, cut(t, k), i);
    }
}

/// A line index sequence that starts at zero and grows in steps of at most
/// one passes through every value up to its last.
proof fn lemma_idx_coverage(t: Seq<LyricsTiming>, k: int)
    requires
        crate::lrc::timings_adjacent_ok(t),
        t.len() > 0,
        t[0].line_index == 0,
        0 <= k <= t[t.len() - 1].line_index,
    ensures
        exists|i: int| 0 <= i < t.len() && t[i].line_index == k,
    decreases t.len(),
{
    let n = t.len();
    if t[n - 1].line_index == k {
        assert(t[n - 1].line_index == k);
    } else {
        assert(n >= 2);
        let s = t.drop_last();
        assert forall|q: int|
            0 <= q < s.len() - 1 implies #[trigger] s[q].time <= s[q + 1].time && s[q].line_index
            <= s[q + 1].line_index <= s[q].line_index + 1 by {
            assert(t[q].time <= t[q + 1].time);
            assert(t[q].line_index <= t[q + 1].line_index <= t[q].line_index + 1);
        }
        assert(t[n - 2].line_index <= t[n - 1].line_index <= t[n - 2].line_index + 1);
        assert(k <= t[n - 2].line_index);
        lemma_idx_coverage(s, k);
        let w = choose|i: int| 0 <= i < s.len() && s[i].line_index == k;
        assert(t[w].line_index == k);
    }
}

/// Builds one display line from one run of timings and its lyric text.
#[verifier::loop_isolation(false)]
pub fn generate_karaoke_line(timings_for_line: &[LyricsTiming], line: &str) -> (r: KaraokeLine)
    requires
        timings_for_line@.len() >= 1,
        forall|i: int|
            #![trigger timings_for_line@[i]]
            0 <= i < timings_for_line@.len() ==> timings_for_line@[i].line_char_from_index
                <= timings_for_line@[i].line_char_to_index <= line@.len(),
    ensures
        r@ == karaoke_line_of(timings_for_line@, line@),
{
    let ghost ts = timings_for_line@;
    let n = timings_for_line.len();
    let line_start = timings_for_line[0].time;
    let line_end = timings_for_line[n - 1].time;
    let mut segs: Vec<KaraokeLineSegment> = Vec::new();
    let mut i: usize = 0;
    proof {
        assert(seg_views(segs@) =~= segs_all(ts, line@).take(0));
    }
    while i < n - 1
        invariant
            0 <= i <= n - 1,
            seg_views(segs@) == segs_all(ts, line@).take(i as int),
        decreases n - 1 - i,
    {
        let t = timings_for_line[i];
        let txt = line.substring_char(t.line_char_from_index, t.line_char_to_index);
        segs.push(KaraokeLineSegment { duration: t.duration, text: txt.to_owned() });
        i = i + 1;
        proof {
            assert(seg_views(segs@) =~= segs_all(ts, line@).take(i as int));
        }
    }
    let t = timings_for_line[n - 1];
    let txt = line.substring_char(t.line_char_from_index, t.line_char_to_index);
    let ghost all = segs_all(ts, line@);
    let ghost pre = segs@;
    if !txt.is_empty() {
        segs.push(KaraokeLineSegment { duration: t.duration, text: txt.to_owned() });
        proof {
            assert(all.last().text.len() != 0);
            assert forall|q: int| 0 <= q < n implies seg_views(segs@)[q] == all[q] by {
                if q < n - 1 {
                    assert(segs@[q] == pre[q]);
                    assert(seg_views(pre)[q] == all.take(n - 1)[q]);
                }
            }
            assert(seg_views(segs@) =~= all);
        }
    } else {
        proof {
            assert(all.last().text.len() == 0);
            assert(seg_views(segs@) =~= all.drop_last());
        }
    }
    let r = KaraokeLine { line_start, line_end, line_segments: segs };
    proof {
        assert(r@ == karaoke_line_of(ts, line@));
    }
    r
}

/// The karaoke lines of normalized lyrics: one per compacted lyric line,
/// built from that line's contiguous timing run.
pub open spec fn karaoke_lines_of(l: LyricsV) -> Seq<KaraokeLineV> {
    Seq::new(
        l.lines.len(),
        |k: int|
            karaoke_line_of(
                l.timings.subrange(cut(l.timings, k), cut(l.timings, k + 1)),
                l.lines[k],
            ),
    )
}

/// Regroups the timing sequence into one karaoke line per lyric line.
#[verifier::loop_isolation(false)]
#[verifier::rlimit(60)]
pub fn generate_karaoke_lines(lrc: &Lyrics) -> (r: Vec<KaraokeLine>)
    requires
        lyrics_wf(lrc@),
    ensures
        kline_views(r@) == karaoke_lines_of(lrc@),
{
    let ghost ts = lrc@.timings;
    let mut karaoke_lines: Vec<KaraokeLine> = Vec::new();
    let mut current_line_index: usize = 0;
    let mut timings_index_start: usize = 0;
    proof {
        lemma_cut_at(ts, 0, 0);
        assert(kline_views(karaoke_lines@) =~= karaoke_lines_of(lrc@).take(0));
    }
    while current_line_index < lrc.lines.len()
        invariant
            0 <= current_line_index <= lrc@.lines.len(),
            timings_index_start as int == cut(ts, current_line_index as int),
            timings_index_start <= ts.len(),
            kline_views(karaoke_lines@) == karaoke_lines_of(lrc@).take(current_line_index as int),
        decreases lrc@.lines.len() - current_line_index,
    {
        let ghost k = current_line_index as int;
        proof {
            lemma_cut_bounds(ts, k);
            lemma_group_bounds(lrc@, k);
        }
        let mut pp: usize = timings_index_start;
        while pp < lrc.timings.len() && lrc.timings[pp].line_index == current_line_index
            invariant
                timings_index_start <= pp <= ts.len(),
                forall|q: int|
                    timings_index_start <= q < pp ==> #[trigger] ts[q].line_index == k,
            decreases ts.len() - pp,
        {
            pp = pp + 1;
        }
        proof {
            assert forall|q: int| 0 <= q < pp implies #[trigger] ts[q].line_index < k + 1 by {
                if q < timings_index_start {
                    assert(ts[q].line_index < k);
                }
            }
            if pp < ts.len() {
                lemma_timing_indices_monotone(ts, timings_index_start as int, pp as int);
                assert(ts[pp as int].line_index >= k);
                assert(ts[pp as int].line_index != k);
            }
            lemma_cut_at(ts, k + 1, pp as int);
            assert(timings_index_start < pp);
        }
        let group = &lrc.timings[timings_index_start..pp];
        proof {
            assert(group@ == ts.subrange(timings_index_start as int, pp as int));
            assert forall|i: int|
                #![trigger group@[i]]
                0 <= i < group@.len() implies group@[i].line_char_from_index
                <= group@[i].line_char_to_index <= lrc@.lines[k].len() by {
                assert(group@[i] == ts[timings_index_start + i]);
                assert(ts[timings_index_start + i].line_index == k);
            }
        }
        let kl = generate_karaoke_line(group, lrc.lines[current_line_index].as_str());
        karaoke_lines.push(kl);
        timings_index_start = pp;
        current_line_index = current_line_index + 1;
        proof {
            assert(kline_views(karaoke_lines@) =~= karaoke_lines_of(lrc@).take(
                current_line_index as int,
            ));
        }
    }
    proof {
        assert(karaoke_lines_of(lrc@).take(lrc@.lines.len() as int) =~= karaoke_lines_of(lrc@));
    }
    karaoke_lines
}

/// Within each line the start precedes the end, and every line ends no
/// later than any later line starts.
pub open spec fn klines_ordered(ks: Seq<KaraokeLineV>) -> bool {
    &&& forall|i: int| #![trigger ks[i]] 0 <= i < ks.len() ==> ks[i].line_start <= ks[i].line_end
    &&& forall|i: int, j: int|
        #![trigger ks[i], ks[j]]
        0 <= i < j < ks.len() ==> ks[i].line_end <= ks[j].line_start
}

/// Lead-in shown before a line, in milliseconds.
pub const DEFAULT_PREDISPLAY_DURATION_MS: u64 = 2000;

/// Threshold from which a segment is rendered in the long-segment form,
/// in milliseconds.
pub const LONG_KARAOKE_SEGMENT_MS: u64 = 700;

pub const ASS_SCRIPT_INFO_HEADER: &'static str =
    "[Script Info]\n; This is a Sub Station Alpha v4 script.\nTitle: \nScriptType: v4.00+\nWrapStyle: 0\nScaledBorderAndShadow: yes\nCollisions: Normal";

pub const ASS_EVENTS_HEADER: &'static str = "[Events]
Format: Layer, Start, End, Style, Name, MarginL, MarginR, MarginV, Effect, Text";

pub const ASS_STYLES_FORMAT: &'static str = "[V4+ Styles]
Format: Name, Fontname, Fontsize, PrimaryColour, SecondaryColour, OutlineColour, BackColour, Bold, Italic, Underline, StrikeOut, ScaleX, ScaleY, Spacing, Angle, BorderStyle, Outline, Shadow, Alignment, MarginL, MarginR, MarginV, Encoding
Style:   Jap,    Arial,       20,  &H";

pub const ASS_STYLES_MID: &'static str = ",    &H";

pub const ASS_STYLES_ROW1_END: &'static str =
    ",    &H00000000, &H00666666,   -1,      0,         0,         0,    100,    100,       0,     0,           1,       3,      0,         8,      10,      10,      10,        1
Style:   Eng,    Arial,       20,  &H";

pub const ASS_STYLES_ROW2_END: &'static str =
    ",    &H00000000, &H00666666,   -1,      0,         0,         0,    100,    100,       0,     0,           1,       3,      0,         2,      10,      10,      10,        1
";

/// The `[V4+ Styles]` block: the format row and two style rows (an upper
/// and a lower alignment variant) carrying the same two colors.
pub open spec fn styles_header_spec(st: AssSubtitleStyleV) -> Seq<char> {
    ASS_STYLES_FORMAT@ + st.primary_color + ASS_STYLES_MID@ + st.secondary_color
        + ASS_STYLES_ROW1_END@ + st.primary_color + ASS_STYLES_MID@ + st.secondary_color
        + ASS_STYLES_ROW2_END@
}

/// Renders the style block for the given ASS-encoded style.
pub fn get_ass_styles_header(style: &AssSubtitleStyle) -> (r: String)
    ensures
        r@ == styles_header_spec(style@),
{
    let mut r = ASS_STYLES_FORMAT.to_owned();
    r.append(style.primary_color.as_str());
    r.append(ASS_STYLES_MID);
    r.append(style.secondary_color.as_str());
    r.append(ASS_STYLES_ROW1_END);
    r.append(style.primary_color.as_str());
    r.append(ASS_STYLES_MID);
    r.append(style.secondary_color.as_str());
    r.append(ASS_STYLES_ROW2_END);
    proof {
        assert(r@ =~= styles_header_spec(style@));
    }
    r
}

/// One karaoke tag: the highlight duration in centiseconds and the literal
/// text, in the plain `\k` form below the long-segment threshold, else in
/// the `\2c`/`\K` form that overrides the highlight color with the
/// long-segment color and restores it after the text.
pub open spec fn fmt_seg(duration: int, text: Seq<char>, st: AssSubtitleStyleV) -> Seq<char> {
    let cs = dec_str(duration / 10);
    if duration < LONG_KARAOKE_SEGMENT_MS {
        ("{\\k")@ + cs + ("}")@ + text
    } else {
        ("{\\2c")@ + st.long_text_secondary_color + ("\\K")@ + cs + ("}")@ + text + ("{\\2c}")@
    }
}

/// Renders one karaoke tag for a segment of the given duration and text.
pub fn format_text_duration(duration: u64, text: &str, style: &AssSubtitleStyle) -> (r: String)
    ensures
        r@ == fmt_seg(duration as int, text@, style@),
{
    let cs = u64_to_string(duration / 10);
    if duration < LONG_KARAOKE_SEGMENT_MS {
        let mut r = "{\\k".to_owned();
        r.append(cs.as_str());
        r.append("}");
        r.append(text);
        proof {
            assert(r@ =~= fmt_seg(duration as int, text@, style@));
        }
        r
    } else {
        let mut r = "{\\2c".to_owned();
        r.append(style.long_text_secondary_color.as_str());
        r.append("\\K");
        r.append(cs.as_str());
        r.append("}");
        r.append(text);
        r.append("{\\2c}");
        proof {
            assert(r@ =~= fmt_seg(duration as int, text@, style@));
        }
        r
    }
}

/// The `MM:SS.cc` rendering of a duration: minutes zero-padded to two
/// digits (more digits from 100 minutes on), then two-digit seconds and
/// centiseconds.
pub open spec fn fmt_duration(ms: int) -> Seq<char> {
    let cs = ms / 10;
    let m = cs / 6000;
    let s = (cs / 100) % 60;
    let c = cs % 100;
    (if m < 100 {
        seq![digit_char(m / 10), digit_char(m % 10)]
    } else {
        dec_str(m)
    }) + (":")@ + seq![digit_char(s / 10), digit_char(s % 10)] + (".")@ + seq![
        digit_char(c / 10),
        digit_char(c % 10),
    ]
}

/// Renders a duration as `MM:SS.cc`.
pub fn format_duration(ms: u64) -> (r: String)
    ensures
        r@ == fmt_duration(ms as int),
{
    let cs = ms / 10;
    let m = cs / 6000;
    let s = (cs / 100) % 60;
    let c = cs % 100;
    let mut r = if m < 100 {
        let mut x = String::new();
        append_two_digits(&mut x, m);
        x
    } else {
        u64_to_string(m)
    };
    r.append(":");
    append_two_digits(&mut r, s);
    r.append(".");
    append_two_digits(&mut r, c);
    proof {
        assert(r@ =~= fmt_duration(ms as int));
    }
    r
}

/// The lead-in before line `i`: the gap back to the end of the line two
/// positions earlier when that one ended within the last two seconds,
/// otherwise the line's own start; clamped to at most two seconds.
pub open spec fn lead_in_ms(ks: Seq<KaraokeLineV>, i: int) -> int {
    let first_min = if i < 2 || ks[i].line_start - DEFAULT_PREDISPLAY_DURATION_MS > ks[i
        - 2].line_end {
        ks[i].line_start as int
    } else {
        ks[i].line_start - ks[i - 2].line_end
    };
    if first_min < DEFAULT_PREDISPLAY_DURATION_MS {
        first_min
    } else {
        DEFAULT_PREDISPLAY_DURATION_MS as int
    }
}

/// The concatenated karaoke tags of the first `n` segments.
pub open spec fn segs_text(segs: Seq<KaraokeLineSegmentV>, st: AssSubtitleStyleV, n: int) -> Seq<
    char,
>
    decreases n,
{
    if n <= 0 {
        Seq::empty()
    } else {
        segs_text(segs, st, n - 1) + fmt_seg(segs[n - 1].duration as int, segs[n - 1].text, st)
    }
}

/// One rendered `Dialogue` event row: the line shown from its start minus
/// the lead-in until its end, with the lead-in tag (placeholder text) and
/// then one karaoke tag per segment.
pub open spec fn dialogue_spec(ks: Seq<KaraokeLineV>, i: int, st: AssSubtitleStyleV) -> Seq<
    char,
> {
    let lead = lead_in_ms(ks, i);
    ("Dialogue: 1,0:")@ + fmt_duration(ks[i].line_start - lead) + (",0:")@ + fmt_duration(
        ks[i].line_end as int,
    ) + (",Jap,,0,0,0,,")@ + fmt_seg(lead, ("— ")@, st) + segs_text(
        ks[i].line_segments,
        st,
        ks[i].line_segments.len() as int,
    )
}

/// All rendered lines of the ASS file: the script-info block, the style
/// block, the events header, then one `Dialogue` row per karaoke line.
pub open spec fn ass_lines_spec(ks: Seq<KaraokeLineV>, st: AssSubtitleStyleV) -> Seq<Seq<char>> {
    seq![ASS_SCRIPT_INFO_HEADER@, styles_header_spec(st), ASS_EVENTS_HEADER@] + Seq::new(
        ks.len(),
        |i: int| dialogue_spec(ks, i, st),
    )
}

/// Renders the complete ASS file as one text line per output row.
#[verifier::loop_isolation(false)]
#[verifier::rlimit(60)]
pub fn generate_ass_file(karaoke_lines: Vec<KaraokeLine>, style: &SubtitleStyle) -> (r: Vec<
    String,
>)
    requires
        valid_style(style@),
        klines_ordered(kline_views(karaoke_lines@)),
    ensures
        views_of(r@) == ass_lines_spec(kline_views(karaoke_lines@), ass_style_of(style@)),
{
    let ghost ks = kline_views(karaoke_lines@);
    let ghost stv = ass_style_of(style@);
    let ass_style = AssSubtitleStyle::new(style);
    let mut ass_lines: Vec<String> = Vec::new();
    ass_lines.push(ASS_SCRIPT_INFO_HEADER.to_owned());
    ass_lines.push(get_ass_styles_header(&ass_style));
    ass_lines.push(ASS_EVENTS_HEADER.to_owned());
    let mut i: usize = 0;
    proof {
        assert(views_of(ass_lines@) =~= ass_lines_spec(ks, stv).take(3));
    }
    while i < karaoke_lines.len()
        invariant
            0 <= i <= karaoke_lines@.len(),
            views_of(ass_lines@) == ass_lines_spec(ks, stv).take(3 + i),
        decreases karaoke_lines@.len() - i,
    {
        let kl = &karaoke_lines[i];
        let line_start = kl.line_start;
        let first_min: u64 = if i < 2 {
            line_start
        } else {
            let prev_end = karaoke_lines[i - 2].line_end;
            proof {
                assert(ks[i - 2].line_end <= ks[i as int].line_start);
            }
            if line_start - prev_end > DEFAULT_PREDISPLAY_DURATION_MS {
                line_start
            } else {
                line_start - prev_end
            }
        };
        let predisplay = if first_min < DEFAULT_PREDISPLAY_DURATION_MS {
            first_min
        } else {
            DEFAULT_PREDISPLAY_DURATION_MS
        };
        proof {
            assert(predisplay as int == lead_in_ms(ks, i as int));
            assert(predisplay <= line_start);
        }
        let mut segs_str = format_text_duration(predisplay, "— ", &ass_style);
        let mut j: usize = 0;
        while j < kl.line_segments.len()
            invariant
                0 <= j <= kl.line_segments@.len(),
                segs_str@ == fmt_seg(predisplay as int, ("— ")@, stv) + segs_text(
                    kl@.line_segments,
                    stv,
                    j as int,
                ),
            decreases kl.line_segments@.len() - j,
        {
            let seg = &kl.line_segments[j];
            let seg_str = format_text_duration(seg.duration, seg.text.as_str(), &ass_style);
            segs_str.append(seg_str.as_str());
            j = j + 1;
            proof {
                assert(segs_str@ =~= fmt_seg(predisplay as int, ("— ")@, stv) + segs_text(
                    kl@.line_segments,
                    stv,
                    j as int,
                ));
            }
        }
        let mut row = "Dialogue: 1,0:".to_owned();
        let d1 = format_duration(line_start - predisplay);
        row.append(d1.as_str());
        row.append(",0:");
        let d2 = format_duration(kl.line_end);
        row.append(d2.as_str());
        row.append(",Jap,,0,0,0,,");
        row.append(segs_str.as_str());
        proof {
            assert(row@ =~= dialogue_spec(ks, i as int, stv));
        }
        ass_lines.push(row);
        i = i + 1;
        proof {
            assert(views_of(ass_lines@) =~= ass_lines_spec(ks, stv).take(3 + i));
        }
    }
    proof {
        assert(ass_lines_spec(ks, stv).take(3 + karaoke_lines@.len() as int) =~= ass_lines_spec(
            ks,
            stv,
        ));
    }
    ass_lines
}

/// The first `n` rendered lines joined with newlines.
pub open spec fn join_upto(ls: Seq<Seq<char>>, n: int) -> Seq<char>
    decreases n,
{
    if n <= 0 {
        Seq::empty()
    } else if n == 1 {
        ls[0]
    } else {
        join_upto(ls, n - 1) + ("\n")@ + ls[n - 1]
    }
}

/// All rendered lines joined with newlines.
pub open spec fn join_lines(ls: Seq<Seq<char>>) -> Seq<char> {
    join_upto(ls, ls.len() as int)
}

/// When the conversion succeeds: the document parses, its timed locations
/// are chronologically ordered, and the normalized lyrics have the shape
/// that grouping relies on.
pub open spec fn run_ok_condition(lines: Seq<Seq<char>>) -> bool {
    &&& lrc_file_spec(lines) is Some
    &&& sorted_by_time(lrc_file_spec(lines)->Some_0.timed_texts_lines)
    &&& lyrics_wf(lyrics_of(lrc_file_spec(lines)->Some_0))
}

/// The complete output text for a parsed document and a style.
pub open spec fn run_output_spec(doc: LrcFileV, st: SubtitleStyleV) -> Seq<char> {
    join_lines(ass_lines_spec(karaoke_lines_of(lyrics_of(doc)), ass_style_of(st)))
}

/// Converts raw LRC lines into the complete ASS subtitle text: parse,
/// normalize, group into karaoke lines, render, and join with newlines.
/// Malformed input is reported as an error.
#[verifier::loop_isolation(false)]
pub fn run(text_lines: &Vec<String>, style: &SubtitleStyle) -> (r: Result<String, String>)
    requires
        valid_style(style@),
    ensures
        r is Ok <==> run_ok_condition(views_of(text_lines@)),
        r is Ok ==> r->Ok_0@ == run_output_spec(
            lrc_file_spec(views_of(text_lines@))->Some_0,
            style@,
        ),
{
    let lrc_file = match parse_lrc_file(text_lines) {
        Ok(f) => f,
        Err(e) => {
            let mut msg = "Parsing lrc file failed: ".to_owned();
            msg.append(e.as_str());
            return Err(msg);
        },
    };
    if !lrc_file.timed_texts_sorted() {
        return Err("Timed locations are not in chronological order".to_owned());
    }
    let lyrics = Lyrics::new(lrc_file);
    if !lyrics.is_well_formed() {
        return Err("Timings do not line up with the lyric lines".to_owned());
    }
    let karaoke_lines = generate_karaoke_lines(&lyrics);
    proof {
        lemma_karaoke_lines_ordered(lyrics@);
    }
    let ass_lines = generate_ass_file(karaoke_lines, style);
    let mut out = String::new();
    let mut i: usize = 0;
    while i < ass_lines.len()
        invariant
            0 <= i <= ass_lines@.len(),
            out@ == join_upto(views_of(ass_lines@), i as int),
        decreases ass_lines@.len() - i,
    {
        if i > 0 {
            out.append("\n");
        }
        out.append(ass_lines[i].as_str());
        i = i + 1;
        proof {
            assert(out@ =~= join_upto(views_of(ass_lines@), i as int));
        }
    }
    Ok(out)
}

/// Law: parsing a well-formed `MM:SS.CC` timestamp literal and formatting
/// the resulting duration recovers the literal's two-digit fields, with
/// `.` as the centisecond divider. A seconds field of 60 or more does not
/// round-trip: formatting carries it into the minutes.
pub proof fn lemma_timestamp_format_round_trip(s: Seq<char>)
    requires
        valid_timestamp(s),
        dval(s[3]) <= 5,
    ensures
        fmt_duration(timestamp_ms(s)) == seq![s[0], s[1], ':', s[3], s[4], '.', s[6], s[7]],
{
    reveal_strlit(":");
    reveal_strlit(".");
    let m = dval(s[0]) * 10 + dval(s[1]);
    let sec = dval(s[3]) * 10 + dval(s[4]);
    let c = dval(s[6]) * 10 + dval(s[7]);
    let cst = (m * 60 + sec) * 100 + c;
    assert(timestamp_ms(s) == cst * 10);
    lemma_fundamental_div_mod_converse(cst * 10, 10, cst, 0);
    lemma_fundamental_div_mod_converse(cst, 6000, m, sec * 100 + c);
    lemma_fundamental_div_mod_converse(cst, 100, m * 60 + sec, c);
    lemma_fundamental_div_mod_converse(m * 60 + sec, 60, m, sec);
    lemma_fundamental_div_mod_converse(m, 10, dval(s[0]), dval(s[1]));
    lemma_fundamental_div_mod_converse(sec, 10, dval(s[3]), dval(s[4]));
    lemma_fundamental_div_mod_converse(c, 10, dval(s[6]), dval(s[7]));
    lemma_digit_char_inverse(s[0]);
    lemma_digit_char_inverse(s[1]);
    lemma_digit_char_inverse(s[3]);
    lemma_digit_char_inverse(s[4]);
    lemma_digit_char_inverse(s[6]);
    lemma_digit_char_inverse(s[7]);
    assert(fmt_duration(timestamp_ms(s)) =~= seq![s[0], s[1], ':', s[3], s[4], '.', s[6], s[7]]);
}

/// The start and end of one karaoke line are the first and last times of
/// its timing run.
#[verifier::rlimit(60)]
proof fn lemma_kline_start_end(l: LyricsV, i: int)
    requires
        lyrics_wf(l),
        0 <= i < l.lines.len(),
    ensures
        cut(l.timings, i) < cut(l.timings, i + 1) <= l.timings.len(),
        0 <= cut(l.timings, i),
        karaoke_lines_of(l)[i].line_start == l.timings[cut(l.timings, i)].time,
        karaoke_lines_of(l)[i].line_end == l.timings[cut(l.timings, i + 1) - 1].time,
{
    lemma_group_bounds(l, i);
    let t = l.timings;
    let g = t.subrange(cut(t, i), cut(t, i + 1));
    assert(g[0] == t[cut(t, i)]);
    assert(g[g.len() - 1] == t[cut(t, i + 1) - 1]);
    assert(karaoke_lines_of(l)[i] == karaoke_line_of(g, l.lines[i]));
}

/// The karaoke lines of well-formed lyrics come out in chronological
/// order.
pub proof fn lemma_karaoke_lines_ordered(l: LyricsV)
    requires
        lyrics_wf(l),
    ensures
        klines_ordered(karaoke_lines_of(l)),
{
    let ks = karaoke_lines_of(l);
    let t = l.timings;
    assert forall|i: int| 0 <= i < ks.len() implies #[trigger] ks[i].line_start
        <= ks[i].line_end by {
        lemma_kline_start_end(l, i);
        lemma_timing_times_monotone(t, cut(t, i), cut(t, i + 1) - 1);
    }
    assert forall|i: int, j: int|
        #![trigger ks[i], ks[j]]
        0 <= i < j < ks.len() implies ks[i].line_end <= ks[j].line_start by {
        lemma_kline_start_end(l, i);
        lemma_kline_start_end(l, j);
        lemma_cut_monotone(t, i + 1, j);
        lemma_timing_times_monotone(t, cut(t, i + 1) - 1, cut(t, j));
    }
}

} // verus!
