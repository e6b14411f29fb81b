//! Parsing of LRC lyric text: bracketed tags (timestamps and directives),
//! single lines, whole documents, and the normalization of the parsed
//! document into a compact, chronologically ordered timing sequence.

use vstd::prelude::*;
use vstd::string::StrSliceExecFns;
use vstd::string::StringExecFns;

use crate::text::dval;
use crate::text::find_char;
use crate::text::first_ix;
use crate::text::is_digit;
use crate::text::lemma_first_ix_bounds;
use crate::text::parse_i64;
use crate::text::parse_i64_spec;
use crate::text::i64_to_string;
use crate::text::split_on;
use crate::text::split_ranges;
use crate::text::u64_to_string;
use crate::text::views_of;

verus! {

/// One bracketed tag: a timestamp (milliseconds), a cumulative offset
/// directive (signed milliseconds), or an unrecognized, tolerated directive.
#[derive(Clone, Copy, PartialEq, Eq, Structural, Debug)]
pub enum Tag {
    Time(u64),
    Offset(i64),
    Unknown,
}

/// A timestamp paired with the half-open character range `[from, to)` of
/// the text it marks within its source line.
#[derive(Clone, Copy, PartialEq, Eq, Structural, Debug)]
pub struct TimedLocation {
    /// Milliseconds into the song.
    pub time: u64,
    pub source_line_index: usize,
    pub line_char_from_index: usize,
    pub line_char_to_index: usize,
}

/// The accumulated lyric text of one source line.
#[derive(Debug)]
pub struct TextLine {
    pub source_line_index: usize,
    pub text: String,
}

pub ghost struct TextLineV {
    pub source_line_index: nat,
    pub text: Seq<char>,
}

impl View for TextLine {
    type V = TextLineV;

    open spec fn view(&self) -> TextLineV {
        TextLineV { source_line_index: self.source_line_index as nat, text: self.text@ }
    }
}

/// One element produced while parsing a line.
#[derive(Debug)]
pub enum LrcElement {
    TextLine(TextLine),
    TimedLocation(TimedLocation),
    Tag(Tag),
}

pub ghost enum LrcElementV {
    TextLine(TextLineV),
    TimedLocation(TimedLocation),
    Tag(Tag),
}

impl View for LrcElement {
    type V = LrcElementV;

    open spec fn view(&self) -> LrcElementV {
        match self {
            LrcElement::TextLine(t) => LrcElementV::TextLine(t@),
            LrcElement::TimedLocation(l) => LrcElementV::TimedLocation(*l),
            LrcElement::Tag(g) => LrcElementV::Tag(*g),
        }
    }
}

/// The parse result for one file: the lyric-bearing lines (text only) and
/// the timed locations in file order, offsets already applied.
#[derive(Debug)]
pub struct LrcFile {
    pub lines: Vec<TextLine>,
    pub timed_texts_lines: Vec<TimedLocation>,
}

pub ghost struct LrcFileV {
    pub lines: Seq<TextLineV>,
    pub timed_texts_lines: Seq<TimedLocation>,
}

impl View for LrcFile {
    type V = LrcFileV;

    open spec fn view(&self) -> LrcFileV {
        LrcFileV {
            lines: Seq::new(self.lines@.len(), |i: int| self.lines@[i]@),
            timed_texts_lines: self.timed_texts_lines@,
        }
    }
}

/// A well-formed timestamp literal: `MM:SS.CC` or `MM:SS:CC` in the first
/// eight characters (anything after them is ignored).
pub open spec fn valid_timestamp(s: Seq<char>) -> bool {
    s.len() >= 8 && is_digit(s[0]) && is_digit(s[1]) && s[2] == ':' && is_digit(s[3]) && is_digit(
        s[4],
    ) && (s[5] == '.' || s[5] == ':') && is_digit(s[6]) && is_digit(s[7])
}

/// The centisecond count written by the first eight characters of a
/// well-formed timestamp literal.
pub open spec fn timestamp_cs(s: Seq<char>) -> int {
    ((dval(s[0]) * 10 + dval(s[1])) * 60 + (dval(s[3]) * 10 + dval(s[4]))) * 100 + dval(s[6]) * 10
        + dval(s[7])
}

/// The timestamp in milliseconds.
pub open spec fn timestamp_ms(s: Seq<char>) -> int {
    timestamp_cs(s) * 10
}

/// Parses the `MM:SS.CC` / `MM:SS:CC` timestamp literal at the start of
/// `time_str` into milliseconds.
pub fn duration_from_time_string(time_str: &str) -> (r: Result<u64, String>)
    ensures
        valid_timestamp(time_str@) ==> r == Ok::<u64, String>(timestamp_ms(time_str@) as u64),
        !valid_timestamp(time_str@) ==> r is Err,
{
    let n = time_str.unicode_len();
    if n < 8 {
        return Err("Bad timestamp format: too short".to_owned());
    }
    let u0 = time_str.get_char(0) as u32;
    let u1 = time_str.get_char(1) as u32;
    if u0 < 48 || u0 > 57 || u1 < 48 || u1 > 57 {
        return Err("Bad minutes format (".to_owned().concat(
            time_str.substring_char(0, 2),
        ).concat(")"));
    }
    if time_str.get_char(2) != ':' {
        return Err("Bad seconds divider".to_owned());
    }
    let u3 = time_str.get_char(3) as u32;
    let u4 = time_str.get_char(4) as u32;
    if u3 < 48 || u3 > 57 || u4 < 48 || u4 > 57 {
        return Err("Bad seconds format (".to_owned().concat(
            time_str.substring_char(3, 5),
        ).concat(")"));
    }
    let c5 = time_str.get_char(5);
    if c5 != '.' && c5 != ':' {
        return Err("Bad centiseconds divider (".to_owned().concat(
            time_str.substring_char(5, 6),
        ).concat(")"));
    }
    let u6 = time_str.get_char(6) as u32;
    let u7 = time_str.get_char(7) as u32;
    if u6 < 48 || u6 > 57 || u7 < 48 || u7 > 57 {
        return Err("Bad centiseconds format (".to_owned().concat(
            time_str.substring_char(6, 8),
        ).concat(")"));
    }
    let minutes = (u0 - 48) as u64 * 10 + (u1 - 48) as u64;
    let seconds = (u3 - 48) as u64 * 10 + (u4 - 48) as u64;
    let centiseconds = (u6 - 48) as u64 * 10 + (u7 - 48) as u64;
    Ok((((minutes * 60) + seconds) * 100 + centiseconds) * 10)
}

pub open spec fn offset_keyword() -> Seq<char> {
    seq!['o', 'f', 'f', 's', 'e', 't']
}

/// The tag denoted by one bracket's content, or `None` if it is malformed:
/// a timestamp when the content starts with a digit, an offset directive
/// when the part before the first `:` is `offset` (its value read up to the
/// next `:`), and an unrecognized, tolerated directive otherwise.
pub open spec fn tag_of(s: Seq<char>) -> Option<Tag> {
    if s.len() == 0 {
        None
    } else if is_digit(s[0]) {
        if valid_timestamp(s) {
            Some(Tag::Time(timestamp_ms(s) as u64))
        } else {
            None
        }
    } else {
        let k = first_ix(s, ':');
        if s.take(k) == offset_keyword() {
            if k >= s.len() {
                None
            } else {
                let rest = s.skip(k + 1);
                let vs = rest.take(first_ix(rest, ':'));
                match parse_i64_spec(vs) {
                    Some(v) => Some(Tag::Offset(v)),
                    None => None,
                }
            }
        } else {
            Some(Tag::Unknown)
        }
    }
}

/// Parses the content of one bracketed tag.
pub fn parse_tag(tag_content: &str) -> (r: Result<Tag, String>)
    ensures
        tag_of(tag_content@) is Some ==> r == Ok::<Tag, String>(tag_of(tag_content@)->Some_0),
        tag_of(tag_content@) is None ==> r is Err,
{
    let n = tag_content.unicode_len();
    if n == 0 {
        return Err("Tag content must not be empty".to_owned());
    }
    let u0 = tag_content.get_char(0) as u32;
    if u0 >= 48 && u0 <= 57 {
        match duration_from_time_string(tag_content) {
            Ok(ms) => Ok(Tag::Time(ms)),
            Err(e) => Err(e),
        }
    } else {
        let k = find_char(tag_content, ':');
        proof {
            lemma_first_ix_bounds(tag_content@, ':');
        }
        let is_offset = k == 6 && tag_content.get_char(0) == 'o' && tag_content.get_char(1) == 'f'
            && tag_content.get_char(2) == 'f' && tag_content.get_char(3) == 's'
            && tag_content.get_char(4) == 'e' && tag_content.get_char(5) == 't';
        proof {
            if is_offset {
                assert(tag_content@.take(k as int) =~= offset_keyword());
            } else {
                if tag_content@.take(k as int) == offset_keyword() {
                    assert(tag_content@.take(k as int).len() == 6);
                    assert(k == 6);
                    assert(tag_content@.take(6)[0] == 'o');
                    assert(tag_content@.take(6)[1] == 'f');
                    assert(tag_content@.take(6)[2] == 'f');
                    assert(tag_content@.take(6)[3] == 's');
                    assert(tag_content@.take(6)[4] == 'e');
                    assert(tag_content@.take(6)[5] == 't');
                    assert(false);
                }
            }
        }
        if is_offset {
            if k == n {
                return Err("Wrong offset tag format (missing ':'): ".to_owned().concat(
                    tag_content,
                ));
            }
            let rest = tag_content.substring_char(k + 1, n);
            proof {
                assert(rest@ =~= tag_content@.skip(k + 1));
            }
            let m = find_char(rest, ':');
            proof {
                lemma_first_ix_bounds(rest@, ':');
            }
            let vs = rest.substring_char(0, m);
            proof {
                assert(vs@ =~= tag_content@.skip(k + 1).take(first_ix(
                    tag_content@.skip(k + 1),
                    ':',
                )));
            }
            match parse_i64(vs) {
                Some(v) => Ok(Tag::Offset(v)),
                None => Err("Bad offset format (".to_owned().concat(vs).concat(")")),
            }
        } else {
            Ok(Tag::Unknown)
        }
    }
}

/// Accumulated state while scanning the bracketed parts of one line.
pub ghost struct LineAcc {
    pub elems: Seq<LrcElementV>,
    pub text: Seq<char>,
    pub any_text: bool,
    pub cursor: nat,
}

/// The tag body of one `[`-separated part: everything before its first `]`.
pub open spec fn part_tag_body(p: Seq<char>) -> Seq<char> {
    p.take(first_ix(p, ']'))
}

/// Whether the part carries trailing text (it has at least one `]`).
pub open spec fn part_has_text(p: Seq<char>) -> bool {
    first_ix(p, ']') < p.len()
}

/// The trailing text of one part: between its first and second `]`.
pub open spec fn part_text(p: Seq<char>) -> Seq<char> {
    let rest = p.skip(first_ix(p, ']') + 1);
    rest.take(first_ix(rest, ']'))
}

/// One scan step. A timestamp tag emits a timed location covering the
/// part's trailing text and advances the cursor by the text's length; any
/// other tag is emitted as a tag element with the cursor unchanged.
/// Trailing text accumulates into the line's text either way.
pub open spec fn line_step(acc: LineAcc, p: Seq<char>, src: nat) -> Option<LineAcc> {
    match tag_of(part_tag_body(p)) {
        None => None,
        Some(tag) => {
            let t = if part_has_text(p) {
                part_text(p)
            } else {
                Seq::<char>::empty()
            };
            let text2 = acc.text + t;
            let any2 = acc.any_text || part_has_text(p);
            match tag {
                Tag::Time(ms) => Some(
                    LineAcc {
                        elems: acc.elems.push(
                            LrcElementV::TimedLocation(
                                TimedLocation {
                                    time: ms,
                                    source_line_index: src as usize,
                                    line_char_from_index: acc.cursor as usize,
                                    line_char_to_index: (acc.cursor + t.len()) as usize,
                                },
                            ),
                        ),
                        text: text2,
                        any_text: any2,
                        cursor: acc.cursor + t.len(),
                    },
                ),
                _ => Some(
                    LineAcc {
                        elems: acc.elems.push(LrcElementV::Tag(tag)),
                        text: text2,
                        any_text: any2,
                        cursor: acc.cursor,
                    },
                ),
            }
        }
    }
}

/// The scan state after the first `n` parts, or `None` on a malformed tag.
pub open spec fn line_state(parts: Seq<Seq<char>>, src: nat, n: int) -> Option<LineAcc>
    decreases n,
{
    if n <= 0 {
        Some(LineAcc { elems: Seq::empty(), text: Seq::empty(), any_text: false, cursor: 0 })
    } else {
        match line_state(parts, src, n - 1) {
            None => None,
            Some(acc) => line_step(acc, parts[n - 1], src),
        }
    }
}

pub proof fn lemma_line_state_none(parts: Seq<Seq<char>>, src: nat, m: int, n: int)
    requires
        0 <= m <= n,
        line_state(parts, src, m) is None,
    ensures
        line_state(parts, src, n) is None,
    decreases n,
{
    if n > m {
        lemma_line_state_none(parts, src, m, n - 1);
    }
}

/// The elements of one parsed line: an empty line has none; a line not
/// starting with `[` is malformed; otherwise the timed locations and
/// directive tags of its parts in order, then one text-line element
/// carrying the accumulated text if any part had trailing text.
pub open spec fn parse_line_spec(line: Seq<char>, src: nat) -> Option<Seq<LrcElementV>> {
    if line.len() == 0 {
        Some(Seq::empty())
    } else if line[0] != '[' {
        None
    } else {
        let parts = split_on(line, '[').skip(1);
        match line_state(parts, src, parts.len() as int) {
            None => None,
            Some(acc) => Some(
                acc.elems + if acc.any_text {
                    seq![
                        LrcElementV::TextLine(
                            TextLineV { source_line_index: src, text: acc.text },
                        ),
                    ]
                } else {
                    Seq::<LrcElementV>::empty()
                },
            ),
        }
    }
}

/// The views of a sequence of parsed elements.
pub open spec fn elems_view(v: Seq<LrcElement>) -> Seq<LrcElementV> {
    Seq::new(v.len(), |i: int| v[i]@)
}

/// Parses one raw line into its elements.
#[verifier::loop_isolation(false)]
pub fn parse_lrc_line(line: &str, source_line_index: usize) -> (r: Result<Vec<LrcElement>, String>)
    ensures
        r is Ok <==> parse_line_spec(line@, source_line_index as nat) is Some,
        r is Ok ==> elems_view(r->Ok_0@) == parse_line_spec(
            line@,
            source_line_index as nat,
        )->Some_0,
{
    let ghost src = source_line_index as nat;
    let n = line.unicode_len();
    if n == 0 {
        return Ok(Vec::new());
    }
    if line.get_char(0) != '[' {
        return Err("Invalid lrc file format. First character in line: \"".to_owned().concat(
            line.substring_char(0, 1),
        ).concat("\""));
    }
    let ranges = split_ranges(line, '[');
    let ghost parts = split_on(line@, '[').skip(1);
    proof {
        assert(parts.len() == ranges@.len() - 1);
    }
    let mut elems: Vec<LrcElement> = Vec::new();
    let mut text_acc = String::new();
    let mut any_text = false;
    let mut cursor: usize = 0;
    let mut j: usize = 1;
    proof {
        assert(elems_view(elems@) =~= Seq::<LrcElementV>::empty());
    }
    while j < ranges.len()
        invariant
            n == line@.len(),
            ranges@.len() >= 1,
            parts == split_on(line@, '[').skip(1),
            parts.len() == ranges@.len() - 1,
            1 <= j <= ranges@.len(),
            forall|q: int|
                #![trigger ranges@[q]]
                0 <= q < ranges@.len() ==> ranges@[q].0 <= ranges@[q].1 <= line@.len() && split_on(
                    line@,
                    '[',
                )[q] == line@.subrange(ranges@[q].0 as int, ranges@[q].1 as int),
            forall|q: int|
                #![trigger ranges@[q]]
                0 <= q < ranges@.len() - 1 ==> ranges@[q].1 + 1 == ranges@[q + 1].0,
            line_state(parts, src, j - 1) == Some(
                LineAcc {
                    elems: elems_view(elems@),
                    text: text_acc@,
                    any_text: any_text,
                    cursor: cursor as nat,
                },
            ),
            j < ranges@.len() ==> cursor <= ranges@[j as int].0,
            cursor <= n,
        decreases ranges@.len() - j,
    {
        let ghost acc0 = LineAcc {
            elems: elems_view(elems@),
            text: text_acc@,
            any_text: any_text,
            cursor: cursor as nat,
        };
        let ab = ranges[j];
        let a = ab.0;
        let b = ab.1;
        let ghost p = parts[j - 1];
        let part = line.substring_char(a, b);
        proof {
            assert(split_on(line@, '[')[j as int] == line@.subrange(a as int, b as int));
            assert(p == split_on(line@, '[').skip(1)[j - 1]);
            assert(p == part@);
        }
        let part_len = b - a;
        let k = find_char(part, ']');
        proof {
            lemma_first_ix_bounds(part@, ']');
        }
        let tag_str = part.substring_char(0, k);
        proof {
            assert(tag_str@ =~= part_tag_body(p));
        }
        let tag = match parse_tag(tag_str) {
            Ok(t) => t,
            Err(e) => {
                proof {
                    assert(line_step(acc0, parts[j - 1], src) is None);
                    assert(line_state(parts, src, j as int) is None);
                    lemma_line_state_none(parts, src, j as int, parts.len() as int);
                }
                return Err(e);
            },
        };
        let ghost t_spec = if part_has_text(p) {
            part_text(p)
        } else {
            Seq::<char>::empty()
        };
        let mut tlen: usize = 0;
        if k < part_len {
            let rest = part.substring_char(k + 1, part_len);
            proof {
                assert(rest@ =~= p.skip(first_ix(p, ']') + 1));
                lemma_first_ix_bounds(rest@, ']');
            }
            let m2 = find_char(rest, ']');
            let text_str = rest.substring_char(0, m2);
            proof {
                assert(text_str@ =~= part_text(p));
                assert(cursor + m2 <= b);
            }
            text_acc.append(text_str);
            any_text = true;
            tlen = m2;
        } else {
            proof {
                assert(text_acc@ =~= acc0.text + t_spec);
            }
        }
        proof {
            assert(tag_of(part_tag_body(p)) == Some(tag));
            assert(part_has_text(p) == (k < part_len));
            assert(t_spec.len() == tlen);
            assert(src as usize == source_line_index);
            assert(text_acc@ == acc0.text + t_spec);
        }
        match tag {
            Tag::Time(ms) => {
                let tl = TimedLocation {
                    time: ms,
                    source_line_index,
                    line_char_from_index: cursor,
                    line_char_to_index: cursor + tlen,
                };
                elems.push(LrcElement::TimedLocation(tl));
                cursor = cursor + tlen;
                proof {
                    assert(elems_view(elems@) =~= acc0.elems.push(
                        LrcElementV::TimedLocation(tl),
                    ));
                    assert(line_step(acc0, p, src) == Some(
                        LineAcc {
                            elems: elems_view(elems@),
                            text: text_acc@,
                            any_text: any_text,
                            cursor: cursor as nat,
                        },
                    ));
                }
            },
            t => {
                elems.push(LrcElement::Tag(t));
                proof {
                    assert(elems_view(elems@) =~= acc0.elems.push(LrcElementV::Tag(t)));
                    assert(line_step(acc0, p, src) == Some(
                        LineAcc {
                            elems: elems_view(elems@),
                            text: text_acc@,
                            any_text: any_text,
                            cursor: cursor as nat,
                        },
                    ));
                }
            },
        }
        j = j + 1;
        proof {
            assert(line_state(parts, src, j - 1) == Some(
                LineAcc {
                    elems: elems_view(elems@),
                    text: text_acc@,
                    any_text: any_text,
                    cursor: cursor as nat,
                },
            ));
        }
    }
    if any_text {
        elems.push(
            LrcElement::TextLine(TextLine { source_line_index, text: text_acc }),
        );
    }
    proof {
        let spec_r = parse_line_spec(line@, src);
        assert(spec_r is Some);
        assert(elems_view(elems@) =~= spec_r->Some_0);
    }
    Ok(elems)
}

/// Accumulated state while scanning a document's lines.
pub ghost struct DocAcc {
    pub lines: Seq<TextLineV>,
    pub timed: Seq<TimedLocation>,
    pub offset_ms: int,
}

/// Folds one parsed element into the document: text lines are collected;
/// a timed location gets the offset currently in effect added to its time
/// (failing when the result leaves `0..=i64::MAX`); an offset directive
/// replaces the offset in effect for all later timed locations; an
/// unrecognized directive is discarded.
pub open spec fn apply_elem(acc: DocAcc, e: LrcElementV) -> Option<DocAcc> {
    match e {
        LrcElementV::TextLine(t) => Some(
            DocAcc { lines: acc.lines.push(t), timed: acc.timed, offset_ms: acc.offset_ms },
        ),
        LrcElementV::TimedLocation(l) => {
            let t = l.time + acc.offset_ms;
            if 0 <= t <= i64::MAX {
                Some(
                    DocAcc {
                        lines: acc.lines,
                        timed: acc.timed.push(
                            TimedLocation {
                                time: t as u64,
                                source_line_index: l.source_line_index,
                                line_char_from_index: l.line_char_from_index,
                                line_char_to_index: l.line_char_to_index,
                            },
                        ),
                        offset_ms: acc.offset_ms,
                    },
                )
            } else {
                None
            }
        },
        LrcElementV::Tag(Tag::Offset(v)) => Some(
            DocAcc { lines: acc.lines, timed: acc.timed, offset_ms: v as int },
        ),
        LrcElementV::Tag(_) => Some(acc),
    }
}

/// The document state after folding the first `n` elements of one line.
pub open spec fn apply_elems(acc: DocAcc, es: Seq<LrcElementV>, n: int) -> Option<DocAcc>
    decreases n,
{
    if n <= 0 {
        Some(acc)
    } else {
        match apply_elems(acc, es, n - 1) {
            None => None,
            Some(a) => apply_elem(a, es[n - 1]),
        }
    }
}

pub proof fn lemma_apply_elems_none(acc: DocAcc, es: Seq<LrcElementV>, m: int, n: int)
    requires
        0 <= m <= n,
        apply_elems(acc, es, m) is None,
    ensures
        apply_elems(acc, es, n) is None,
    decreases n,
{
    if n > m {
        lemma_apply_elems_none(acc, es, m, n - 1);
    }
}

/// The document state after parsing and folding the first `n` lines.
pub open spec fn doc_state(lines: Seq<Seq<char>>, n: int) -> Option<DocAcc>
    decreases n,
{
    if n <= 0 {
        Some(DocAcc { lines: Seq::empty(), timed: Seq::empty(), offset_ms: 0 })
    } else {
        match doc_state(lines, n - 1) {
            None => None,
            Some(acc) => match parse_line_spec(lines[n - 1], (n - 1) as nat) {
                None => None,
                Some(es) => apply_elems(acc, es, es.len() as int),
            },
        }
    }
}

pub proof fn lemma_doc_state_none(lines: Seq<Seq<char>>, m: int, n: int)
    requires
        0 <= m <= n,
        doc_state(lines, m) is None,
    ensures
        doc_state(lines, n) is None,
    decreases n,
{
    if n > m {
        lemma_doc_state_none(lines, m, n - 1);
    }
}

/// The parsed document for the given raw lines: `None` when a line is
/// malformed or an offset application fails.
pub open spec fn lrc_file_spec(lines: Seq<Seq<char>>) -> Option<LrcFileV> {
    match doc_state(lines, lines.len() as int) {
        None => None,
        Some(acc) => Some(LrcFileV { lines: acc.lines, timed_texts_lines: acc.timed }),
    }
}

/// The views of a sequence of text lines.
pub open spec fn text_line_views(v: Seq<TextLine>) -> Seq<TextLineV> {
    Seq::new(v.len(), |i: int| v[i]@)
}

/// Parses a whole document given as raw text lines, applying the
/// cumulative offset directive to each timed location as encountered.
#[verifier::loop_isolation(false)]
pub fn parse_lrc_file(text_lines: &Vec<String>) -> (r: Result<LrcFile, String>)
    ensures
        r is Ok <==> lrc_file_spec(views_of(text_lines@)) is Some,
        r is Ok ==> r->Ok_0@ == lrc_file_spec(views_of(text_lines@))->Some_0,
{
    let ghost vls = views_of(text_lines@);
    let mut lrc_lines: Vec<TextLine> = Vec::new();
    let mut timed: Vec<TimedLocation> = Vec::new();
    let mut offset_ms: i64 = 0;
    let mut i: usize = 0;
    proof {
        assert(text_line_views(lrc_lines@) =~= Seq::<TextLineV>::empty());
    }
    while i < text_lines.len()
        invariant
            0 <= i <= text_lines@.len(),
            doc_state(vls, i as int) == Some(
                DocAcc {
                    lines: text_line_views(lrc_lines@),
                    timed: timed@,
                    offset_ms: offset_ms as int,
                },
            ),
        decreases text_lines@.len() - i,
    {
        let ghost acc_line = DocAcc {
            lines: text_line_views(lrc_lines@),
            timed: timed@,
            offset_ms: offset_ms as int,
        };
        let line = text_lines[i].as_str();
        proof {
            assert(line@ == vls[i as int]);
        }
        let mut parsed = match parse_lrc_line(line, i) {
            Ok(v) => v,
            Err(e) => {
                proof {
                    assert(doc_state(vls, i + 1) is None);
                    lemma_doc_state_none(vls, i + 1, vls.len() as int);
                }
                return Err(e);
            },
        };
        let ghost es_full = elems_view(parsed@);
        let ghost mut k: int = 0;
        proof {
            assert(elems_view(parsed@) =~= es_full.skip(0));
        }
        while parsed.len() > 0
            invariant
                0 <= k <= es_full.len(),
                elems_view(parsed@) == es_full.skip(k),
                parsed@.len() == es_full.len() - k,
                apply_elems(acc_line, es_full, k) == Some(
                    DocAcc {
                        lines: text_line_views(lrc_lines@),
                        timed: timed@,
                        offset_ms: offset_ms as int,
                    },
                ),
            decreases parsed@.len(),
        {
            let ghost acc_prev = DocAcc {
                lines: text_line_views(lrc_lines@),
                timed: timed@,
                offset_ms: offset_ms as int,
            };
            let ghost before = parsed@;
            let e = parsed.remove(0);
            proof {
                assert(e@ == elems_view(before)[0]);
                assert(e@ == es_full[k]);
                assert forall|q: int| 0 <= q < parsed@.len() implies elems_view(parsed@)[q]
                    == es_full.skip(k + 1)[q] by {
                    assert(parsed@[q] == before[q + 1]);
                    assert(elems_view(before)[q + 1] == es_full.skip(k)[q + 1]);
                }
                assert(elems_view(parsed@) =~= es_full.skip(k + 1));
            }
            match e {
                LrcElement::TextLine(t) => {
                    lrc_lines.push(t);
                    proof {
                        assert(text_line_views(lrc_lines@) =~= acc_prev.lines.push(
                            lrc_lines@[lrc_lines@.len() - 1]@,
                        ));
                    }
                },
                LrcElement::TimedLocation(l) => {
                    let shifted = match l.time.checked_add_signed(offset_ms) {
                        Some(t) => t,
                        None => {
                            proof {
                                assert(apply_elem(acc_prev, es_full[k]) is None);
                                lemma_apply_elems_none(
                                    acc_line,
                                    es_full,
                                    k + 1,
                                    es_full.len() as int,
                                );
                                assert(doc_state(vls, i + 1) is None);
                                lemma_doc_state_none(vls, i + 1, vls.len() as int);
                            }
                            return Err(
                                "Cannot apply offset ".to_owned().concat(
                                    i64_to_string(offset_ms).as_str(),
                                ).concat(" to value ").concat(u64_to_string(l.time).as_str()),
                            );
                        },
                    };
                    if shifted > 9223372036854775807u64 {
                        proof {
                            assert(apply_elem(acc_prev, es_full[k]) is None);
                            lemma_apply_elems_none(acc_line, es_full, k + 1, es_full.len() as int);
                            assert(doc_state(vls, i + 1) is None);
                            lemma_doc_state_none(vls, i + 1, vls.len() as int);
                        }
                        return Err(
                            "Cannot apply offset ".to_owned().concat(
                                i64_to_string(offset_ms).as_str(),
                            ).concat(" to value ").concat(u64_to_string(l.time).as_str()),
                        );
                    }
                    timed.push(
                        TimedLocation {
                            time: shifted,
                            source_line_index: l.source_line_index,
                            line_char_from_index: l.line_char_from_index,
                            line_char_to_index: l.line_char_to_index,
                        },
                    );
                },
                LrcElement::Tag(Tag::Offset(v)) => {
                    offset_ms = v;
                },
                LrcElement::Tag(_) => {},
            }
            proof {
                k = k + 1;
                assert(apply_elem(acc_prev, es_full[k - 1]) == Some(
                    DocAcc {
                        lines: text_line_views(lrc_lines@),
                        timed: timed@,
                        offset_ms: offset_ms as int,
                    },
                ));
            }
        }
        proof {
            assert(es_full.skip(es_full.len() as int) =~= Seq::<LrcElementV>::empty());
            assert(k == es_full.len());
            assert(doc_state(vls, i + 1) == Some(
                DocAcc {
                    lines: text_line_views(lrc_lines@),
                    timed: timed@,
                    offset_ms: offset_ms as int,
                },
            ));
        }
        i = i + 1;
    }
    let r = LrcFile { lines: lrc_lines, timed_texts_lines: timed };
    proof {
        assert(r@.lines =~= lrc_file_spec(vls)->Some_0.lines);
        assert(r@ == lrc_file_spec(vls)->Some_0);
    }
    Ok(r)
}

/// One normalized timing: absolute time, display duration until the next
/// timing in sequence, compacted line index, and the character range into
/// that line's text.
#[derive(Clone, Copy, PartialEq, Eq, Structural, Debug)]
pub struct LyricsTiming {
    /// Milliseconds into the song at which this timing occurs.
    pub time: u64,
    /// Milliseconds until the next timing (zero for the last one).
    pub duration: u64,
    /// Index into the compacted lyric line list.
    pub line_index: usize,
    pub line_char_from_index: usize,
    pub line_char_to_index: usize,
}

/// The normalized document: the compacted lyric line texts (only lines
/// that carry at least one timing, in first-occurrence order) and the full
/// ordered timing sequence including the leading sentinel.
#[derive(Debug)]
pub struct Lyrics {
    pub lines: Vec<String>,
    pub timings: Vec<LyricsTiming>,
}

pub ghost struct LyricsV {
    pub lines: Seq<Seq<char>>,
    pub timings: Seq<LyricsTiming>,
}

impl View for Lyrics {
    type V = LyricsV;

    open spec fn view(&self) -> LyricsV {
        LyricsV { lines: views_of(self.lines@), timings: self.timings@ }
    }
}

/// The distinct source line indices among the first `n` timed locations.
pub open spec fn srcs_set(t: Seq<TimedLocation>, n: int) -> Set<nat>
    decreases n,
{
    if n <= 0 {
        Set::empty()
    } else {
        srcs_set(t, n - 1).insert(t[n - 1].source_line_index as nat)
    }
}

pub proof fn lemma_srcs_set_bounds(t: Seq<TimedLocation>, n: int)
    requires
        0 <= n,
    ensures
        srcs_set(t, n).finite(),
        srcs_set(t, n).len() <= n,
        n > 0 ==> srcs_set(t, n).len() >= 1,
    decreases n,
{
    if n > 0 {
        lemma_srcs_set_bounds(t, n - 1);
    }
}

/// Whether the timed locations are chronologically non-decreasing.
pub open spec fn sorted_by_time(t: Seq<TimedLocation>) -> bool {
    forall|i: int, j: int| 0 <= i <= j < t.len() ==> t[i].time <= t[j].time
}

/// The normalized timing sequence for a non-empty location list: a
/// synthetic sentinel at time zero, then one timing per location. Each
/// timing's duration is the time until the next location (the last one:
/// zero), and its line index is the count of distinct source lines seen up
/// to it, minus one.
pub open spec fn timings_of(t: Seq<TimedLocation>) -> Seq<LyricsTiming> {
    if t.len() == 0 {
        Seq::empty()
    } else {
        Seq::new(
            t.len() + 1,
            |j: int|
                if j == 0 {
                    LyricsTiming {
                        time: 0,
                        duration: t[0].time,
                        line_index: 0,
                        line_char_from_index: 0,
                        line_char_to_index: 0,
                    }
                } else {
                    LyricsTiming {
                        time: t[j - 1].time,
                        duration: if j < t.len() {
                            (t[j].time - t[j - 1].time) as u64
                        } else {
                            0
                        },
                        line_index: (srcs_set(t, j).len() - 1) as usize,
                        line_char_from_index: t[j - 1].line_char_from_index,
                        line_char_to_index: t[j - 1].line_char_to_index,
                    }
                },
        )
    }
}

/// The lyric texts of the lines whose source indices are in `keep`,
/// in their original order.
pub open spec fn kept_lines(lines: Seq<TextLineV>, keep: Set<nat>) -> Seq<Seq<char>>
    decreases lines.len(),
{
    if lines.len() == 0 {
        Seq::empty()
    } else {
        kept_lines(lines.drop_last(), keep) + if keep.contains(lines.last().source_line_index) {
            seq![lines.last().text]
        } else {
            Seq::<Seq<char>>::empty()
        }
    }
}

/// The normalized lyrics of a parsed document: empty when no timed
/// location exists.
pub open spec fn lyrics_of(f: LrcFileV) -> LyricsV {
    if f.timed_texts_lines.len() == 0 {
        LyricsV { lines: Seq::empty(), timings: Seq::empty() }
    } else {
        LyricsV {
            lines: kept_lines(
                f.lines,
                srcs_set(f.timed_texts_lines, f.timed_texts_lines.len() as int),
            ),
            timings: timings_of(f.timed_texts_lines),
        }
    }
}

/// The shape on which karaoke grouping relies: chronologically ordered
/// timings; line indices non-decreasing, starting at zero, growing in
/// steps of at most one and reaching every lyric line; and character
/// ranges that fit their line's text.
pub open spec fn lyrics_wf(l: LyricsV) -> bool {
    &&& timings_adjacent_ok(l.timings)
    &&& (l.timings.len() > 0 ==> l.timings[0].line_index == 0)
    &&& (l.lines.len() > 0 ==> l.timings.len() > 0 && l.lines.len() - 1 <= l.timings[l.timings.len(
    ) - 1].line_index)
    &&& timing_ranges_ok(l.timings, l.lines)
}

pub proof fn lemma_timing_times_monotone(t: Seq<LyricsTiming>, i: int, j: int)
    requires
        forall|q: int| #![trigger t[q]] 0 <= q < t.len() - 1 ==> t[q].time <= t[q + 1].time,
        0 <= i <= j < t.len(),
    ensures
        t[i].time <= t[j].time,
    decreases j - i,
{
    if i < j {
        lemma_timing_times_monotone(t, i, j - 1);
    }
}

pub proof fn lemma_timing_indices_monotone(t: Seq<LyricsTiming>, i: int, j: int)
    requires
        forall|q: int|
            #![trigger t[q]]
            0 <= q < t.len() - 1 ==> t[q].line_index <= t[q + 1].line_index,
        0 <= i <= j < t.len(),
    ensures
        t[i].line_index <= t[j].line_index,
    decreases j - i,
{
    if i < j {
        lemma_timing_indices_monotone(t, i, j - 1);
    }
}

pub proof fn lemma_location_times_monotone(t: Seq<TimedLocation>, i: int, j: int)
    requires
        forall|q: int| #![trigger t[q]] 0 <= q < t.len() - 1 ==> t[q].time <= t[q + 1].time,
        0 <= i <= j < t.len(),
    ensures
        t[i].time <= t[j].time,
    decreases j - i,
{
    if i < j {
        lemma_location_times_monotone(t, i, j - 1);
    }
}

impl LrcFile {
    /// Whether the timed locations are chronologically non-decreasing.
    #[verifier::loop_isolation(false)]
    pub fn timed_texts_sorted(&self) -> (b: bool)
        ensures
            b == sorted_by_time(self@.timed_texts_lines),
    {
        let n = self.timed_texts_lines.len();
        let mut i: usize = 1;
        while i < n
            invariant
                1 <= i <= n || n == 0,
                forall|q: int|
                    #![trigger self@.timed_texts_lines[q]]
                    0 <= q < i - 1 ==> self@.timed_texts_lines[q].time
                        <= self@.timed_texts_lines[q + 1].time,
            decreases n - i,
        {
            if self.timed_texts_lines[i - 1].time > self.timed_texts_lines[i].time {
                return false;
            }
            i = i + 1;
        }
        proof {
            assert forall|a: int, b: int|
                0 <= a <= b < self@.timed_texts_lines.len() implies self@.timed_texts_lines[a].time
                <= self@.timed_texts_lines[b].time by {
                lemma_location_times_monotone(self@.timed_texts_lines, a, b);
            }
        }
        true
    }
}

/// Adjacent timings in order: times and line indices non-decreasing, the
/// line index growing by at most one at a time.
pub open spec fn timings_adjacent_ok(t: Seq<LyricsTiming>) -> bool {
    forall|q: int|
        #![trigger t[q]]
        0 <= q < t.len() - 1 ==> t[q].time <= t[q + 1].time && t[q].line_index <= t[q
            + 1].line_index <= t[q].line_index + 1
}

#[verifier::loop_isolation(false)]
fn check_timings_adjacent(t: &Vec<LyricsTiming>) -> (b: bool)
    ensures
        b == timings_adjacent_ok(t@),
{
    let n = t.len();
    if n < 2 {
        return true;
    }
    let mut i: usize = 0;
    while i < n - 1
        invariant
            0 <= i <= n - 1,
            forall|q: int|
                #![trigger t@[q]]
                0 <= q < i ==> t@[q].time <= t@[q + 1].time && t@[q].line_index <= t@[q
                    + 1].line_index <= t@[q].line_index + 1,
        decreases n - i,
    {
        let a = t[i];
        let b = t[i + 1];
        if a.time > b.time || a.line_index > b.line_index {
            return false;
        }
        if b.line_index > a.line_index && b.line_index - a.line_index > 1 {
            return false;
        }
        i = i + 1;
    }
    true
}

/// Every timing that maps to an existing lyric line has a character range
/// that fits that line's text.
pub open spec fn timing_ranges_ok(t: Seq<LyricsTiming>, lines: Seq<Seq<char>>) -> bool {
    forall|q: int|
        #![trigger t[q]]
        0 <= q < t.len() && t[q].line_index < lines.len() ==> t[q].line_char_from_index
            <= t[q].line_char_to_index <= lines[t[q].line_index as int].len()
}

#[verifier::loop_isolation(false)]
fn check_timing_ranges(t: &Vec<LyricsTiming>, lines: &Vec<String>) -> (b: bool)
    ensures
        b == timing_ranges_ok(t@, views_of(lines@)),
{
    let n = t.len();
    let mut k: usize = 0;
    while k < n
        invariant
            0 <= k <= n,
            forall|q: int|
                #![trigger t@[q]]
                0 <= q < k && t@[q].line_index < lines@.len() ==> t@[q].line_char_from_index
                    <= t@[q].line_char_to_index <= views_of(lines@)[t@[q].line_index as int].len(),
        decreases n - k,
    {
        let tk = t[k];
        if tk.line_index < lines.len() {
            let ll = lines[tk.line_index].as_str().unicode_len();
            if tk.line_char_from_index > tk.line_char_to_index || tk.line_char_to_index > ll {
                return false;
            }
        }
        k = k + 1;
    }
    true
}

impl Lyrics {
    /// Whether the lyrics satisfy the shape that karaoke grouping relies on.
    #[verifier::loop_isolation(false)]
    pub fn is_well_formed(&self) -> (b: bool)
        ensures
            b == lyrics_wf(self@),
    {
        let n = self.timings.len();
        if n > 0 && self.timings[0].line_index != 0 {
            return false;
        }
        if self.lines.len() > 0 {
            if n == 0 {
                return false;
            }
            if self.timings[n - 1].line_index < self.lines.len() - 1 {
                return false;
            }
        }
        if !check_timings_adjacent(&self.timings) {
            return false;
        }
        if !check_timing_ranges(&self.timings, &self.lines) {
            return false;
        }
        true
    }
}

/// Whether `v` holds `x`.
#[verifier::loop_isolation(false)]
fn contains_usize(v: &Vec<usize>, x: usize) -> (b: bool)
    ensures
        b == v@.contains(x),
{
    let mut i: usize = 0;
    while i < v.len()
        invariant
            0 <= i <= v@.len(),
            forall|q: int| 0 <= q < i ==> v@[q] != x,
        decreases v@.len() - i,
    {
        if v[i] == x {
            proof {
                assert(v@[i as int] == x);
            }
            return true;
        }
        i = i + 1;
    }
    false
}

impl Lyrics {
    /// Normalizes a parsed document: prepends the sentinel timing, derives
    /// each timing's display duration and compacted line index, and keeps
    /// only the lyric lines that carry at least one timing.
    #[verifier::loop_isolation(false)]
    pub fn new(lrc_file: LrcFile) -> (r: Lyrics)
        requires
            sorted_by_time(lrc_file@.timed_texts_lines),
        ensures
            r@ == lyrics_of(lrc_file@),
    {
        let ghost fview = lrc_file@;
        let mut file_lines = lrc_file.lines;
        let timed = lrc_file.timed_texts_lines;
        let ghost tseq = timed@;
        let ghost flines = text_line_views(file_lines@);
        let mut timings: Vec<LyricsTiming> = Vec::new();
        let mut seen: Vec<usize> = Vec::new();
        let mut lrc_lines: Vec<String> = Vec::new();
        if timed.len() == 0 {
            let r = Lyrics { lines: lrc_lines, timings };
            proof {
                assert(views_of(r.lines@) =~= Seq::<Seq<char>>::empty());
                assert(r@ == lyrics_of(fview));
            }
            return r;
        }
        timings.push(
            LyricsTiming {
                time: 0,
                duration: timed[0].time,
                line_index: 0,
                line_char_from_index: 0,
                line_char_to_index: 0,
            },
        );
        let mut j: usize = 0;
        while j < timed.len()
            invariant
                0 <= j <= tseq.len(),
                timings@.len() == j + 1,
                forall|q: int|
                    #![trigger timings@[q]]
                    0 <= q <= j ==> timings@[q] == timings_of(tseq)[q],
                forall|x: usize|
                    #![trigger seen@.contains(x)]
                    seen@.contains(x) <==> srcs_set(tseq, j as int).contains(x as nat),
                seen@.len() == srcs_set(tseq, j as int).len(),
            decreases tseq.len() - j,
        {
            let ghost seen_set = srcs_set(tseq, j as int);
            let ghost seen_before = seen@;
            proof {
                lemma_srcs_set_bounds(tseq, j as int);
            }
            let loc = timed[j];
            let already = contains_usize(&seen, loc.source_line_index);
            if !already {
                seen.push(loc.source_line_index);
            }
            proof {
                vstd::set::axiom_set_insert_len(seen_set, loc.source_line_index as nat);
                assert(srcs_set(tseq, j + 1) == seen_set.insert(loc.source_line_index as nat));
                if already {
                    assert(seen_set.contains(loc.source_line_index as nat));
                    assert(seen_set.insert(loc.source_line_index as nat) =~= seen_set);
                } else {
                    assert(!seen_set.contains(loc.source_line_index as nat));
                    assert forall|x: usize| #![trigger seen@.contains(x)]
                        seen@.contains(x) <==> srcs_set(tseq, j + 1).contains(x as nat) by {
                        if seen@.contains(x) {
                            let q = choose|q: int| 0 <= q < seen@.len() && seen@[q] == x;
                            if q < seen@.len() - 1 {
                                assert(seen_before[q] == x);
                                assert(seen_before.contains(x));
                            } else {
                                assert(x == loc.source_line_index);
                            }
                        }
                        if srcs_set(tseq, j + 1).contains(x as nat) {
                            if x == loc.source_line_index {
                                assert(seen@[seen@.len() - 1] == x);
                            } else {
                                assert(seen_set.contains(x as nat));
                                assert(seen_before.contains(x));
                                let q = choose|q: int|
                                    0 <= q < seen_before.len() && seen_before[q] == x;
                                assert(seen@[q] == x);
                            }
                        }
                    }
                }
            }
            let dur: u64 = if j + 1 < timed.len() {
                proof {
                    assert(tseq[j as int].time <= tseq[j + 1].time);
                }
                timed[j + 1].time - timed[j].time
            } else {
                0
            };
            let li = seen.len() - 1;
            timings.push(
                LyricsTiming {
                    time: loc.time,
                    duration: dur,
                    line_index: li,
                    line_char_from_index: loc.line_char_from_index,
                    line_char_to_index: loc.line_char_to_index,
                },
            );
            j = j + 1;
            proof {
                assert(timings@[j as int] == timings_of(tseq)[j as int]);
            }
        }
        let ghost keep = srcs_set(tseq, tseq.len() as int);
        let ghost mut li: int = 0;
        proof {
            assert(text_line_views(file_lines@) =~= flines.skip(0));
            assert(views_of(lrc_lines@) =~= kept_lines(flines.take(0), keep));
        }
        while file_lines.len() > 0
            invariant
                0 <= li <= flines.len(),
                file_lines@.len() == flines.len() - li,
                text_line_views(file_lines@) == flines.skip(li),
                views_of(lrc_lines@) == kept_lines(flines.take(li), keep),
            decreases file_lines@.len(),
        {
            let ghost before = file_lines@;
            let tl = file_lines.remove(0);
            proof {
                assert(tl@ == text_line_views(before)[0]);
                assert(tl@ == flines[li]);
                assert forall|q: int| 0 <= q < file_lines@.len() implies text_line_views(
                    file_lines@,
                )[q] == flines.skip(li + 1)[q] by {
                    assert(file_lines@[q] == before[q + 1]);
                    assert(text_line_views(before)[q + 1] == flines.skip(li)[q + 1]);
                }
                assert(text_line_views(file_lines@) =~= flines.skip(li + 1));
            }
            let is_kept = contains_usize(&seen, tl.source_line_index);
            proof {
                assert(is_kept == keep.contains(tl@.source_line_index));
            }
            if is_kept {
                lrc_lines.push(tl.text);
            }
            proof {
                li = li + 1;
                assert(flines.take(li).drop_last() =~= flines.take(li - 1));
                assert(flines.take(li).last() == flines[li - 1]);
                assert(views_of(lrc_lines@) =~= kept_lines(flines.take(li), keep));
            }
        }
        proof {
            assert(flines.take(flines.len() as int) =~= flines);
        }
        let r = Lyrics { lines: lrc_lines, timings };
        proof {
            assert(r@.timings =~= timings_of(tseq));
            assert(r@ == lyrics_of(fview));
        }
        r
    }
}

} // verus!
