//! Character-sequence utilities shared by the parsing and rendering stages:
//! locating separator characters, splitting on a separator, and rendering
//! decimal numbers as text.

use vstd::prelude::*;
use vstd::string::StrSliceExecFns;
use vstd::string::StringExecFns;

verus! {

/// Index of the first occurrence of `c` in `s`, or `s.len()` if `c` does not occur.
pub open spec fn first_ix(s: Seq<char>, c: char) -> int
    decreases s.len(),
{
    if s.len() == 0 {
        0
    } else if s[0] == c {
        0
    } else {
        1 + first_ix(s.drop_first(), c)
    }
}

pub proof fn lemma_first_ix_bounds(s: Seq<char>, c: char)
    ensures
        0 <= first_ix(s, c) <= s.len(),
        forall|i: int| 0 <= i < first_ix(s, c) ==> s[i] != c,
        first_ix(s, c) < s.len() ==> s[first_ix(s, c)] == c,
    decreases s.len(),
{
    if s.len() > 0 && s[0] != c {
        lemma_first_ix_bounds(s.drop_first(), c);
        assert forall|i: int| 0 <= i < first_ix(s, c) implies s[i] != c by {
            if i > 0 {
                assert(s.drop_first()[i - 1] != c);
            }
        }
    }
}

pub proof fn lemma_first_ix_at(s: Seq<char>, c: char, m: int)
    requires
        0 <= m <= s.len(),
        forall|i: int| 0 <= i < m ==> s[i] != c,
        m < s.len() ==> s[m] == c,
    ensures
        first_ix(s, c) == m,
    decreases s.len(),
{
    if s.len() > 0 && s[0] != c {
        assert(m != 0);
        assert forall|i: int| 0 <= i < m - 1 implies s.drop_first()[i] != c by {
            assert(s[i + 1] != c);
        }
        lemma_first_ix_at(s.drop_first(), c, m - 1);
    }
}

/// The segments of `s` between occurrences of the separator `c`,
/// in order; `s` with no separator yields one segment.
pub open spec fn split_on(s: Seq<char>, c: char) -> Seq<Seq<char>>
    decreases s.len() via split_on_dec
{
    if first_ix(s, c) == s.len() {
        seq![s]
    } else {
        seq![s.take(first_ix(s, c))] + split_on(s.skip(first_ix(s, c) + 1), c)
    }
}

#[via_fn]
proof fn split_on_dec(s: Seq<char>, c: char) {
    lemma_first_ix_bounds(s, c);
}

/// Position of the first occurrence of `c` in `s`, or the character length
/// of `s` if `c` does not occur.
pub fn find_char(s: &str, c: char) -> (r: usize)
    ensures
        r == first_ix(s@, c),
{
    let n = s.unicode_len();
    let mut i: usize = 0;
    while i < n
        invariant
            n == s@.len(),
            0 <= i <= n,
            forall|j: int| 0 <= j < i ==> s@[j] != c,
        decreases n - i,
    {
        if s.get_char(i) == c {
            proof {
                lemma_first_ix_at(s@, c, i as int);
            }
            return i;
        }
        i = i + 1;
    }
    proof {
        lemma_first_ix_at(s@, c, n as int);
    }
    n
}

/// The half-open character ranges of the segments of `s` between
/// occurrences of `c`, matching `split_on(s@, c)` segment by segment.
pub fn split_ranges(s: &str, c: char) -> (r: Vec<(usize, usize)>)
    ensures
        r@.len() == split_on(s@, c).len(),
        forall|j: int|
            #![trigger r@[j]]
            0 <= j < r@.len() ==> r@[j].0 <= r@[j].1 <= s@.len() && split_on(s@, c)[j]
                == s@.subrange(r@[j].0 as int, r@[j].1 as int),
        forall|j: int| #![trigger r@[j]] 0 <= j < r@.len() - 1 ==> r@[j].1 + 1 == r@[j + 1].0,
        r@.len() > 0,
        r@[0].0 == 0,
        r@[r@.len() - 1].1 == s@.len(),
{
    let n = s.unicode_len();
    let mut r: Vec<(usize, usize)> = Vec::new();
    let mut start: usize = 0;
    let mut i: usize = 0;
    proof {
        assert(s@.skip(0) =~= s@);
        assert(split_on(s@, c) =~= split_on_partial(s@, c, r@, 0));
    }
    while i < n
        invariant
            n == s@.len(),
            0 <= start <= i <= n,
            forall|j: int| start <= j < i ==> s@[j] != c,
            split_on(s@, c) == split_on_partial(s@, c, r@, start as int),
            forall|j: int|
                #![trigger r@[j]]
                0 <= j < r@.len() ==> r@[j].0 <= r@[j].1 < s@.len() && split_on(s@, c)[j]
                    == s@.subrange(r@[j].0 as int, r@[j].1 as int),
            forall|j: int| #![trigger r@[j]] 0 <= j < r@.len() - 1 ==> r@[j].1 + 1 == r@[j + 1].0,
            r@.len() > 0 ==> r@[0].0 == 0,
            r@.len() > 0 ==> r@[r@.len() - 1].1 + 1 == start,
            r@.len() == 0 ==> start == 0,
        decreases n - i,
    {
        if s.get_char(i) == c {
            proof {
                lemma_split_ranges_step(s@, c, r@, start as int, i as int);
            }
            r.push((start, i));
            start = i + 1;
        }
        i = i + 1;
    }
    proof {
        lemma_split_ranges_finish(s@, c, r@, start as int);
    }
    r.push((start, n));
    r
}

/// The full split of `s` on `c` is the ranges already found, followed by
/// the split of the suffix beginning at `start`.
pub open spec fn split_on_partial(
    s: Seq<char>,
    c: char,
    found: Seq<(usize, usize)>,
    start: int,
) -> Seq<Seq<char>> {
    Seq::new(found.len(), |j: int| s.subrange(found[j].0 as int, found[j].1 as int)) + split_on(
        s.skip(start),
        c,
    )
}

proof fn lemma_split_ranges_step(
    s: Seq<char>,
    c: char,
    found: Seq<(usize, usize)>,
    start: int,
    i: int,
)
    requires
        0 <= start <= i < s.len(),
        i <= usize::MAX,
        forall|j: int| start <= j < i ==> s[j] != c,
        s[i] == c,
        split_on(s, c) == split_on_partial(s, c, found, start),
    ensures
        split_on(s, c) == split_on_partial(s, c, found.push((start as usize, i as usize)), i + 1),
        split_on(s, c)[found.len() as int] == s.subrange(start, i),
{
    let suf = s.skip(start);
    assert forall|j: int| 0 <= j < i - start implies suf[j] != c by {
        assert(s[start + j] != c);
    }
    lemma_first_ix_at(suf, c, i - start);
    // unfold split_on(suf, c): separator found inside
    assert(split_on(suf, c) == seq![suf.take(i - start)] + split_on(suf.skip(i - start + 1), c));
    assert(suf.take(i - start) =~= s.subrange(start, i));
    assert(suf.skip(i - start + 1) =~= s.skip(i + 1));
    assert(split_on(s, c) =~= split_on_partial(s, c, found.push((start as usize, i as usize)), i + 1));
    assert(split_on(s, c)[found.len() as int] == s.subrange(start, i));
}

proof fn lemma_split_ranges_finish(s: Seq<char>, c: char, found: Seq<(usize, usize)>, start: int)
    requires
        0 <= start <= s.len(),
        forall|j: int| start <= j < s.len() ==> s[j] != c,
        split_on(s, c) == split_on_partial(s, c, found, start),
    ensures
        split_on(s, c) =~= Seq::new(
            found.len(),
            |j: int| s.subrange(found[j].0 as int, found[j].1 as int),
        ).push(s.subrange(start, s.len() as int)),
{
    let suf = s.skip(start);
    assert forall|j: int| 0 <= j < suf.len() implies suf[j] != c by {
        assert(s[start + j] != c);
    }
    lemma_first_ix_at(suf, c, suf.len() as int);
    assert(split_on(suf, c) == seq![suf]);
    assert(suf =~= s.subrange(start, s.len() as int));
}

/// The decimal digit character for `d` in `0..10`.
pub open spec fn digit_char(d: int) -> char {
    if d == 0 {
        '0'
    } else if d == 1 {
        '1'
    } else if d == 2 {
        '2'
    } else if d == 3 {
        '3'
    } else if d == 4 {
        '4'
    } else if d == 5 {
        '5'
    } else if d == 6 {
        '6'
    } else if d == 7 {
        '7'
    } else if d == 8 {
        '8'
    } else {
        '9'
    }
}

/// The decimal digits of `n`, most significant first, with no leading zero
/// except for `n == 0` itself.
pub open spec fn dec_str(n: int) -> Seq<char>
    decreases n,
{
    if n < 10 {
        seq![digit_char(n)]
    } else {
        dec_str(n / 10).push(digit_char(n % 10))
    }
}

/// A one-character string slice holding the decimal digit `d`.
pub fn digit_str(d: u64) -> (r: &'static str)
    requires
        d < 10,
    ensures
        r@ =~= seq![digit_char(d as int)],
{
    if d == 0 {
        let r = "0";
        proof {
            reveal_strlit("0");
        }
        r
    } else if d == 1 {
        let r = "1";
        proof {
            reveal_strlit("1");
        }
        r
    } else if d == 2 {
        let r = "2";
        proof {
            reveal_strlit("2");
        }
        r
    } else if d == 3 {
        let r = "3";
        proof {
            reveal_strlit("3");
        }
        r
    } else if d == 4 {
        let r = "4";
        proof {
            reveal_strlit("4");
        }
        r
    } else if d == 5 {
        let r = "5";
        proof {
            reveal_strlit("5");
        }
        r
    } else if d == 6 {
        let r = "6";
        proof {
            reveal_strlit("6");
        }
        r
    } else if d == 7 {
        let r = "7";
        proof {
            reveal_strlit("7");
        }
        r
    } else if d == 8 {
        let r = "8";
        proof {
            reveal_strlit("8");
        }
        r
    } else {
        let r = "9";
        proof {
            reveal_strlit("9");
        }
        r
    }
}

/// Renders `n` in decimal.
pub fn u64_to_string(n: u64) -> (r: String)
    ensures
        r@ == dec_str(n as int),
    decreases n,
{
    if n < 10 {
        digit_str(n).to_owned()
    } else {
        let mut r = u64_to_string(n / 10);
        r.append(digit_str(n % 10));
        proof {
            assert(r@ =~= dec_str(n as int));
        }
        r
    }
}

/// The decimal rendering of a possibly negative integer.
pub open spec fn i64_dec_str(v: int) -> Seq<char> {
    if v < 0 {
        seq!['-'] + dec_str(-v)
    } else {
        dec_str(v)
    }
}

/// Renders `v` in decimal, with a leading `-` when negative.
pub fn i64_to_string(v: i64) -> (r: String)
    ensures
        r@ == i64_dec_str(v as int),
{
    if v >= 0 {
        u64_to_string(v as u64)
    } else {
        let mag = ((-(v + 1)) as u64) + 1;
        let mut r = "-".to_owned();
        proof {
            reveal_strlit("-");
            assert(r@ =~= seq!['-']);
        }
        let m = u64_to_string(mag);
        r.append(m.as_str());
        proof {
            assert(r@ =~= i64_dec_str(v as int));
        }
        r
    }
}

/// Appends `v` as exactly two decimal digits (zero-padded).
pub fn append_two_digits(r: &mut String, v: u64)
    requires
        v < 100,
    ensures
        final(r)@ == old(r)@ + seq![digit_char(v as int / 10), digit_char(v as int % 10)],
{
    r.append(digit_str(v / 10));
    r.append(digit_str(v % 10));
    proof {
        assert(r@ =~= old(r)@ + seq![digit_char(v as int / 10), digit_char(v as int % 10)]);
    }
}

/// The views of a sequence of strings.
pub open spec fn views_of(ss: Seq<String>) -> Seq<Seq<char>> {
    Seq::new(ss.len(), |i: int| ss[i]@)
}

/// Whether `c` is a decimal digit.
pub open spec fn is_digit(c: char) -> bool {
    48 <= c as int <= 57
}

/// The numeric value of the decimal digit `c`.
pub open spec fn dval(c: char) -> int {
    c as int - 48
}

pub proof fn lemma_digit_char_inverse(c: char)
    requires
        is_digit(c),
    ensures
        digit_char(dval(c)) == c,
{
    if dval(c) == 0 {
        assert(c == '0');
    } else if dval(c) == 1 {
        assert(c == '1');
    } else if dval(c) == 2 {
        assert(c == '2');
    } else if dval(c) == 3 {
        assert(c == '3');
    } else if dval(c) == 4 {
        assert(c == '4');
    } else if dval(c) == 5 {
        assert(c == '5');
    } else if dval(c) == 6 {
        assert(c == '6');
    } else if dval(c) == 7 {
        assert(c == '7');
    } else if dval(c) == 8 {
        assert(c == '8');
    } else {
        assert(c == '9');
    }
}

pub open spec fn all_digits(s: Seq<char>) -> bool {
    forall|i: int| 0 <= i < s.len() ==> is_digit(#[trigger] s[i])
}

/// The number denoted by a sequence of decimal digits, most significant first.
pub open spec fn digits_val(s: Seq<char>) -> int
    decreases s.len(),
{
    if s.len() == 0 {
        0
    } else {
        digits_val(s.drop_last()) * 10 + dval(s.last())
    }
}

/// A digit string is worth at least as much as any of its prefixes.
pub proof fn lemma_digits_val_prefix(s: Seq<char>, k: int)
    requires
        all_digits(s),
        0 <= k <= s.len(),
    ensures
        digits_val(s) >= 0,
        digits_val(s.take(k)) <= digits_val(s),
    decreases s.len(),
{
    if s.len() == 0 {
        assert(s.take(k) =~= s);
    } else if k == s.len() {
        assert(s.take(k) =~= s);
        lemma_digits_val_prefix(s.drop_last(), s.len() - 1);
    } else {
        assert(all_digits(s.drop_last()));
        lemma_digits_val_prefix(s.drop_last(), k);
        assert(s.take(k) =~= s.drop_last().take(k));
        assert(digits_val(s.drop_last()) * 10 >= digits_val(s.drop_last()));
    }
}

/// The value parsed from `s` as a signed 64-bit integer: an optional sign
/// followed by one or more decimal digits, denoting a value in range.
pub open spec fn parse_i64_spec(s: Seq<char>) -> Option<i64> {
    let neg = s.len() > 0 && s[0] == '-';
    let ds = if s.len() > 0 && (s[0] == '-' || s[0] == '+') {
        s.drop_first()
    } else {
        s
    };
    if ds.len() == 0 || !all_digits(ds) {
        None
    } else {
        let v = if neg {
            -digits_val(ds)
        } else {
            digits_val(ds)
        };
        if i64::MIN <= v <= i64::MAX {
            Some(v as i64)
        } else {
            None
        }
    }
}

/// Parses `s` as a signed 64-bit decimal integer.
pub fn parse_i64(s: &str) -> (r: Option<i64>)
    ensures
        r == parse_i64_spec(s@),
{
    let n = s.unicode_len();
    if n == 0 {
        return None;
    }
    let c0 = s.get_char(0);
    let neg = c0 == '-';
    let start: usize = if c0 == '-' || c0 == '+' {
        1
    } else {
        0
    };
    let ghost ds = if s@[0] == '-' || s@[0] == '+' {
        s@.drop_first()
    } else {
        s@
    };
    proof {
        assert(ds =~= s@.skip(start as int));
    }
    if n == start {
        return None;
    }
    let mut mag: u64 = 0;
    let mut i: usize = start;
    proof {
        assert(s@.subrange(start as int, start as int) =~= Seq::<char>::empty());
    }
    while i < n
        invariant
            n == s@.len(),
            start <= i <= n,
            n > start,
            start == if s@[0] == '-' || s@[0] == '+' {
                1int
            } else {
                0int
            },
            neg == (s@[0] == '-'),
            ds == s@.skip(start as int),
            forall|j: int| start <= j < i ==> is_digit(#[trigger] s@[j]),
            mag == digits_val(s@.subrange(start as int, i as int)),
        decreases n - i,
    {
        let c = s.get_char(i);
        let u = c as u32;
        if u < 48 || u > 57 {
            proof {
                assert(s@.drop_first() =~= s@.skip(1));
                assert(ds[i as int - start as int] == s@[i as int]);
                assert(!all_digits(ds));
            }
            return None;
        }
        let d = (u - 48) as u64;
        proof {
            assert(s@.subrange(start as int, i + 1).drop_last() =~= s@.subrange(
                start as int,
                i as int,
            ));
            assert(digits_val(s@.subrange(start as int, i + 1)) == mag * 10 + d);
        }
        let m10_opt = mag.checked_mul(10);
        let ghost pre = s@.subrange(start as int, i + 1);
        if m10_opt.is_none() {
            proof {
                lemma_parse_overflow(s@, ds, start as int, i as int, mag * 10 + d);
            }
            return None;
        }
        let m_opt = m10_opt.unwrap().checked_add(d);
        if m_opt.is_none() {
            proof {
                lemma_parse_overflow(s@, ds, start as int, i as int, mag * 10 + d);
            }
            return None;
        }
        mag = m_opt.unwrap();
        i = i + 1;
    }
    proof {
        assert(s@.drop_first() =~= s@.skip(1));
        assert(s@.subrange(start as int, n as int) =~= ds);
        assert(all_digits(ds));
    }
    if neg {
        if mag <= 9223372036854775807u64 {
            Some(-(mag as i64))
        } else if mag == 9223372036854775808u64 {
            Some(i64::MIN)
        } else {
            None
        }
    } else {
        if mag <= 9223372036854775807u64 {
            Some(mag as i64)
        } else {
            None
        }
    }
}

/// If the digits read so far already exceed `u64::MAX`, the parse is out of
/// the 64-bit range whatever follows.
proof fn lemma_parse_overflow(s: Seq<char>, ds: Seq<char>, start: int, i: int, big: int)
    requires
        0 <= start <= i < s.len(),
        start == if s.len() > 0 && (s[0] == '-' || s[0] == '+') {
            1int
        } else {
            0int
        },
        ds == s.skip(start),
        forall|j: int| start <= j <= i ==> is_digit(#[trigger] s[j]),
        digits_val(s.subrange(start, i + 1)) == big,
        big > u64::MAX,
    ensures
        parse_i64_spec(s) is None,
{
    assert(s.drop_first() =~= s.skip(1));
    assert(s.skip(0) =~= s);
    if all_digits(ds) {
        lemma_digits_val_prefix(ds, i + 1 - start);
        assert(ds.take(i + 1 - start) =~= s.subrange(start, i + 1));
        assert(digits_val(ds) >= big);
    }
}

} // verus!
