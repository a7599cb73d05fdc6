//! SubRip (`.srt`) caption parsing: finding the caption blocks that contain a word.

use vstd::prelude::*;
use crate::search::CaptionHit;
use crate::text::{
    ascii_lower_code, chars_equal, chars_of, join, join_chars, lowercase, replace_chars,
    spec_eq_ignore_ascii_case, spec_lines, spec_lowercase, spec_replace, spec_split, spec_trim,
    spec_words, split_lines, split_on, split_words, string_of, trim_chars, trim_class, views,
    CharClass,
};

verus! {

/// An ASCII decimal digit.
pub open spec fn is_digit(c: char) -> bool {
    '0' <= c && c <= '9'
}

/// Every character is a decimal digit.
pub open spec fn all_digits(s: Seq<char>) -> bool {
    forall|i: int| 0 <= i < s.len() ==> is_digit(#[trigger] s[i])
}

/// The number written by a string of decimal digits.
pub open spec fn digits_value(s: Seq<char>) -> nat
    decreases s.len(),
{
    if s.len() == 0 {
        0
    } else {
        digits_value(s.drop_last()) * 10 + (s.last() as nat - '0' as nat) as nat
    }
}

/// `s` without one leading `+` or `-` sign.
pub open spec fn unsigned_part(s: Seq<char>) -> Seq<char> {
    if s.len() > 0 && (s[0] == '+' || s[0] == '-') {
        s.drop_first()
    } else {
        s
    }
}

/// `u64::from_str` accepts `s`: an optional `+`, then one or more decimal digits
/// whose value fits in a `u64`.
pub open spec fn is_u64_literal(s: Seq<char>) -> bool {
    let d = if s.len() > 0 && s[0] == '+' {
        s.drop_first()
    } else {
        s
    };
    d.len() > 0 && all_digits(d) && digits_value(d) <= u64::MAX
}

proof fn lemma_digits_value_grows(s: Seq<char>, k: int)
    requires
        0 <= k <= s.len(),
        all_digits(s),
    ensures
        digits_value(s.take(k)) <= digits_value(s),
    decreases s.len() - k,
{
    if k < s.len() {
        lemma_digits_value_grows(s, k + 1);
        assert(s.take(k + 1).drop_last() =~= s.take(k));
        assert(is_digit(s[k]));
    } else {
        assert(s.take(k) =~= s);
    }
}

/// Whether `v[lo..hi]` holds only decimal digits.
fn digits_between(v: &Vec<char>, lo: usize, hi: usize) -> (r: bool)
    requires
        lo <= hi <= v.len(),
    ensures
        r == all_digits(v@.subrange(lo as int, hi as int)),
{
    let mut i: usize = lo;
    while i < hi
        invariant
            lo <= i <= hi <= v.len(),
            forall|m: int| lo <= m < i ==> is_digit(#[trigger] v@[m]),
        decreases hi - i,
    {
        if !('0' <= v[i] && v[i] <= '9') {
            assert(v@.subrange(lo as int, hi as int)[i - lo] == v@[i as int]);
            return false;
        }
        i += 1;
    }
    assert forall|m: int| 0 <= m < hi - lo implies is_digit(
        #[trigger] v@.subrange(lo as int, hi as int)[m],
    ) by {
        assert(v@.subrange(lo as int, hi as int)[m] == v@[lo + m]);
    }
    true
}

/// Whether `u64::from_str` accepts the characters `v`.
pub fn parses_as_u64(v: &Vec<char>) -> (r: bool)
    ensures
        r == is_u64_literal(v@),
{
    let start: usize = if v.len() > 0 && v[0] == '+' {
        1
    } else {
        0
    };
    let ghost d = v@.subrange(start as int, v.len() as int);
    assert(d =~= (if v@.len() > 0 && v@[0] == '+' {
        v@.drop_first()
    } else {
        v@
    }));
    if start == v.len() {
        return false;
    }
    if !digits_between(v, start, v.len()) {
        return false;
    }
    let mut value: u64 = 0;
    let mut i: usize = start;
    while i < v.len()
        invariant
            start <= i <= v.len(),
            d == v@.subrange(start as int, v.len() as int),
            d == (if v@.len() > 0 && v@[0] == '+' {
                v@.drop_first()
            } else {
                v@
            }),
            all_digits(d),
            value as nat == digits_value(d.take(i - start)),
        decreases v.len() - i,
    {
        assert(d.take(i - start + 1).drop_last() =~= d.take(i - start));
        assert(d.take(i - start + 1).last() == v@[i as int]);
        assert(is_digit(d[i - start]));
        let digit: u64 = (v[i] as u32 - '0' as u32) as u64;
        if value > (u64::MAX - digit) / 10 {
            proof {
                assert(digits_value(d.take(i - start + 1)) > u64::MAX) by (nonlinear_arith)
                    requires
                        digits_value(d.take(i - start + 1)) == value * 10 + digit,
                        value > (u64::MAX - digit) / 10,
                        digit <= 9,
                ;
                lemma_digits_value_grows(d, i - start + 1);
            }
            return false;
        }
        value = value * 10 + digit;
        i += 1;
    }
    assert(d.take(d.len() as int) =~= d);
    true
}


/// The digits-and-point part of a decimal float: `Digit+`, `Digit+ '.' Digit*` or
/// `Digit* '.' Digit+`.
pub open spec fn is_mantissa(m: Seq<char>) -> bool {
    ||| (m.len() > 0 && all_digits(m))
    ||| exists|i: int|
        0 <= i < m.len() && #[trigger] m[i] == '.' && all_digits(m.take(i)) && all_digits(
            m.skip(i + 1),
        ) && m.len() > 1
}

/// What follows the `e` of an exponent: `Sign? Digit+`.
pub open spec fn is_exponent(x: Seq<char>) -> bool {
    let d = unsigned_part(x);
    d.len() > 0 && all_digits(d)
}

/// An exponent marker.
pub open spec fn is_e(c: char) -> bool {
    c == 'e' || c == 'E'
}

/// A decimal number: a mantissa, optionally followed by `e` or `E` and an exponent.
pub open spec fn is_decimal_number(s: Seq<char>) -> bool {
    ||| ((forall|i: int| 0 <= i < s.len() ==> !is_e(#[trigger] s[i])) && is_mantissa(s))
    ||| exists|k: int|
        0 <= k < s.len() && #[trigger] is_e(s[k]) && is_mantissa(s.take(k)) && is_exponent(
            s.skip(k + 1),
        )
}

/// `f64::from_str` accepts `s`: an optional sign, then `inf`, `infinity`, `nan`
/// (in any ASCII case) or a decimal number.
pub open spec fn is_float_literal(s: Seq<char>) -> bool {
    let u = unsigned_part(s);
    ||| is_decimal_number(u)
    ||| spec_eq_ignore_ascii_case(u, seq!['i', 'n', 'f'])
    ||| spec_eq_ignore_ascii_case(u, seq!['i', 'n', 'f', 'i', 'n', 'i', 't', 'y'])
    ||| spec_eq_ignore_ascii_case(u, seq!['n', 'a', 'n'])
}

proof fn lemma_no_point_in_digits(m: Seq<char>, i: int, j: int)
    requires
        0 <= j < i <= m.len(),
        all_digits(m.take(i)),
    ensures
        m[j] != '.' && !is_e(m[j]),
{
    assert(m.take(i)[j] == m[j]);
    assert(is_digit(m.take(i)[j]));
}

/// The first index in `v[lo..hi]` holding `c`, or `hi`.
fn first_index_of(v: &Vec<char>, lo: usize, hi: usize, c: char) -> (r: usize)
    requires
        lo <= hi <= v.len(),
    ensures
        lo <= r <= hi,
        r < hi ==> v@[r as int] == c,
        forall|m: int| lo <= m < r ==> v@[m] != c,
{
    let mut i: usize = lo;
    while i < hi && v[i] != c
        invariant
            lo <= i <= hi <= v.len(),
            forall|m: int| lo <= m < i ==> v@[m] != c,
        decreases hi - i,
    {
        i += 1;
    }
    i
}

fn mantissa_between(v: &Vec<char>, lo: usize, hi: usize) -> (r: bool)
    requires
        lo <= hi <= v.len(),
    ensures
        r == is_mantissa(v@.subrange(lo as int, hi as int)),
{
    let ghost m = v@.subrange(lo as int, hi as int);
    let p = first_index_of(v, lo, hi, '.');
    if p == hi {
        let r = hi > lo && digits_between(v, lo, hi);
        proof {
            assert forall|i: int| 0 <= i < m.len() implies #[trigger] m[i] != '.' by {
                assert(m[i] == v@[lo + i]);
            }
        }
        return r;
    }
    let before = digits_between(v, lo, p);
    let after = digits_between(v, p + 1, hi);
    let r = before && after && hi - lo > 1;
    proof {
        let i = p - lo;
        assert(m[i] == '.');
        assert(m.take(i) =~= v@.subrange(lo as int, p as int));
        assert(m.skip(i + 1) =~= v@.subrange(p + 1, hi as int));
        if all_digits(m) {
            assert(is_digit(m[i]));
        }
        if !r {
            assert forall|k: int|
                0 <= k < m.len() && #[trigger] m[k] == '.' && all_digits(m.take(k))
                    && all_digits(m.skip(k + 1)) implies m.len() <= 1 by {
                if k > i {
                    lemma_no_point_in_digits(m, k, i);
                } else if k < i {
                    assert(m[k] == v@[lo + k]);
                }
            }
        }
    }
    r
}

fn exponent_between(v: &Vec<char>, lo: usize, hi: usize) -> (r: bool)
    requires
        lo <= hi <= v.len(),
    ensures
        r == is_exponent(v@.subrange(lo as int, hi as int)),
{
    let start: usize = if lo < hi && (v[lo] == '+' || v[lo] == '-') {
        lo + 1
    } else {
        lo
    };
    assert(unsigned_part(v@.subrange(lo as int, hi as int)) =~= v@.subrange(
        start as int,
        hi as int,
    ));
    start < hi && digits_between(v, start, hi)
}

/// The first index in `v[lo..hi]` holding `e` or `E`, or `hi`.
fn first_e(v: &Vec<char>, lo: usize, hi: usize) -> (r: usize)
    requires
        lo <= hi <= v.len(),
    ensures
        lo <= r <= hi,
        r < hi ==> is_e(v@[r as int]),
        forall|m: int| lo <= m < r ==> !is_e(v@[m]),
{
    let mut i: usize = lo;
    while i < hi && v[i] != 'e' && v[i] != 'E'
        invariant
            lo <= i <= hi <= v.len(),
            forall|m: int| lo <= m < i ==> !is_e(v@[m]),
        decreases hi - i,
    {
        i += 1;
    }
    i
}

fn decimal_between(v: &Vec<char>, lo: usize, hi: usize) -> (r: bool)
    requires
        lo <= hi <= v.len(),
    ensures
        r == is_decimal_number(v@.subrange(lo as int, hi as int)),
{
    let ghost s = v@.subrange(lo as int, hi as int);
    let k = first_e(v, lo, hi);
    if k == hi {
        let r = mantissa_between(v, lo, hi);
        proof {
            assert forall|i: int| 0 <= i < s.len() implies !is_e(#[trigger] s[i]) by {
                assert(s[i] == v@[lo + i]);
            }
        }
        return r;
    }
    let r = mantissa_between(v, lo, k) && exponent_between(v, k + 1, hi);
    proof {
        let i = k - lo;
        assert(s[i] == v@[k as int]);
        assert(s.take(i) =~= v@.subrange(lo as int, k as int));
        assert(s.skip(i + 1) =~= v@.subrange(k + 1, hi as int));
        if !r {
            assert forall|j: int|
                0 <= j < s.len() && #[trigger] is_e(s[j]) && is_mantissa(s.take(j)) implies !is_exponent(
                s.skip(j + 1),
            ) by {
                if j < i {
                    assert(s[j] == v@[lo + j]);
                } else if j > i {
                    let t = s.take(j);
                    assert(t[i] == s[i]);
                    if t.len() > 0 && all_digits(t) {
                        assert(is_digit(t[i]));
                    }
                    if exists|q: int|
                        0 <= q < t.len() && #[trigger] t[q] == '.' && all_digits(t.take(q))
                            && all_digits(t.skip(q + 1)) && t.len() > 1 {
                        let q = choose|q: int|
                            0 <= q < t.len() && #[trigger] t[q] == '.' && all_digits(t.take(q))
                                && all_digits(t.skip(q + 1)) && t.len() > 1;
                        if i < q {
                            assert(t.take(q)[i] == t[i]);
                            assert(is_digit(t.take(q)[i]));
                        } else {
                            assert(t.skip(q + 1)[i - q - 1] == t[i]);
                            assert(is_digit(t.skip(q + 1)[i - q - 1]));
                        }
                    }
                }
            }
        }
    }
    r
}

fn eq_ignore_ascii_case_at(v: &Vec<char>, lo: usize, lit: &Vec<char>) -> (r: bool)
    requires
        lo <= v.len(),
    ensures
        r == spec_eq_ignore_ascii_case(v@.subrange(lo as int, v.len() as int), lit@),
{
    let ghost u = v@.subrange(lo as int, v.len() as int);
    if v.len() - lo != lit.len() {
        return false;
    }
    let mut i: usize = 0;
    while i < lit.len()
        invariant
            lo + lit.len() == v.len(),
            i <= lit.len(),
            u == v@.subrange(lo as int, v.len() as int),
            forall|m: int| 0 <= m < i ==> ascii_lower_code(u[m]) == ascii_lower_code(lit@[m]),
        decreases lit.len() - i,
    {
        let a = v[lo + i];
        let b = lit[i];
        let la: u32 = if 'A' <= a && a <= 'Z' {
            a as u32 + 32
        } else {
            a as u32
        };
        let lb: u32 = if 'A' <= b && b <= 'Z' {
            b as u32 + 32
        } else {
            b as u32
        };
        assert(u[i as int] == a);
        if la != lb {
            return false;
        }
        i += 1;
    }
    true
}

/// Whether `f64::from_str` accepts the characters `v`.
pub fn parses_as_f64(v: &Vec<char>) -> (r: bool)
    ensures
        r == is_float_literal(v@),
{
    let start: usize = if v.len() > 0 && (v[0] == '+' || v[0] == '-') {
        1
    } else {
        0
    };
    assert(unsigned_part(v@) =~= v@.subrange(start as int, v.len() as int));
    let inf: Vec<char> = vec!['i', 'n', 'f'];
    let infinity: Vec<char> = vec!['i', 'n', 'f', 'i', 'n', 'i', 't', 'y'];
    let nan: Vec<char> = vec!['n', 'a', 'n'];
    assert(inf@ =~= seq!['i', 'n', 'f']);
    assert(infinity@ =~= seq!['i', 'n', 'f', 'i', 'n', 'i', 't', 'y']);
    assert(nan@ =~= seq!['n', 'a', 'n']);
    decimal_between(v, start, v.len()) || eq_ignore_ascii_case_at(v, start, &inf)
        || eq_ignore_ascii_case_at(v, start, &infinity) || eq_ignore_ascii_case_at(v, start, &nan)
}


/// A caption clock time `HH:MM:SS,mmm`, held as its hours, minutes and seconds
/// fields (the comma before the milliseconds turned into a point); each field is a
/// literal that `f64::from_str` accepts.
#[derive(Clone, Debug)]
pub struct SrtTime {
    pub hours: String,
    pub minutes: String,
    pub seconds: String,
}

/// The fields of a time, in order.
pub open spec fn time_fields(t: SrtTime) -> Seq<Seq<char>> {
    seq![t.hours@, t.minutes@, t.seconds@]
}

/// The fields of a caption time: with `,` replaced by `.`, the text split on `:`
/// must give exactly three float literals.
pub open spec fn srt_time_fields(s: Seq<char>) -> Option<Seq<Seq<char>>> {
    let parts = spec_split(spec_replace(s, seq![','], seq!['.']), seq![':']);
    if parts.len() == 3 && is_float_literal(parts[0]) && is_float_literal(parts[1])
        && is_float_literal(parts[2]) {
        Some(parts)
    } else {
        None
    }
}

/// Parses a caption time `HH:MM:SS,mmm` or `HH:MM:SS.mmm` into its fields.
pub fn parse_srt_time(s: &Vec<char>) -> (r: Option<SrtTime>)
    ensures
        r is None <==> srt_time_fields(s@) is None,
        r matches Some(t) ==> srt_time_fields(s@) == Some(time_fields(t)),
{
    let comma: Vec<char> = vec![','];
    let point: Vec<char> = vec!['.'];
    let colon: Vec<char> = vec![':'];
    assert(comma@ =~= seq![',']);
    assert(point@ =~= seq!['.']);
    assert(colon@ =~= seq![':']);
    let replaced = replace_chars(s, &comma, &point);
    let parts = split_on(&replaced, &colon);
    if parts.len() != 3 {
        return None;
    }
    assert(views(parts@)[0] == parts@[0]@);
    assert(views(parts@)[1] == parts@[1]@);
    assert(views(parts@)[2] == parts@[2]@);
    if !(parses_as_f64(&parts[0]) && parses_as_f64(&parts[1]) && parses_as_f64(&parts[2])) {
        return None;
    }
    let t = SrtTime {
        hours: string_of(&parts[0]),
        minutes: string_of(&parts[1]),
        seconds: string_of(&parts[2]),
    };
    assert(time_fields(t) =~= views(parts@));
    Some(t)
}

/// The start and end fields of a timing line `start --> end`.
pub open spec fn srt_timestamps(line: Seq<char>) -> Option<(Seq<Seq<char>>, Seq<Seq<char>>)> {
    let parts = spec_split(line, seq!['-', '-', '>']);
    if parts.len() != 2 {
        None
    } else {
        match (srt_time_fields(spec_trim(parts[0])), srt_time_fields(spec_trim(parts[1]))) {
            (Some(a), Some(b)) => Some((a, b)),
            _ => None,
        }
    }
}

/// Parses a timing line like `00:24:51,000 --> 00:24:56,000`.
pub fn parse_srt_timestamps(line: &Vec<char>) -> (r: Option<(SrtTime, SrtTime)>)
    ensures
        r is None <==> srt_timestamps(line@) is None,
        r matches Some((a, b)) ==> srt_timestamps(line@) == Some((time_fields(a), time_fields(b))),
{
    let arrow: Vec<char> = vec!['-', '-', '>'];
    assert(arrow@ =~= seq!['-', '-', '>']);
    let parts = split_on(line, &arrow);
    if parts.len() != 2 {
        return None;
    }
    assert(views(parts@)[0] == parts@[0]@);
    assert(views(parts@)[1] == parts@[1]@);
    let first = trim_chars(&parts[0], CharClass::Whitespace);
    let second = trim_chars(&parts[1], CharClass::Whitespace);
    match parse_srt_time(&first) {
        None => None,
        Some(a) => match parse_srt_time(&second) {
            None => None,
            Some(b) => Some((a, b)),
        },
    }
}

/// A caption hit as the specification sees it: start and end time fields and the
/// caption text.
pub struct HitView {
    pub start: Seq<Seq<char>>,
    pub end: Seq<Seq<char>>,
    pub text: Seq<char>,
}

/// The view of a parsed hit.
pub open spec fn hit_view(h: CaptionHit<SrtTime>) -> HitView {
    HitView { start: time_fields(h.start_secs), end: time_fields(h.end_secs), text: h.text@ }
}

/// The trimmed caption lines at the head of `lines`, up to the first blank one.
pub open spec fn caption_lines(lines: Seq<Seq<char>>) -> Seq<Seq<char>>
    decreases lines.len(),
{
    if lines.len() == 0 || spec_trim(lines[0]).len() == 0 {
        Seq::empty()
    } else {
        seq![spec_trim(lines[0])] + caption_lines(lines.drop_first())
    }
}

/// What remains of `lines` after its caption lines and the blank line ending them.
pub open spec fn after_caption(lines: Seq<Seq<char>>) -> Seq<Seq<char>>
    decreases lines.len(),
{
    if lines.len() == 0 {
        lines
    } else if spec_trim(lines[0]).len() == 0 {
        lines.drop_first()
    } else {
        after_caption(lines.drop_first())
    }
}

/// Skipping a caption never lengthens the remaining lines.
pub proof fn lemma_after_caption_len(lines: Seq<Seq<char>>)
    ensures
        after_caption(lines).len() <= lines.len(),
    decreases lines.len(),
{
    if lines.len() > 0 && spec_trim(lines[0]).len() > 0 {
        lemma_after_caption_len(lines.drop_first());
    }
}

/// Some white-space separated word of the lower-cased caption equals `target` once
/// stripped of leading and trailing non-alphanumeric characters.
pub open spec fn mentions_word(caption: Seq<char>, target: Seq<char>) -> bool {
    let words = spec_words(spec_lowercase(caption));
    exists|i: int|
        0 <= i < words.len() && trim_class(#[trigger] words[i], CharClass::NonAlphanumeric)
            == target
}

/// The first caption block of `lines` (which must not be empty): its hit, when the
/// block is well formed and mentions `target`, and the lines after it.
/// A block is a sequence number that `u64` parsing accepts, a timing line, then the
/// caption lines up to a blank line; blank or non-numeric lines before it are skipped
/// one at a time, and a block whose timing line does not parse is skipped with it.
pub open spec fn first_block(lines: Seq<Seq<char>>, target: Seq<char>) -> (
    Option<HitView>,
    Seq<Seq<char>>,
) {
    let first = spec_trim(lines[0]);
    if first.len() == 0 || !is_u64_literal(first) {
        (None, lines.drop_first())
    } else if lines.len() < 2 {
        (None, Seq::empty())
    } else {
        match srt_timestamps(spec_trim(lines[1])) {
            None => (None, lines.skip(2)),
            Some((a, b)) => {
                let body = lines.skip(2);
                let text = join(caption_lines(body), seq![' ']);
                (
                    if mentions_word(text, target) {
                        Some(HitView { start: a, end: b, text })
                    } else {
                        None
                    },
                    after_caption(body),
                )
            },
        }
    }
}

/// The hits of an optional hit.
pub open spec fn opt_hits(h: Option<HitView>) -> Seq<HitView> {
    match h {
        Some(v) => seq![v],
        None => Seq::empty(),
    }
}

/// The hits of all caption blocks of `lines`, in file order.
pub open spec fn srt_hits(lines: Seq<Seq<char>>, target: Seq<char>) -> Seq<HitView>
    decreases lines.len(),
{
    if lines.len() == 0 {
        Seq::empty()
    } else {
        let (h, rest) = first_block(lines, target);
        proof {
            lemma_after_caption_len(lines.skip(2));
        }
        opt_hits(h) + srt_hits(rest, target)
    }
}


/// Reads the caption lines starting at `lines[start]`; returns them trimmed with
/// the index of the first line after the blank line that ends them.
fn read_caption(lines: &Vec<Vec<char>>, start: usize) -> (r: (Vec<Vec<char>>, usize))
    requires
        start <= lines.len(),
    ensures
        start <= r.1 <= lines.len(),
        views(r.0@) == caption_lines(views(lines@).skip(start as int)),
        views(lines@).skip(r.1 as int) == after_caption(views(lines@).skip(start as int)),
{
    let ghost all = views(lines@);
    let mut cap: Vec<Vec<char>> = Vec::new();
    let mut idx: usize = start;
    let mut done = false;
    assert(views(cap@) + caption_lines(all.skip(start as int)) =~= caption_lines(
        all.skip(start as int),
    ));
    while !done && idx < lines.len()
        invariant
            all == views(lines@),
            start <= idx <= lines.len(),
            !done ==> caption_lines(all.skip(start as int)) == views(cap@) + caption_lines(
                all.skip(idx as int),
            ),
            !done ==> after_caption(all.skip(start as int)) == after_caption(all.skip(idx as int)),
            done ==> caption_lines(all.skip(start as int)) == views(cap@),
            done ==> after_caption(all.skip(start as int)) == all.skip(idx as int),
        decreases lines.len() - idx,
    {
        let ghost rest = all.skip(idx as int);
        assert(rest[0] == lines@[idx as int]@);
        assert(rest.drop_first() =~= all.skip(idx + 1));
        let l = trim_chars(&lines[idx], CharClass::Whitespace);
        idx += 1;
        if l.len() == 0 {
            done = true;
            assert(caption_lines(rest) =~= Seq::<Seq<char>>::empty());
            assert(views(cap@) + Seq::<Seq<char>>::empty() =~= views(cap@));
        } else {
            let ghost before = views(cap@);
            let ghost lv = l@;
            cap.push(l);
            assert(views(cap@) =~= before.push(lv));
            assert(before + (seq![lv] + caption_lines(all.skip(idx as int))) =~= before.push(lv)
                + caption_lines(all.skip(idx as int)));
        }
    }
    if !done {
        assert(all.skip(idx as int) =~= Seq::<Seq<char>>::empty());
        assert(views(cap@) + Seq::<Seq<char>>::empty() =~= views(cap@));
    }
    (cap, idx)
}

/// Whether some word of the lower-cased caption, stripped of non-alphanumeric ends,
/// equals `target`.
fn mentions_word_exec(caption: &Vec<char>, target: &Vec<char>) -> (r: bool)
    ensures
        r == mentions_word(caption@, target@),
{
    let caption_str = string_of(caption);
    let lowered = lowercase(caption_str.as_str());
    let lv = chars_of(lowered.as_str());
    let words = split_words(&lv);
    let ghost ws = spec_words(spec_lowercase(caption@));
    let mut i: usize = 0;
    while i < words.len()
        invariant
            i <= words.len(),
            ws == views(words@),
            ws == spec_words(spec_lowercase(caption@)),
            forall|j: int|
                0 <= j < i ==> trim_class(#[trigger] ws[j], CharClass::NonAlphanumeric) != target@,
        decreases words.len() - i,
    {
        let w = trim_chars(&words[i], CharClass::NonAlphanumeric);
        assert(ws[i as int] == words@[i as int]@);
        if chars_equal(&w, target) {
            assert(trim_class(ws[i as int], CharClass::NonAlphanumeric) == target@);
            return true;
        }
        i += 1;
    }
    false
}

/// The hit of the caption block starting at `lines[idx]`, and the index of the line
/// after the block.
fn parse_block(lines: &Vec<Vec<char>>, idx: usize, target: &Vec<char>) -> (r: (
    Option<CaptionHit<SrtTime>>,
    usize,
))
    requires
        idx < lines.len(),
    ensures
        idx < r.1 <= lines.len(),
        first_block(views(lines@).skip(idx as int), target@) == (
            match r.0 {
                Some(h) => Some(hit_view(h)),
                None => None,
            },
            views(lines@).skip(r.1 as int),
        ),
{
    let ghost all = views(lines@);
    let ghost rest = all.skip(idx as int);
    assert(rest[0] == lines@[idx as int]@);
    let first = trim_chars(&lines[idx], CharClass::Whitespace);
    if first.len() == 0 || !parses_as_u64(&first) {
        assert(rest.drop_first() =~= all.skip(idx + 1));
        return (None, idx + 1);
    }
    if idx + 1 >= lines.len() {
        assert(all.skip(lines.len() as int) =~= Seq::<Seq<char>>::empty());
        return (None, lines.len());
    }
    assert(rest[1] == lines@[idx + 1]@);
    let timing = trim_chars(&lines[idx + 1], CharClass::Whitespace);
    assert(rest.skip(2) =~= all.skip(idx + 2));
    match parse_srt_timestamps(&timing) {
        None => (None, idx + 2),
        Some((a, b)) => {
            let (cap, next) = read_caption(lines, idx + 2);
            let space: Vec<char> = vec![' '];
            assert(space@ =~= seq![' ']);
            let text = join_chars(&cap, &space);
            if mentions_word_exec(&text, target) {
                let hit = CaptionHit { start_secs: a, end_secs: b, text: string_of(&text) };
                (Some(hit), next)
            } else {
                (None, next)
            }
        },
    }
}

/// The hits of all caption blocks of `lines` that mention `target`, in file order.
fn hits_in_order(lines: &Vec<Vec<char>>, target: &Vec<char>) -> (r: Vec<CaptionHit<SrtTime>>)
    ensures
        r@.map_values(|h: CaptionHit<SrtTime>| hit_view(h)) == srt_hits(views(lines@), target@),
{
    let ghost all = views(lines@);
    let mut hits: Vec<CaptionHit<SrtTime>> = Vec::new();
    let mut idx: usize = 0;
    assert(all.skip(0) =~= all);
    assert(hits@.map_values(|h: CaptionHit<SrtTime>| hit_view(h)) + srt_hits(all, target@)
        =~= srt_hits(all, target@));
    while idx < lines.len()
        invariant
            all == views(lines@),
            idx <= lines.len(),
            hits@.map_values(|h: CaptionHit<SrtTime>| hit_view(h)) + srt_hits(
                all.skip(idx as int),
                target@,
            ) == srt_hits(all, target@),
        decreases lines.len() - idx,
    {
        let ghost before = hits@.map_values(|h: CaptionHit<SrtTime>| hit_view(h));
        let (h, next) = parse_block(lines, idx, target);
        match h {
            Some(hit) => {
                let ghost hv = hit_view(hit);
                hits.push(hit);
                assert(hits@.map_values(|h: CaptionHit<SrtTime>| hit_view(h)) =~= before.push(hv));
                assert(before + (seq![hv] + srt_hits(all.skip(next as int), target@)) =~= before.push(
                    hv,
                ) + srt_hits(all.skip(next as int), target@));
            },
            None => {
                assert(before + (Seq::<HitView>::empty() + srt_hits(all.skip(next as int), target@))
                    =~= before + srt_hits(all.skip(next as int), target@));
            },
        }
        idx = next;
    }
    assert(all.skip(idx as int) =~= Seq::<Seq<char>>::empty());
    assert(hits@.map_values(|h: CaptionHit<SrtTime>| hit_view(h)) + Seq::<HitView>::empty()
        =~= hits@.map_values(|h: CaptionHit<SrtTime>| hit_view(h)));
    hits
}


/// The number of white-space separated words of a hit's caption.
pub open spec fn word_count(h: HitView) -> nat {
    spec_words(h.text).len()
}

/// `order` sorts `input` into `out` stably by word count: `out[k]` is
/// `input[order[k]]`, and the pairs (word count, input position) strictly
/// increase along `out` (so `order` is a permutation and equal counts keep their
/// input order).
pub open spec fn is_stable_count_order(input: Seq<HitView>, out: Seq<HitView>, order: Seq<int>) -> bool {
    &&& order.len() == input.len()
    &&& out.len() == input.len()
    &&& forall|k: int|
        0 <= k < out.len() ==> 0 <= #[trigger] order[k] < input.len() && out[k] == input[order[k]]
    &&& forall|k1: int, k2: int|
        0 <= k1 < k2 < out.len() ==> word_count(#[trigger] out[k1]) < word_count(#[trigger] out[k2])
            || (word_count(out[k1]) == word_count(out[k2]) && order[k1] < order[k2])
}

/// `out` is `input` sorted stably by caption word count.
pub open spec fn sorted_by_word_count(input: Seq<HitView>, out: Seq<HitView>) -> bool {
    exists|order: Seq<int>| is_stable_count_order(input, out, order)
}

/// The views of a vector of hits.
pub open spec fn hit_views(hits: Seq<CaptionHit<SrtTime>>) -> Seq<HitView> {
    hits.map_values(|h: CaptionHit<SrtTime>| hit_view(h))
}

fn caption_word_count(h: &CaptionHit<SrtTime>) -> (n: usize)
    ensures
        n == word_count(hit_view(*h)),
{
    let v = chars_of(h.text.as_str());
    split_words(&v).len()
}

/// Sorts hits stably by the number of words in their captions.
fn sort_by_word_count(hits: Vec<CaptionHit<SrtTime>>) -> (r: Vec<CaptionHit<SrtTime>>)
    ensures
        sorted_by_word_count(hit_views(hits@), hit_views(r@)),
{
    let ghost input = hit_views(hits@);
    let mut rest = hits;
    let mut out: Vec<CaptionHit<SrtTime>> = Vec::new();
    let mut keys: Vec<usize> = Vec::new();
    let ghost mut order: Seq<int> = Seq::empty();
    let n = rest.len();
    let mut i: usize = 0;
    while i < n
        invariant
            i <= n == input.len(),
            rest.len() == n - i,
            forall|m: int| 0 <= m < rest.len() ==> hit_view(#[trigger] rest@[m]) == input[m + i],
            out.len() == i,
            keys.len() == i,
            order.len() == i,
            forall|k: int|
                0 <= k < i ==> 0 <= #[trigger] order[k] < i && hit_view(out@[k]) == input[order[k]]
                    && keys@[k] == word_count(input[order[k]]),
            forall|k1: int, k2: int|
                0 <= k1 < k2 < i ==> #[trigger] keys@[k1] < #[trigger] keys@[k2] || (keys@[k1]
                    == keys@[k2] && order[k1] < order[k2]),
        decreases n - i,
    {
        let x = rest.remove(0);
        assert(hit_view(x) == input[i as int]);
        let kx = caption_word_count(&x);
        let mut p: usize = 0;
        while p < keys.len() && keys[p] <= kx
            invariant
                p <= keys.len(),
                forall|k: int| 0 <= k < p ==> keys@[k] <= kx,
            decreases keys.len() - p,
        {
            p += 1;
        }
        let ghost old_keys = keys@;
        let ghost old_order = order;
        let ghost old_out = out@;
        proof {
            assert forall|k: int| p <= k < old_keys.len() implies old_keys[k] > kx by {
                if k > p {
                    assert(old_keys[p as int] < old_keys[k] || old_keys[p as int] == old_keys[k]);
                }
            }
        }
        out.insert(p, x);
        keys.insert(p, kx);
        proof {
            order = old_order.insert(p as int, i as int);
            assert forall|k: int|
                0 <= k < i + 1 implies 0 <= #[trigger] order[k] < i + 1 && hit_view(out@[k])
                == input[order[k]] && keys@[k] == word_count(input[order[k]]) by {
                if k < p {
                    assert(order[k] == old_order[k]);
                } else if k > p {
                    assert(order[k] == old_order[k - 1]);
                }
            }
            assert forall|k1: int, k2: int|
                0 <= k1 < k2 < i + 1 implies #[trigger] keys@[k1] < #[trigger] keys@[k2] || (
                keys@[k1] == keys@[k2] && order[k1] < order[k2]) by {
                if k2 < p {
                    assert(keys@[k1] == old_keys[k1] && keys@[k2] == old_keys[k2]);
                    assert(order[k1] == old_order[k1] && order[k2] == old_order[k2]);
                } else if k2 == p {
                    assert(keys@[k1] == old_keys[k1]);
                    assert(order[k1] == old_order[k1]);
                } else if k1 < p {
                    assert(keys@[k1] == old_keys[k1] && keys@[k2] == old_keys[k2 - 1]);
                    assert(order[k1] == old_order[k1] && order[k2] == old_order[k2 - 1]);
                    assert(old_keys[k1] <= kx);
                } else if k1 == p {
                    assert(keys@[k2] == old_keys[k2 - 1]);
                } else {
                    assert(keys@[k1] == old_keys[k1 - 1] && keys@[k2] == old_keys[k2 - 1]);
                    assert(order[k1] == old_order[k1 - 1] && order[k2] == old_order[k2 - 1]);
                }
            }
        }
        i += 1;
    }
    proof {
        let outv = hit_views(out@);
        assert forall|k: int| 0 <= k < outv.len() implies 0 <= #[trigger] order[k] < input.len()
            && outv[k] == input[order[k]] by {}
        assert forall|k1: int, k2: int| 0 <= k1 < k2 < outv.len() implies word_count(
            #[trigger] outv[k1],
        ) < word_count(#[trigger] outv[k2]) || (word_count(outv[k1]) == word_count(outv[k2])
            && order[k1] < order[k2]) by {
            assert(keys@[k1] < keys@[k2] || (keys@[k1] == keys@[k2] && order[k1] < order[k2]));
        }
        assert(is_stable_count_order(input, outv, order));
    }
    out
}

proof fn lemma_srt_hits_mention(lines: Seq<Seq<char>>, target: Seq<char>, i: int)
    requires
        0 <= i < srt_hits(lines, target).len(),
    ensures
        mentions_word(srt_hits(lines, target)[i].text, target),
    decreases lines.len(),
{
    if lines.len() > 0 {
        let (h, rest) = first_block(lines, target);
        lemma_after_caption_len(lines.skip(2));
        if i >= opt_hits(h).len() {
            lemma_srt_hits_mention(rest, target, i - opt_hits(h).len());
        }
    }
}

/// Every caption hit of a file mentions the searched word.
pub proof fn lemma_caption_hits_mention(srt: Seq<char>, word: Seq<char>, out: Seq<HitView>, k: int)
    requires
        srt_word_hits(srt, word, out),
        0 <= k < out.len(),
    ensures
        mentions_word(out[k].text, spec_lowercase(word)),
{
    let input = srt_hits(spec_lines(srt), spec_lowercase(word));
    let order = choose|order: Seq<int>| is_stable_count_order(input, out, order);
    assert(0 <= order[k] < input.len() && out[k] == input[order[k]]);
    lemma_srt_hits_mention(spec_lines(srt), spec_lowercase(word), order[k]);
}

/// The hits of a caption file for `word`: the blocks whose caption mentions the
/// lower-cased word, ordered by caption word count (shorter captions first, file
/// order among equals).
pub open spec fn srt_word_hits(srt: Seq<char>, word: Seq<char>, out: Seq<HitView>) -> bool {
    sorted_by_word_count(srt_hits(spec_lines(srt), spec_lowercase(word)), out)
}

/// The hits of a caption file come shortest caption first: along the result, the
/// number of white-space separated words of the caption text never decreases.
pub proof fn lemma_caption_hits_shortest_first(
    srt: Seq<char>,
    word: Seq<char>,
    out: Seq<HitView>,
    k1: int,
    k2: int,
)
    requires
        srt_word_hits(srt, word, out),
        0 <= k1 < k2 < out.len(),
    ensures
        spec_words(out[k1].text).len() <= spec_words(out[k2].text).len(),
{
    let input = srt_hits(spec_lines(srt), spec_lowercase(word));
    let order = choose|order: Seq<int>| is_stable_count_order(input, out, order);
    assert(word_count(out[k1]) < word_count(out[k2]) || (word_count(out[k1]) == word_count(
        out[k2],
    ) && order[k1] < order[k2]));
}

/// Parses a caption file, returning caption lines that contain the target word,
/// shorter captions first.
pub fn caption_hits(srt: &str, word: &str) -> (r: Vec<CaptionHit<SrtTime>>)
    ensures
        srt_word_hits(srt@, word@, hit_views(r@)),
        forall|k1: int, k2: int|
            0 <= k1 < k2 < r@.len() ==> spec_words(#[trigger] r@[k1].text@).len() <= spec_words(
                #[trigger] r@[k2].text@,
            ).len(),
{
    let target_string = lowercase(word);
    let target = chars_of(target_string.as_str());
    let text = chars_of(srt);
    let lines = split_lines(&text);
    let hits = hits_in_order(&lines, &target);
    let r = sort_by_word_count(hits);
    proof {
        assert forall|k1: int, k2: int| 0 <= k1 < k2 < r@.len() implies spec_words(
            #[trigger] r@[k1].text@,
        ).len() <= spec_words(#[trigger] r@[k2].text@).len() by {
            lemma_caption_hits_shortest_first(srt@, word@, hit_views(r@), k1, k2);
            assert(hit_views(r@)[k1].text == r@[k1].text@);
            assert(hit_views(r@)[k2].text == r@[k2].text@);
        }
    }
    r
}

} // verus!
