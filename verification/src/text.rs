//! Text as a sequence of characters: lines and decimal numbers.

use crate::grid::rows_view;
use itertools::Itertools;
use vstd::prelude::*;

verus! {

/// The characters of `s`, in order.
pub fn chars_of(s: &str) -> (v: Vec<char>)
    ensures
        v@ == s@,
{
    let mut v: Vec<char> = Vec::new();
    for c in it: s.chars()
        invariant
            v@ == it.seq().take(it.index()),
            it.seq() == s@,
    {
        v.push(c);
    }
    v
}

/// Every character of `s` is one of the 128 of ASCII, so that it takes one
/// byte.
pub open spec fn is_plain(s: Seq<char>) -> bool {
    forall|i: int| 0 <= i < s.len() ==> (#[trigger] s[i] as u32) < 128
}

/// The number of characters before the first `c` of `s`, or the length of
/// `s` where it has none.
pub open spec fn first_place(s: Seq<char>, c: char) -> nat
    decreases s.len(),
{
    if s.len() == 0 || s[0] == c {
        0
    } else {
        1 + first_place(s.drop_first(), c)
    }
}

/// The number of characters before the first line feed of `s`, or the
/// length of `s` where it has none.
pub open spec fn first_newline(s: Seq<char>) -> nat {
    first_place(s, '\n')
}

/// `line` without the carriage return at its end, if it has one.
pub open spec fn without_cr(line: Seq<char>) -> Seq<char> {
    if line.len() > 0 && line.last() == '\r' {
        line.drop_last()
    } else {
        line
    }
}

/// The lines of `s`. A line ends at a line feed, or at a carriage return
/// followed by one; neither belongs to the line. What follows the last line
/// feed is a line too, unless it is empty.
pub open spec fn lines(s: Seq<char>) -> Seq<Seq<char>>
    decreases s.len(),
{
    if s.len() == 0 {
        Seq::empty()
    } else {
        let end = first_newline(s) as int;
        if end < s.len() {
            seq![without_cr(s.subrange(0, end))].add(lines(s.subrange(end + 1, s.len() as int)))
        } else {
            seq![s]
        }
    }
}

/// Where the first `k` characters of `s` hold no `c`, and `s` ends there or
/// has one there, the first `c` is at `k`.
pub proof fn lemma_first_place(s: Seq<char>, c: char, k: int)
    requires
        0 <= k <= s.len(),
        forall|j: int| 0 <= j < k ==> s[j] != c,
        k == s.len() || s[k] == c,
    ensures
        first_place(s, c) == k,
    decreases k,
{
    if k > 0 {
        lemma_first_place(s.drop_first(), c, k - 1);
    }
}

/// The first `c` of a text lies within it, or at its end; before it there
/// is none, and there is one there unless the text ends.
pub proof fn lemma_first_place_is(s: Seq<char>, c: char)
    ensures
        first_place(s, c) <= s.len(),
        forall|j: int| 0 <= j < first_place(s, c) ==> s[j] != c,
        first_place(s, c) < s.len() ==> s[first_place(s, c) as int] == c,
    decreases s.len(),
{
    if s.len() > 0 && s[0] != c {
        let rest = s.drop_first();
        lemma_first_place_is(rest, c);
        assert forall|j: int| 0 <= j < first_place(s, c) implies s[j] != c by {
            if j > 0 {
                assert(rest[j - 1] != c);
            }
        }
    }
}

/// A text has no more lines than characters.
pub proof fn lemma_lines_len(s: Seq<char>)
    ensures
        lines(s).len() <= s.len(),
    decreases s.len(),
{
    if s.len() > 0 {
        let end = first_newline(s) as int;
        lemma_first_place_is(s, '\n');
        if end < s.len() {
            lemma_lines_len(s.subrange(end + 1, s.len() as int));
        }
    }
}

/// The length of a line and the number of lines together are no more than
/// the length of the text and one.
pub proof fn lemma_lines_bounded(s: Seq<char>, k: int)
    requires
        0 <= k < lines(s).len(),
    ensures
        lines(s)[k].len() + lines(s).len() <= s.len() + 1,
    decreases s.len(),
{
    let end = first_newline(s) as int;
    lemma_first_place_is(s, '\n');
    if end < s.len() {
        let rest = s.subrange(end + 1, s.len() as int);
        lemma_lines_len(rest);
        if k > 0 {
            lemma_lines_bounded(rest, k - 1);
        }
    }
}

/// Splits `text` into its lines.
pub fn split_lines(text: &Vec<char>) -> (rows: Vec<Vec<char>>)
    ensures
        rows_view(rows@) == lines(text@),
{
    let mut rows: Vec<Vec<char>> = Vec::new();
    let mut cur: Vec<char> = Vec::new();
    let mut start: usize = 0;
    let mut i: usize = 0;
    proof {
        assert(text@.subrange(0, text@.len() as int) =~= text@);
        assert(rows_view(rows@) =~= Seq::<Seq<char>>::empty());
    }
    while i < text.len()
        invariant
            start <= i <= text.len(),
            cur@ == text@.subrange(start as int, i as int),
            forall|j: int| start <= j < i ==> text@[j] != '\n',
            lines(text@) == rows_view(rows@).add(
                lines(text@.subrange(start as int, text@.len() as int)),
            ),
        decreases text.len() - i,
    {
        let c = text[i];
        if c == '\n' {
            let ghost rest = text@.subrange(start as int, text@.len() as int);
            let ghost before = rows_view(rows@);
            proof {
                lemma_first_place(rest, '\n', i - start);
                assert(rest.subrange(0, i - start) =~= cur@);
                assert(rest.subrange(i - start + 1, rest.len() as int) =~= text@.subrange(
                    i + 1,
                    text@.len() as int,
                ));
            }
            if cur.len() > 0 && cur[cur.len() - 1] == '\r' {
                cur.pop();
            }
            rows.push(cur);
            proof {
                assert(rows_view(rows@) =~= before.push(without_cr(rest.subrange(0, i - start))));
                assert(before.add(
                    seq![without_cr(rest.subrange(0, i - start))].add(
                        lines(text@.subrange(i + 1, text@.len() as int)),
                    ),
                ) =~= rows_view(rows@).add(lines(text@.subrange(i + 1, text@.len() as int))));
            }
            cur = Vec::new();
            start = i + 1;
            proof {
                assert(cur@ =~= text@.subrange(start as int, i + 1));
            }
        } else {
            cur.push(c);
            proof {
                assert(cur@ =~= text@.subrange(start as int, i + 1));
            }
        }
        i += 1;
    }
    let ghost rest = text@.subrange(start as int, text@.len() as int);
    let ghost before = rows_view(rows@);
    if cur.len() > 0 {
        proof {
            lemma_first_place(rest, '\n', rest.len() as int);
            assert(rest =~= cur@);
        }
        rows.push(cur);
        proof {
            assert(rows_view(rows@) =~= before.push(rest));
            assert(before.add(seq![rest]) =~= rows_view(rows@));
        }
    } else {
        proof {
            assert(before.add(Seq::<Seq<char>>::empty()) =~= before);
        }
    }
    rows
}


/// Whether `c` is one of the digits `0` to `9`.
pub open spec fn is_digit(c: char) -> bool {
    '0' <= c <= '9'
}

/// The value of the digit `c`.
pub open spec fn digit_value(c: char) -> nat
    recommends
        is_digit(c),
{
    (c as u32 - '0' as u32) as nat
}

/// The number that the digits of `s` write in base ten; leading zeros count
/// for nothing.
pub open spec fn decimal_value(s: Seq<char>) -> nat
    decreases s.len(),
{
    if s.len() == 0 {
        0
    } else {
        decimal_value(s.drop_last()) * 10 + digit_value(s.last())
    }
}

/// `s` is one digit or more, and nothing else.
pub open spec fn is_digits(s: Seq<char>) -> bool {
    s.len() > 0 && forall|i: int| 0 <= i < s.len() ==> is_digit(#[trigger] s[i])
}

/// The number that `s` writes without a sign or after a `+`, if it writes
/// one: digits only, at least one.
pub open spec fn unsigned_of(s: Seq<char>) -> Option<nat> {
    let digits = if s.len() > 0 && s[0] == '+' {
        s.drop_first()
    } else {
        s
    };
    if is_digits(digits) {
        Some(decimal_value(digits))
    } else {
        None
    }
}

/// The number that `s` writes, if it writes one: an optional sign and then
/// digits only, at least one.
pub open spec fn signed_of(s: Seq<char>) -> Option<int> {
    if s.len() > 0 && s[0] == '-' {
        if is_digits(s.drop_first()) {
            Some(-(decimal_value(s.drop_first()) as int))
        } else {
            None
        }
    } else {
        match unsigned_of(s) {
            Some(v) => Some(v as int),
            None => None,
        }
    }
}

/// More digits never write a smaller number.
pub proof fn lemma_decimal_grows(s: Seq<char>, n: int)
    requires
        0 <= n <= s.len(),
    ensures
        decimal_value(s.take(n)) <= decimal_value(s),
    decreases s.len() - n,
{
    if n < s.len() {
        lemma_decimal_grows(s.drop_last(), n);
        assert(s.drop_last().take(n) =~= s.take(n));
    } else {
        assert(s.take(n) =~= s);
    }
}

/// Reads the digits `s[from..]` as a number no greater than `max`. `None`
/// where there is no digit, something that is no digit, or a greater number.
pub fn parse_digits(s: &[char], from: usize, max: u64) -> (r: Option<u64>)
    requires
        from <= s@.len(),
    ensures
        r == (if is_digits(s@.skip(from as int)) && decimal_value(s@.skip(from as int)) <= max {
            Some(decimal_value(s@.skip(from as int)) as u64)
        } else {
            None
        }),
{
    let ghost digits = s@.skip(from as int);
    if from == s.len() {
        return None;
    }
    let mut acc: u64 = 0;
    let mut i: usize = from;
    proof {
        assert(digits.take(0) =~= Seq::<char>::empty());
    }
    while i < s.len()
        invariant
            from <= i <= s.len(),
            digits == s@.skip(from as int),
            forall|j: int| 0 <= j < i - from ==> is_digit(#[trigger] digits[j]),
            acc == decimal_value(digits.take(i - from)),
            acc <= max,
        decreases s.len() - i,
    {
        let c = s[i];
        assert(c == digits[i - from]);
        if !('0' <= c && c <= '9') {
            return None;
        }
        let d: u64 = (c as u32 - '0' as u32) as u64;
        proof {
            assert(digits.take(i - from + 1).drop_last() =~= digits.take(i - from));
            assert(digits.take(i - from + 1).last() == c);
            lemma_decimal_grows(digits, i - from + 1);
        }
        if d > max || acc > (max - d) / 10 {
            return None;
        }
        acc = acc * 10 + d;
        i += 1;
    }
    proof {
        assert(digits.take(i - from) =~= digits);
    }
    Some(acc)
}

/// Reads `s` as a number without a sign or after a `+`, no greater than `max`.
pub fn parse_unsigned(s: &[char], max: u64) -> (r: Option<u64>)
    ensures
        r == match unsigned_of(s@) {
            Some(v) if v <= max => Some(v as u64),
            _ => None,
        },
{
    if s.len() > 0 && s[0] == '+' {
        assert(s@.skip(1) =~= s@.drop_first());
        parse_digits(s, 1, max)
    } else {
        assert(s@.skip(0) =~= s@);
        parse_digits(s, 0, max)
    }
}

/// What `s` writes as a `u32`, if it writes one.
pub open spec fn spec_parse_u32(s: Seq<char>) -> Option<u32> {
    match unsigned_of(s) {
        Some(v) if v <= u32::MAX => Some(v as u32),
        _ => None,
    }
}

/// What `s` writes as a `u64`, if it writes one.
pub open spec fn spec_parse_u64(s: Seq<char>) -> Option<u64> {
    match unsigned_of(s) {
        Some(v) if v <= u64::MAX => Some(v as u64),
        _ => None,
    }
}

/// What `s` writes as an `i32`, if it writes one.
pub open spec fn spec_parse_i32(s: Seq<char>) -> Option<i32> {
    match signed_of(s) {
        Some(v) if i32::MIN <= v <= i32::MAX => Some(v as i32),
        _ => None,
    }
}

/// Reads `s` as a `u32`: digits, after a `+` or not.
pub fn parse_u32(s: &[char]) -> (r: Option<u32>)
    ensures
        r == spec_parse_u32(s@),
{
    match parse_unsigned(s, 0xffff_ffff) {
        Some(v) => Some(v as u32),
        None => None,
    }
}

/// Reads `s` as a `u64`: digits, after a `+` or not.
pub fn parse_u64(s: &[char]) -> (r: Option<u64>)
    ensures
        r == spec_parse_u64(s@),
{
    parse_unsigned(s, 0xffff_ffff_ffff_ffff)
}

/// Reads `s` as an `i32`: digits, after a sign or not.
pub fn parse_i32(s: &[char]) -> (r: Option<i32>)
    ensures
        r == spec_parse_i32(s@),
{
    if s.len() > 0 && s[0] == '-' {
        assert(s@.skip(1) =~= s@.drop_first());
        match parse_digits(s, 1, 0x8000_0000) {
            Some(v) => Some((-(v as i64)) as i32),
            None => None,
        }
    } else {
        match parse_unsigned(s, 0x7fff_ffff) {
            Some(v) => Some(v as i32),
            None => None,
        }
    }
}

/// Whether `c` is white space.
pub open spec fn is_space(c: char) -> bool {
    ||| '\t' <= c <= '\r'
    ||| c == ' '
    ||| c == '\u{85}'
    ||| c == '\u{a0}'
    ||| c == '\u{1680}'
    ||| '\u{2000}' <= c <= '\u{200a}'
    ||| c == '\u{2028}'
    ||| c == '\u{2029}'
    ||| c == '\u{202f}'
    ||| c == '\u{205f}'
    ||| c == '\u{3000}'
}

/// Whether `c` is white space.
pub fn char_is_space(c: char) -> (b: bool)
    ensures
        b == is_space(c),
{
    ('\t' <= c && c <= '\r') || c == ' ' || c == '\u{85}' || c == '\u{a0}' || c == '\u{1680}' || (
    '\u{2000}' <= c && c <= '\u{200a}') || c == '\u{2028}' || c == '\u{2029}' || c == '\u{202f}'
        || c == '\u{205f}' || c == '\u{3000}'
}

/// `s[from..to]` is `s` without the white space at its start and its end.
pub open spec fn trims_to(s: Seq<char>, from: int, to: int) -> bool {
    &&& 0 <= from <= to <= s.len()
    &&& forall|i: int| 0 <= i < from ==> is_space(#[trigger] s[i])
    &&& forall|i: int| to <= i < s.len() ==> is_space(#[trigger] s[i])
    &&& from < to ==> !is_space(s[from]) && !is_space(s[to - 1])
    &&& from == to ==> from == s.len()
}

/// `s` without the white space at its start and its end.
pub open spec fn trimmed(s: Seq<char>) -> Seq<char> {
    let (from, to) = choose|from: int, to: int| trims_to(s, from, to);
    s.subrange(from, to)
}

/// Only one part of a text is the text without the white space around it.
pub proof fn lemma_trim_unique(s: Seq<char>, from: int, to: int)
    requires
        trims_to(s, from, to),
    ensures
        trimmed(s) == s.subrange(from, to),
{
    let (a, b) = choose|a: int, b: int| trims_to(s, a, b);
    if a < from {
        assert(is_space(s[a]));
    }
    if from < a {
        assert(is_space(s[from]));
    }
    if b < to {
        assert(is_space(s[to - 1]));
    }
    if to < b {
        assert(is_space(s[b - 1]));
    }
}

/// Where `s` without the white space around it begins and ends.
pub fn trim_bounds(s: &[char]) -> (r: (usize, usize))
    ensures
        trims_to(s@, r.0 as int, r.1 as int),
        trimmed(s@) == s@.subrange(r.0 as int, r.1 as int),
{
    let mut from: usize = 0;
    while from < s.len() && char_is_space(s[from])
        invariant
            from <= s.len(),
            forall|i: int| 0 <= i < from ==> is_space(#[trigger] s@[i]),
        decreases s.len() - from,
    {
        from += 1;
    }
    let mut to: usize = s.len();
    while to > from && char_is_space(s[to - 1])
        invariant
            from <= to <= s.len(),
            forall|i: int| to <= i < s.len() ==> is_space(#[trigger] s@[i]),
        decreases to,
    {
        to -= 1;
    }
    proof {
        lemma_trim_unique(s@, from as int, to as int);
    }
    (from, to)
}

/// A copy of `s[from..to]`.
pub fn copy_range(s: &[char], from: usize, to: usize) -> (v: Vec<char>)
    requires
        from <= to <= s@.len(),
    ensures
        v@ == s@.subrange(from as int, to as int),
{
    let mut v: Vec<char> = Vec::new();
    let mut i: usize = from;
    while i < to
        invariant
            from <= i <= to <= s@.len(),
            v@ == s@.subrange(from as int, i as int),
        decreases to - i,
    {
        v.push(s[i]);
        proof {
            assert(v@ =~= s@.subrange(from as int, i + 1));
        }
        i += 1;
    }
    v
}

/// `s` without the white space at its start and its end.
pub fn trim(s: &[char]) -> (v: Vec<char>)
    ensures
        v@ == trimmed(s@),
{
    let (from, to) = trim_bounds(s);
    copy_range(s, from, to)
}

/// The place of the first `c` in `s`, if it holds one.
pub fn find_char(s: &[char], c: char) -> (r: Option<usize>)
    ensures
        match r {
            Some(i) => i < s@.len() && i == first_place(s@, c),
            None => first_place(s@, c) == s@.len(),
        },
{
    let mut i: usize = 0;
    while i < s.len()
        invariant
            i <= s.len(),
            forall|j: int| 0 <= j < i ==> s@[j] != c,
        decreases s.len() - i,
    {
        if s[i] == c {
            proof {
                lemma_first_place(s@, c, i as int);
            }
            return Some(i);
        }
        i += 1;
    }
    proof {
        lemma_first_place(s@, c, s@.len() as int);
    }
    None
}

/// The parts of `s` between one `sep` and the next: one part more than `s`
/// holds `sep`.
pub open spec fn split(s: Seq<char>, sep: char) -> Seq<Seq<char>>
    decreases s.len(),
{
    let end = first_place(s, sep) as int;
    if end < s.len() {
        seq![s.subrange(0, end)].add(split(s.subrange(end + 1, s.len() as int), sep))
    } else {
        seq![s]
    }
}

/// Splits `s` at each `sep`.
pub fn split_at(s: &[char], sep: char) -> (parts: Vec<Vec<char>>)
    ensures
        rows_view(parts@) == split(s@, sep),
        parts@.len() > 0,
{
    let mut parts: Vec<Vec<char>> = Vec::new();
    let mut cur: Vec<char> = Vec::new();
    let mut start: usize = 0;
    let mut i: usize = 0;
    proof {
        assert(s@.subrange(0, s@.len() as int) =~= s@);
        assert(rows_view(parts@) =~= Seq::<Seq<char>>::empty());
    }
    while i < s.len()
        invariant
            start <= i <= s.len(),
            cur@ == s@.subrange(start as int, i as int),
            forall|j: int| start <= j < i ==> s@[j] != sep,
            split(s@, sep) == rows_view(parts@).add(
                split(s@.subrange(start as int, s@.len() as int), sep),
            ),
        decreases s.len() - i,
    {
        let c = s[i];
        if c == sep {
            let ghost rest = s@.subrange(start as int, s@.len() as int);
            let ghost before = rows_view(parts@);
            proof {
                lemma_first_place(rest, sep, i - start);
                assert(rest.subrange(0, i - start) =~= cur@);
                assert(rest.subrange(i - start + 1, rest.len() as int) =~= s@.subrange(
                    i + 1,
                    s@.len() as int,
                ));
            }
            parts.push(cur);
            proof {
                assert(rows_view(parts@) =~= before.push(rest.subrange(0, i - start)));
                assert(before.add(
                    seq![rest.subrange(0, i - start)].add(
                        split(s@.subrange(i + 1, s@.len() as int), sep),
                    ),
                ) =~= rows_view(parts@).add(split(s@.subrange(i + 1, s@.len() as int), sep)));
            }
            cur = Vec::new();
            start = i + 1;
            proof {
                assert(cur@ =~= s@.subrange(start as int, i + 1));
            }
        } else {
            cur.push(c);
            proof {
                assert(cur@ =~= s@.subrange(start as int, i + 1));
            }
        }
        i += 1;
    }
    let ghost rest = s@.subrange(start as int, s@.len() as int);
    let ghost before = rows_view(parts@);
    proof {
        lemma_first_place(rest, sep, rest.len() as int);
        assert(rest =~= cur@);
    }
    parts.push(cur);
    proof {
        assert(rows_view(parts@) =~= before.push(rest));
        assert(before.add(seq![rest]) =~= rows_view(parts@));
    }
    parts
}

/// The quotient of `x` by `d`, rounded towards zero.
pub open spec fn trunc_div(x: int, d: int) -> int {
    if x >= 0 {
        x / d
    } else {
        -((-x) / d)
    }
}

/// What is left of `x` after the division by `d` that rounds towards zero;
/// it has the sign of `x`.
pub open spec fn trunc_rem(x: int, d: int) -> int {
    x - d * trunc_div(x, d)
}

/// The quotient of `x` by `d`, rounded towards zero.
pub fn div_toward_zero(x: i64, d: i64) -> (q: i64)
    requires
        d > 0,
        x > i64::MIN,
    ensures
        q == trunc_div(x as int, d as int),
{
    if x >= 0 {
        x / d
    } else {
        let n: i64 = -x;
        let q: i64 = n / d;
        assert(0 <= q <= n) by (nonlinear_arith)
            requires
                q == n / d,
                n >= 0,
                d > 0,
        ;
        -q
    }
}

/// What `s` writes as a `usize`, if it writes one.
pub open spec fn spec_parse_usize(s: Seq<char>) -> Option<usize> {
    match unsigned_of(s) {
        Some(v) if v <= usize::MAX => Some(v as usize),
        _ => None,
    }
}

/// Reads `s` as a `usize`: digits, after a `+` or not.
pub fn parse_usize(s: &[char]) -> (r: Option<usize>)
    ensures
        r == spec_parse_usize(s@),
{
    match parse_unsigned(s, usize::MAX as u64) {
        Some(v) => Some(v as usize),
        None => None,
    }
}

/// The texts `parts` one after the other, with `sep` between each two.
pub open spec fn joined(parts: Seq<Seq<char>>, sep: Seq<char>) -> Seq<char>
    decreases parts.len(),
{
    if parts.len() == 0 {
        Seq::empty()
    } else if parts.len() == 1 {
        parts[0]
    } else {
        joined(parts.drop_last(), sep) + sep + parts.last()
    }
}

/// The texts that `parts` hold.
pub open spec fn texts_view(parts: Seq<&str>) -> Seq<Seq<char>> {
    Seq::new(parts.len(), |i: int| parts[i]@)
}

/// Joins texts with `Itertools::join` of the crate itertools: the result
/// is the first text, and then for each further one the separator and that
/// text; nothing for no texts.
#[verifier::external_body]
pub(crate) fn join_texts(parts: &Vec<&str>, sep: &str) -> (r: String)
    ensures
        r@ == joined(texts_view(parts@), sep@),
{
    parts.iter().join(sep)
}

/// Adds `c` at the end of `s` with `String::push` of the standard library.
#[verifier::external_body]
pub(crate) fn push_char(s: &mut String, c: char)
    ensures
        final(s)@ == old(s)@.push(c),
{
    s.push(c);
}

/// The text that `chars` spell.
pub fn text_of(chars: &[char]) -> (s: String)
    ensures
        s@ == chars@,
{
    let mut s = String::new();
    let mut i: usize = 0;
    while i < chars.len()
        invariant
            i <= chars.len(),
            s@ == chars@.take(i as int),
        decreases chars.len() - i,
    {
        push_char(&mut s, chars[i]);
        proof {
            assert(chars@.take(i + 1) =~= chars@.take(i as int).push(chars@[i as int]));
        }
        i += 1;
    }
    proof {
        assert(chars@.take(i as int) =~= chars@);
    }
    s
}

/// The digit that writes `d`, which is below ten.
pub open spec fn digit_of(d: nat) -> char
    recommends
        d < 10,
{
    (('0' as u32) + d as u32) as char
}

/// `n` written in base ten, without leading zeros.
pub open spec fn digits_of(n: nat) -> Seq<char>
    decreases n,
{
    if n < 10 {
        seq![digit_of(n)]
    } else {
        digits_of(n / 10).push(digit_of(n % 10))
    }
}

/// What is written of a number reads as that number.
pub proof fn lemma_digits_read(n: nat)
    ensures
        is_digits(digits_of(n)),
        decimal_value(digits_of(n)) == n,
    decreases n,
{
    let s = digits_of(n);
    if n < 10 {
        assert(s.drop_last() =~= Seq::<char>::empty());
        assert(decimal_value(s.drop_last()) == 0);
    } else {
        lemma_digits_read(n / 10);
        assert(s.drop_last() =~= digits_of(n / 10));
        assert(s.last() == digit_of(n % 10));
    }
}

/// Writes `n` in base ten.
pub fn decimal(n: u64) -> (v: Vec<char>)
    ensures
        v@ == digits_of(n as nat),
{
    let mut backwards: Vec<char> = Vec::new();
    let mut rest = n;
    while rest >= 10
        invariant
            digits_of(n as nat) == digits_of(rest as nat) + backwards@.reverse(),
        decreases rest,
    {
        let ghost before = backwards@;
        let d = (rest % 10) as u32;
        backwards.push(char_of_digit(d));
        proof {
            assert(backwards@.reverse() =~= seq![digit_of((rest % 10) as nat)] + before.reverse());
            assert(digits_of(rest as nat) == digits_of((rest / 10) as nat).push(
                digit_of((rest % 10) as nat),
            ));
            assert(digits_of((rest / 10) as nat).push(digit_of((rest % 10) as nat))
                + before.reverse() =~= digits_of((rest / 10) as nat) + backwards@.reverse());
        }
        rest = rest / 10;
    }
    let ghost before = backwards@;
    backwards.push(char_of_digit(rest as u32));
    proof {
        assert(backwards@.reverse() =~= seq![digit_of(rest as nat)] + before.reverse());
    }
    let mut v: Vec<char> = Vec::new();
    let mut i: usize = backwards.len();
    while i > 0
        invariant
            i <= backwards.len(),
            v@ == backwards@.reverse().take(backwards.len() - i),
        decreases i,
    {
        i -= 1;
        v.push(backwards[i]);
        proof {
            assert(v@ =~= backwards@.reverse().take(backwards.len() - i));
        }
    }
    proof {
        assert(backwards@.reverse().take(backwards.len() as int) =~= backwards@.reverse());
    }
    v
}

/// The digit that writes `d`.
fn char_of_digit(d: u32) -> (c: char)
    requires
        d < 10,
    ensures
        c == digit_of(d as nat),
{
    match d {
        0 => '0',
        1 => '1',
        2 => '2',
        3 => '3',
        4 => '4',
        5 => '5',
        6 => '6',
        7 => '7',
        8 => '8',
        _ => '9',
    }
}

/// Whether `c` is white space of ASCII: a blank, a tab, a line feed, a form
/// feed or a carriage return.
pub open spec fn is_ascii_space(c: char) -> bool {
    c == ' ' || c == '\t' || c == '\n' || c == '\u{c}' || c == '\r'
}

/// The number of characters of `s` before its first white space of ASCII,
/// or the length of `s` where it has none.
pub open spec fn word_len(s: Seq<char>) -> nat
    decreases s.len(),
{
    if s.len() == 0 || is_ascii_space(s[0]) {
        0
    } else {
        1 + word_len(s.drop_first())
    }
}

/// The words of `s`: its parts between white space of ASCII, none of them
/// empty.
pub open spec fn words(s: Seq<char>) -> Seq<Seq<char>>
    decreases s.len(),
{
    if s.len() == 0 {
        Seq::empty()
    } else if is_ascii_space(s[0]) {
        words(s.drop_first())
    } else {
        let end = word_len(s) as int;
        if 0 < end <= s.len() {
            seq![s.subrange(0, end)].add(words(s.subrange(end, s.len() as int)))
        } else {
            Seq::empty()
        }
    }
}

/// Where the first `k` characters of `s` are no white space, and `s` ends
/// there or has white space there, the first word is `k` long.
pub proof fn lemma_word_len(s: Seq<char>, k: int)
    requires
        0 <= k <= s.len(),
        forall|j: int| 0 <= j < k ==> !is_ascii_space(s[j]),
        k == s.len() || is_ascii_space(s[k]),
    ensures
        word_len(s) == k,
    decreases k,
{
    if k > 0 {
        lemma_word_len(s.drop_first(), k - 1);
    }
}

/// Splits `s` into its words.
pub fn split_words(s: &[char]) -> (parts: Vec<Vec<char>>)
    ensures
        rows_view(parts@) == words(s@),
{
    let mut parts: Vec<Vec<char>> = Vec::new();
    let mut i: usize = 0;
    proof {
        assert(s@.subrange(0, s@.len() as int) =~= s@);
        assert(rows_view(parts@) =~= Seq::<Seq<char>>::empty());
    }
    while i < s.len()
        invariant
            i <= s.len(),
            words(s@) == rows_view(parts@).add(words(s@.subrange(i as int, s@.len() as int))),
        decreases s.len() - i,
    {
        let ghost rest = s@.subrange(i as int, s@.len() as int);
        let c = s[i];
        if c == ' ' || c == '\t' || c == '\n' || c == '\u{c}' || c == '\r' {
            proof {
                assert(rest.drop_first() =~= s@.subrange(i + 1, s@.len() as int));
            }
            i += 1;
        } else {
            let start = i;
            let mut word: Vec<char> = Vec::new();
            while i < s.len() && !(s[i] == ' ' || s[i] == '\t' || s[i] == '\n' || s[i] == '\u{c}'
                || s[i] == '\r')
                invariant
                    start <= i <= s.len(),
                    word@ == s@.subrange(start as int, i as int),
                    forall|j: int| start <= j < i ==> !is_ascii_space(s@[j]),
                decreases s.len() - i,
            {
                word.push(s[i]);
                proof {
                    assert(word@ =~= s@.subrange(start as int, i + 1));
                }
                i += 1;
            }
            let ghost before = rows_view(parts@);
            proof {
                lemma_word_len(rest, i - start);
                assert(rest.subrange(0, i - start) =~= word@);
                assert(rest.subrange(i - start, rest.len() as int) =~= s@.subrange(
                    i as int,
                    s@.len() as int,
                ));
            }
            parts.push(word);
            proof {
                assert(rows_view(parts@) =~= before.push(rest.subrange(0, i - start)));
                assert(before.add(
                    seq![rest.subrange(0, i - start)].add(
                        words(s@.subrange(i as int, s@.len() as int)),
                    ),
                ) =~= rows_view(parts@).add(words(s@.subrange(i as int, s@.len() as int))));
            }
        }
    }
    proof {
        assert(rows_view(parts@).add(Seq::<Seq<char>>::empty()) =~= rows_view(parts@));
    }
    parts
}

/// Whether two texts are the same.
pub fn same_text(a: &[char], b: &[char]) -> (same: bool)
    ensures
        same == (a@ == b@),
{
    if a.len() != b.len() {
        return false;
    }
    let mut i: usize = 0;
    while i < a.len()
        invariant
            i <= a.len(),
            a.len() == b.len(),
            forall|j: int| 0 <= j < i ==> a@[j] == b@[j],
        decreases a.len() - i,
    {
        if a[i] != b[i] {
            return false;
        }
        i += 1;
    }
    assert(a@ =~= b@);
    true
}

} // verus!
