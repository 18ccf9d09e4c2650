//! Runic words hidden in inscriptions: how often they occur, and how many
//! runes belong to one of them.

use crate::grid::{rectangular, rows_view};
use crate::text::{chars_of, copy_range, is_plain, lines, same_text, split, split_at, split_lines};
use vstd::prelude::*;

verus! {

/// The head of the first line of an inscription.
pub open spec fn heading() -> Seq<char> {
    seq!['W', 'O', 'R', 'D', 'S', ':']
}

/// `s` without every heading at its start.
pub open spec fn without_headings(s: Seq<char>) -> Seq<char>
    decreases s.len(),
{
    if s.len() >= 6 && s.subrange(0, 6) == heading() {
        without_headings(s.subrange(6, s.len() as int))
    } else {
        s
    }
}

/// The words that the first line of `rows` lists after its heading, with
/// commas between them.
pub open spec fn words_of(rows: Seq<Seq<char>>) -> Seq<Seq<char>> {
    split(without_headings(rows[0]), ',')
}

/// The inscribed lines of `rows`: those after the second.
pub open spec fn texts_of(rows: Seq<Seq<char>>) -> Seq<Seq<char>> {
    rows.subrange(2, rows.len() as int)
}

/// Reads the words and the inscribed lines of `input`: the words from the
/// first line, the inscription from the third line on.
pub fn parse(input: &str) -> (r: (Vec<Vec<char>>, Vec<Vec<char>>))
    requires
        lines(input@).len() >= 2,
    ensures
        rows_view(r.0@) == words_of(lines(input@)),
        rows_view(r.1@) == texts_of(lines(input@)),
{
    let text = chars_of(input);
    let rows = split_lines(&text);
    let ghost drawn = lines(text@);
    let first = &rows[0];
    proof {
        assert(drawn[0] == first@);
    }
    let mut from: usize = 0;
    proof {
        assert(first@.subrange(0, first@.len() as int) =~= first@);
    }
    while first.len() - from >= 6 && first[from] == 'W' && first[from + 1] == 'O' && first[from
        + 2] == 'R' && first[from + 3] == 'D' && first[from + 4] == 'S' && first[from + 5] == ':'
        invariant
            from <= first.len(),
            without_headings(first@) == without_headings(
                first@.subrange(from as int, first@.len() as int),
            ),
        decreases first.len() - from,
    {
        proof {
            let rest = first@.subrange(from as int, first@.len() as int);
            assert(rest.subrange(0, 6) =~= heading());
            assert(rest.subrange(6, rest.len() as int) =~= first@.subrange(
                from + 6,
                first@.len() as int,
            ));
        }
        from += 6;
    }
    proof {
        let rest = first@.subrange(from as int, first@.len() as int);
        if rest.len() >= 6 {
            assert(rest.subrange(0, 6) != heading()) by {
                if rest.subrange(0, 6) == heading() {
                    assert(rest.subrange(0, 6)[0] == 'W');
                    assert(rest.subrange(0, 6)[1] == 'O');
                    assert(rest.subrange(0, 6)[2] == 'R');
                    assert(rest.subrange(0, 6)[3] == 'D');
                    assert(rest.subrange(0, 6)[4] == 'S');
                    assert(rest.subrange(0, 6)[5] == ':');
                }
            }
        }
    }
    let named = copy_range(first.as_slice(), from, first.len());
    let words = split_at(named.as_slice(), ',');

    let mut texts: Vec<Vec<char>> = Vec::new();
    let mut n: usize = 2;
    while n < rows.len()
        invariant
            2 <= n <= rows.len(),
            drawn == rows_view(rows@),
            rows_view(texts@) == drawn.subrange(2, n as int),
        decreases rows.len() - n,
    {
        let ghost before = rows_view(texts@);
        texts.push(copy_range(rows[n].as_slice(), 0, rows[n].len()));
        proof {
            assert(rows@[n as int]@.subrange(0, rows@[n as int]@.len() as int) =~= rows@[n as int]@);
            assert(rows_view(texts@) =~= before.push(drawn[n as int]));
            assert(drawn.subrange(2, n + 1) =~= drawn.subrange(2, n as int).push(drawn[n as int]));
        }
        n += 1;
    }
    (words, texts)
}

/// `word` stands in `text` at `at`.
pub open spec fn stands_at(text: Seq<char>, word: Seq<char>, at: int) -> bool {
    0 <= at && at + word.len() <= text.len() && text.subrange(at, at + word.len()) == word
}

/// How often `word` stands in `text` from `from` on, counted from the left
/// and without counting a rune twice; the empty word stands before each
/// rune and at the end.
pub open spec fn occurrences(text: Seq<char>, word: Seq<char>, from: int) -> nat
    decreases text.len() - from,
{
    if from < 0 || from > text.len() {
        0
    } else if word.len() == 0 {
        (text.len() - from + 1) as nat
    } else if from + word.len() > text.len() {
        0
    } else if stands_at(text, word, from) {
        1 + occurrences(text, word, from + word.len())
    } else {
        occurrences(text, word, from + 1)
    }
}

/// The occurrences of the first `n` of `words` in `text`, summed up.
pub open spec fn all_occurrences(text: Seq<char>, words: Seq<Seq<char>>, n: nat) -> nat
    decreases n,
{
    if n == 0 {
        0
    } else {
        all_occurrences(text, words, (n - 1) as nat) + occurrences(text, words[n - 1], 0)
    }
}

/// Whether `word` stands in `text` at `at`.
pub fn is_at(text: &[char], word: &[char], at: usize) -> (b: bool)
    ensures
        b == stands_at(text@, word@, at as int),
{
    if at > text.len() || word.len() > text.len() - at {
        return false;
    }
    let mut k: usize = 0;
    while k < word.len()
        invariant
            k <= word.len(),
            at + word.len() <= text.len(),
            forall|j: int| 0 <= j < k ==> text@[at + j] == word@[j],
        decreases word.len() - k,
    {
        if text[at + k] != word[k] {
            assert(text@.subrange(at as int, at + word.len())[k as int] != word@[k as int]);
            return false;
        }
        k += 1;
    }
    assert(text@.subrange(at as int, at + word.len()) =~= word@);
    true
}

/// There are no more occurrences than places to stand at.
pub proof fn lemma_occurrences_bounded(text: Seq<char>, word: Seq<char>, from: int)
    requires
        0 <= from <= text.len(),
    ensures
        occurrences(text, word, from) <= text.len() - from + 1,
    decreases text.len() - from,
{
    if word.len() > 0 && from + word.len() <= text.len() {
        if stands_at(text, word, from) {
            lemma_occurrences_bounded(text, word, from + word.len());
        } else {
            lemma_occurrences_bounded(text, word, from + 1);
        }
    }
}

/// How often `word` stands in `text`.
pub fn count_occurrences(text: &[char], word: &[char]) -> (r: usize)
    requires
        text@.len() < usize::MAX,
    ensures
        r == occurrences(text@, word@, 0),
{
    if word.len() == 0 {
        return text.len() + 1;
    }
    let mut count: usize = 0;
    let mut from: usize = 0;
    while word.len() <= text.len() - from
        invariant
            from <= text.len(),
            word@.len() > 0,
            text@.len() < usize::MAX,
            count + occurrences(text@, word@, from as int) == occurrences(text@, word@, 0),
        decreases text.len() - from,
    {
        proof {
            lemma_occurrences_bounded(text@, word@, 0);
            lemma_occurrences_bounded(text@, word@, from as int);
        }
        if is_at(text, word, from) {
            proof {
                lemma_occurrences_bounded(text@, word@, from + word@.len());
            }
            count += 1;
            from += word.len();
        } else {
            from += 1;
        }
    }
    count
}

/// Sums never shrink as more words are counted.
pub proof fn lemma_all_occurrences_grow(text: Seq<char>, words: Seq<Seq<char>>, m: nat, n: nat)
    requires
        m <= n,
    ensures
        all_occurrences(text, words, m) <= all_occurrences(text, words, n),
    decreases n,
{
    if m < n {
        lemma_all_occurrences_grow(text, words, m, (n - 1) as nat);
    }
}

/// How often the words listed in `input` stand in the first line of its
/// inscription, all of them together.
pub fn part1(input: &str) -> (r: u32)
    requires
        lines(input@).len() >= 3,
        lines(input@)[2].len() < u32::MAX,
        all_occurrences(lines(input@)[2], words_of(lines(input@)), words_of(lines(input@)).len())
            <= u32::MAX,
    ensures
        r == all_occurrences(
            lines(input@)[2],
            words_of(lines(input@)),
            words_of(lines(input@)).len(),
        ),
{
    let (words, texts) = parse(input);
    proof {
        assert(rows_view(texts@).len() == texts@.len());
        assert(texts_of(lines(input@)).len() == lines(input@).len() - 2);
    }
    let text = &texts[0];
    let ghost inscribed = lines(input@)[2];
    let ghost listed = words_of(lines(input@));
    proof {
        assert(rows_view(texts@)[0] == text@);
        assert(texts_of(lines(input@))[0] == inscribed);
    }
    let mut total: u32 = 0;
    let mut n: usize = 0;
    while n < words.len()
        invariant
            n <= words.len(),
            listed == rows_view(words@),
            inscribed == text@,
            inscribed.len() < u32::MAX,
            all_occurrences(inscribed, listed, listed.len()) <= u32::MAX,
            total == all_occurrences(inscribed, listed, n as nat),
        decreases words.len() - n,
    {
        proof {
            assert(listed[n as int] == words@[n as int]@);
            lemma_all_occurrences_grow(inscribed, listed, (n + 1) as nat, listed.len());
            lemma_occurrences_bounded(inscribed, listed[n as int], 0);
        }
        total += count_occurrences(text.as_slice(), words[n].as_slice()) as u32;
        n += 1;
    }
    total
}

/// `word` stands in `line` at `at`, forwards or backwards.
pub open spec fn hits(line: Seq<char>, word: Seq<char>, at: int) -> bool {
    stands_at(line, word, at) || stands_at(line, word.reverse(), at)
}

/// The rune at `i` of `line` belongs to one of `words`, standing at a place
/// before place `at` of word `upto`, or anywhere for a word before it.
pub open spec fn covered_until(
    line: Seq<char>,
    words: Seq<Seq<char>>,
    upto: int,
    at: int,
    i: int,
) -> bool {
    exists|w: int, s: int|
        0 <= w < words.len() && #[trigger] hits(line, words[w], s) && s <= i < s + words[w].len()
            && (w < upto || (w == upto && s < at))
}

/// The rune at `i` of `line` belongs to one of `words`, standing forwards
/// or backwards.
pub open spec fn covered(line: Seq<char>, words: Seq<Seq<char>>, i: int) -> bool {
    covered_until(line, words, words.len() as int, 0, i)
}

/// How many of the first `n` runes of `line` belong to one of `words`.
pub open spec fn runes_covered(line: Seq<char>, words: Seq<Seq<char>>, n: nat) -> nat
    decreases n,
{
    if n == 0 {
        0
    } else {
        runes_covered(line, words, (n - 1) as nat) + if covered(line, words, n - 1) {
            1nat
        } else {
            0nat
        }
    }
}

/// No more runes are covered than there are.
pub proof fn lemma_runes_covered_bounded(line: Seq<char>, words: Seq<Seq<char>>, n: nat)
    ensures
        runes_covered(line, words, n) <= n,
    decreases n,
{
    if n > 0 {
        lemma_runes_covered_bounded(line, words, (n - 1) as nat);
    }
}

/// `word` from its end to its start.
pub fn reversed(word: &[char]) -> (r: Vec<char>)
    ensures
        r@ == word@.reverse(),
{
    let mut r: Vec<char> = Vec::new();
    let mut i: usize = word.len();
    while i > 0
        invariant
            i <= word.len(),
            r@ == word@.reverse().take(word.len() - i),
        decreases i,
    {
        i -= 1;
        r.push(word[i]);
        proof {
            assert(r@ =~= word@.reverse().take(word.len() - i));
        }
    }
    proof {
        assert(word@.reverse().take(word.len() as int) =~= word@.reverse());
    }
    r
}

/// No word is longer than the line.
pub open spec fn words_fit(line: Seq<char>, words: Seq<Seq<char>>) -> bool {
    forall|w: int| 0 <= w < words.len() ==> (#[trigger] words[w]).len() <= line.len()
}

/// Count how many chars in the line match at least one of the words.
///
/// The same letter could be part of multiple words, but should only count once per match.
/// e.g. words THE and HER with input THERE would return 4 (T H E R).
///
/// The pattern is allowed to match right to left also, e.g. word THE would match EHT in the line.
pub fn matching_chars(line: &[char], words: &Vec<Vec<char>>) -> (r: u32)
    requires
        words_fit(line@, rows_view(words@)),
        line@.len() < u32::MAX,
    ensures
        r == runes_covered(line@, rows_view(words@), line@.len()),
{
    let ghost listed = rows_view(words@);
    let mut flagged: Vec<bool> = Vec::new();
    let mut i: usize = 0;
    while i < line.len()
        invariant
            i <= line.len(),
            flagged@.len() == i,
            forall|k: int| 0 <= k < i ==> !flagged@[k],
        decreases line.len() - i,
    {
        flagged.push(false);
        i += 1;
    }

    let mut w: usize = 0;
    while w < words.len()
        invariant
            w <= words.len(),
            listed == rows_view(words@),
            words_fit(line@, listed),
            line@.len() < u32::MAX,
            flagged@.len() == line@.len(),
            forall|k: int|
                0 <= k < line@.len() ==> flagged@[k] == covered_until(line@, listed, w as int, 0, k),
        decreases words.len() - w,
    {
        let word = &words[w];
        proof {
            assert(listed[w as int] == word@);
            assert(listed[w as int].len() <= line@.len());
        }
        let rev_word = reversed(word.as_slice());
        let ends: usize = line.len() - word.len() + 1;
        let mut s: usize = 0;
        while s < ends
            invariant
                s <= ends,
                ends == line@.len() - word@.len() + 1,
                line@.len() < u32::MAX,
                word@.len() <= line@.len(),
                w < words.len(),
                listed == rows_view(words@),
                listed[w as int] == word@,
                rev_word@ == word@.reverse(),
                flagged@.len() == line@.len(),
                forall|k: int|
                    0 <= k < line@.len() ==> flagged@[k] == covered_until(
                        line@,
                        listed,
                        w as int,
                        s as int,
                        k,
                    ),
            decreases ends - s,
        {
            if is_at(line, word.as_slice(), s) || is_at(line, rev_word.as_slice(), s) {
                proof {
                    assert(hits(line@, listed[w as int], s as int));
                    assert(s + word@.len() <= line@.len());
                }
                let stop: usize = s + word.len();
                let mut j: usize = s;
                while j < stop
                    invariant
                        s <= j <= stop,
                        stop == s + word@.len(),
                        s + word@.len() <= line@.len(),
                        flagged@.len() == line@.len(),
                        forall|k: int|
                            0 <= k < line@.len() ==> flagged@[k] == (covered_until(
                                line@,
                                listed,
                                w as int,
                                s as int,
                                k,
                            ) || s <= k < j),
                    decreases stop - j,
                {
                    flagged[j] = true;
                    j += 1;
                }
                proof {
                    assert forall|k: int| 0 <= k < line@.len() implies flagged@[k]
                        == covered_until(line@, listed, w as int, s + 1, k) by {
                        if covered_until(line@, listed, w as int, s + 1, k) {
                            let (a, b) = choose|a: int, b: int|
                                0 <= a < listed.len() && #[trigger] hits(line@, listed[a], b)
                                    && b <= k < b + listed[a].len() && (a < w || (a == w && b < s
                                    + 1));
                            if !(a == w && b == s) {
                                assert(hits(line@, listed[a], b));
                                assert(covered_until(line@, listed, w as int, s as int, k));
                            }
                        }
                        if covered_until(line@, listed, w as int, s as int, k) {
                            let (a, b) = choose|a: int, b: int|
                                0 <= a < listed.len() && #[trigger] hits(line@, listed[a], b)
                                    && b <= k < b + listed[a].len() && (a < w || (a == w && b
                                    < s));
                            assert(hits(line@, listed[a], b));
                        }
                    }
                }
            } else {
                proof {
                    assert(!hits(line@, listed[w as int], s as int));
                    assert forall|k: int| 0 <= k < line@.len() implies flagged@[k]
                        == covered_until(line@, listed, w as int, s + 1, k) by {
                        if covered_until(line@, listed, w as int, s + 1, k) {
                            let (a, b) = choose|a: int, b: int|
                                0 <= a < listed.len() && #[trigger] hits(line@, listed[a], b)
                                    && b <= k < b + listed[a].len() && (a < w || (a == w && b < s
                                    + 1));
                            assert(hits(line@, listed[a], b));
                            assert(covered_until(line@, listed, w as int, s as int, k));
                        }
                        if covered_until(line@, listed, w as int, s as int, k) {
                            let (a, b) = choose|a: int, b: int|
                                0 <= a < listed.len() && #[trigger] hits(line@, listed[a], b)
                                    && b <= k < b + listed[a].len() && (a < w || (a == w && b
                                    < s));
                            assert(hits(line@, listed[a], b));
                        }
                    }
                }
            }
            s += 1;
        }
        proof {
            assert forall|k: int| 0 <= k < line@.len() implies flagged@[k] == covered_until(
                line@,
                listed,
                w + 1,
                0,
                k,
            ) by {
                if covered_until(line@, listed, w + 1, 0, k) {
                    let (a, b) = choose|a: int, b: int|
                        0 <= a < listed.len() && #[trigger] hits(line@, listed[a], b) && b <= k < b
                            + listed[a].len() && (a < w + 1 || (a == w + 1 && b < 0));
                    assert(hits(line@, listed[a], b));
                    assert(listed[w as int].reverse().len() == listed[w as int].len());
                    assert(covered_until(line@, listed, w as int, ends as int, k));
                }
                if covered_until(line@, listed, w as int, ends as int, k) {
                    let (a, b) = choose|a: int, b: int|
                        0 <= a < listed.len() && #[trigger] hits(line@, listed[a], b) && b <= k < b
                            + listed[a].len() && (a < w || (a == w && b < ends));
                    assert(hits(line@, listed[a], b));
                }
            }
        }
        w += 1;
    }

    let mut count: u32 = 0;
    let mut i: usize = 0;
    while i < flagged.len()
        invariant
            i <= flagged.len(),
            flagged@.len() == line@.len(),
            line@.len() < u32::MAX,
            forall|k: int| 0 <= k < line@.len() ==> flagged@[k] == covered(line@, listed, k),
            count == runes_covered(line@, listed, i as nat),
        decreases flagged.len() - i,
    {
        proof {
            lemma_runes_covered_bounded(line@, listed, i as nat);
        }
        if flagged[i] {
            count += 1;
        }
        i += 1;
    }
    count
}

/// All words fit all lines.
pub open spec fn all_fit(texts: Seq<Seq<char>>, words: Seq<Seq<char>>) -> bool {
    forall|n: int|
        0 <= n < texts.len() ==> words_fit(#[trigger] texts[n], words) && texts[n].len()
            < u32::MAX
}

/// The runes covered in the first `n` lines of `texts`, summed up.
pub open spec fn all_covered(texts: Seq<Seq<char>>, words: Seq<Seq<char>>, n: nat) -> nat
    decreases n,
{
    if n == 0 {
        0
    } else {
        all_covered(texts, words, (n - 1) as nat) + runes_covered(
            texts[n - 1],
            words,
            texts[n - 1].len(),
        )
    }
}

/// Sums never shrink as more lines are counted.
pub proof fn lemma_all_covered_grow(texts: Seq<Seq<char>>, words: Seq<Seq<char>>, m: nat, n: nat)
    requires
        m <= n,
    ensures
        all_covered(texts, words, m) <= all_covered(texts, words, n),
    decreases n,
{
    if m < n {
        lemma_all_covered_grow(texts, words, m, (n - 1) as nat);
    }
}

/// How many runes of the inscription in `input` belong to one of the words
/// that it lists, standing forwards or backwards in a line.
pub fn part2(input: &str) -> (r: u32)
    requires
        is_plain(input@),
        lines(input@).len() >= 2,
        all_fit(texts_of(lines(input@)), words_of(lines(input@))),
        all_covered(
            texts_of(lines(input@)),
            words_of(lines(input@)),
            texts_of(lines(input@)).len(),
        ) <= u32::MAX,
    ensures
        r == all_covered(
            texts_of(lines(input@)),
            words_of(lines(input@)),
            texts_of(lines(input@)).len(),
        ),
{
    let (words, texts) = parse(input);
    let ghost listed = words_of(lines(input@));
    let ghost inscribed = texts_of(lines(input@));
    let mut total: u32 = 0;
    let mut n: usize = 0;
    while n < texts.len()
        invariant
            n <= texts.len(),
            listed == rows_view(words@),
            inscribed == rows_view(texts@),
            all_fit(inscribed, listed),
            all_covered(inscribed, listed, inscribed.len()) <= u32::MAX,
            total == all_covered(inscribed, listed, n as nat),
        decreases texts.len() - n,
    {
        proof {
            assert(inscribed[n as int] == texts@[n as int]@);
            assert(words_fit(inscribed[n as int], listed));
            lemma_all_covered_grow(inscribed, listed, (n + 1) as nat, inscribed.len());
        }
        total += matching_chars(texts[n].as_slice(), &words);
        n += 1;
    }
    total
}

/// `seg` is one of `words`, read forwards or backwards.
pub open spec fn in_words(words: Seq<Seq<char>>, seg: Seq<char>) -> bool {
    exists|k: int| 0 <= k < words.len() && (#[trigger] words[k] == seg || words[k].reverse() == seg)
}

/// The `len` runes of row `y` from `x0` on to the right, going on at the
/// left where the row ends: the scales go round the armour.
pub open spec fn row_seg(grid: Seq<Seq<char>>, y: int, x0: int, len: int) -> Seq<char> {
    Seq::new(len as nat, |k: int| grid[y][(x0 + k) % (grid[0].len() as int)])
}

/// The `len` runes of column `x` from `y0` on downwards.
pub open spec fn col_seg(grid: Seq<Seq<char>>, x: int, y0: int, len: int) -> Seq<char> {
    Seq::new(len as nat, |k: int| grid[y0 + k][x])
}

/// The place `x` is one of the `len` places from `x0` on, going round.
pub open spec fn goes_round_to(width: int, x0: int, len: int, x: int) -> bool {
    exists|m: int| 0 <= m < len && #[trigger] round(width, x0 + m) == x
}

/// The place that `v` comes to on a row that is `width` wide.
pub open spec fn round(width: int, v: int) -> int {
    v % width
}

/// A word of `len` runes stands in row `y` from `x0` on, and covers `x`.
pub open spec fn row_word(
    grid: Seq<Seq<char>>,
    words: Seq<Seq<char>>,
    y: int,
    x0: int,
    len: int,
    x: int,
) -> bool {
    &&& 1 <= len
    &&& in_words(words, row_seg(grid, y, x0, len))
    &&& goes_round_to(grid[0].len() as int, x0, len, x)
}

/// A word of `len` runes stands in column `x` from `y0` on, and covers `y`.
pub open spec fn col_word(
    grid: Seq<Seq<char>>,
    words: Seq<Seq<char>>,
    x: int,
    y0: int,
    len: int,
    y: int,
) -> bool {
    &&& 0 <= y0
    &&& 1 <= len
    &&& y0 + len <= grid.len()
    &&& in_words(words, col_seg(grid, x, y0, len))
    &&& y0 <= y < y0 + len
}

/// The scale at `(x, y)` bears a rune of a word: one that stands in its
/// row, going round, or in its column, forwards or backwards.
pub open spec fn scale(grid: Seq<Seq<char>>, words: Seq<Seq<char>>, y: int, x: int) -> bool {
    ||| exists|x0: int, len: int|
        0 <= x0 < grid[0].len() && #[trigger] row_word(grid, words, y, x0, len, x)
    ||| exists|y0: int, len: int| #[trigger] col_word(grid, words, x, y0, len, y)
}

/// `(y0, x0)` comes before `(py, px)` in reading order.
pub open spec fn earlier(y0: int, x0: int, py: int, px: int) -> bool {
    y0 < py || (y0 == py && x0 < px)
}

/// The scale at `(c, r)` bears a rune of a word that the search has found
/// by the time it stands at `(px, py)`: it has looked at every word that
/// starts before, at the words in the row from there of `pl` runes at most
/// while `down` is not set, and else at all words in the row from there
/// and at those in the column of `pl` runes at most.
pub open spec fn painted(
    grid: Seq<Seq<char>>,
    words: Seq<Seq<char>>,
    py: int,
    px: int,
    down: bool,
    pl: int,
    r: int,
    c: int,
) -> bool {
    ||| exists|x0: int, len: int|
        0 <= x0 < grid[0].len() && #[trigger] row_word(grid, words, r, x0, len, c) && (earlier(
            r,
            x0,
            py,
            px,
        ) || (r == py && x0 == px && (down || len <= pl)))
    ||| exists|y0: int, len: int|
        #[trigger] col_word(grid, words, c, y0, len, r) && (earlier(y0, c, py, px) || (y0 == py
            && c == px && down && len <= pl))
}

/// Every word is `widest` runes long at most.
pub open spec fn none_longer(words: Seq<Seq<char>>, widest: int) -> bool {
    forall|k: int| 0 <= k < words.len() ==> (#[trigger] words[k]).len() <= widest
}

/// What is one of the words is no longer than the longest of them.
pub proof fn lemma_in_words_len(words: Seq<Seq<char>>, widest: int, seg: Seq<char>)
    requires
        none_longer(words, widest),
        in_words(words, seg),
    ensures
        seg.len() <= widest,
{
    let k = choose|k: int|
        0 <= k < words.len() && (#[trigger] words[k] == seg || words[k].reverse() == seg);
    assert(words[k].len() <= widest);
    assert(words[k].reverse().len() == words[k].len());
}

/// Before the search begins nothing is painted.
pub proof fn lemma_painted_none(grid: Seq<Seq<char>>, words: Seq<Seq<char>>, r: int, c: int)
    requires
        0 <= r,
        0 <= c,
    ensures
        !painted(grid, words, 0, 0, false, 0, r, c),
{
}

/// Looking at the words of one rune more in the row paints what they
/// cover.
pub proof fn lemma_painted_row(
    grid: Seq<Seq<char>>,
    words: Seq<Seq<char>>,
    py: int,
    px: int,
    pl: int,
    r: int,
    c: int,
)
    requires
        0 <= px < grid[0].len(),
    ensures
        painted(grid, words, py, px, false, pl + 1, r, c) == (painted(
            grid,
            words,
            py,
            px,
            false,
            pl,
            r,
            c,
        ) || (r == py && row_word(grid, words, py, px, pl + 1, c))),
{
    if painted(grid, words, py, px, false, pl + 1, r, c) {
        if exists|x0: int, len: int|
            0 <= x0 < grid[0].len() && #[trigger] row_word(grid, words, r, x0, len, c) && (earlier(
                r,
                x0,
                py,
                px,
            ) || (r == py && x0 == px && len <= pl + 1)) {
            let (x0, len) = choose|x0: int, len: int|
                0 <= x0 < grid[0].len() && #[trigger] row_word(grid, words, r, x0, len, c) && (
                earlier(r, x0, py, px) || (r == py && x0 == px && len <= pl + 1));
            assert(row_word(grid, words, r, x0, len, c));
        } else {
            let (y0, len) = choose|y0: int, len: int|
                #[trigger] col_word(grid, words, c, y0, len, r) && earlier(y0, c, py, px);
            assert(col_word(grid, words, c, y0, len, r));
        }
    }
    if painted(grid, words, py, px, false, pl, r, c) {
        if exists|x0: int, len: int|
            0 <= x0 < grid[0].len() && #[trigger] row_word(grid, words, r, x0, len, c) && (earlier(
                r,
                x0,
                py,
                px,
            ) || (r == py && x0 == px && len <= pl)) {
            let (x0, len) = choose|x0: int, len: int|
                0 <= x0 < grid[0].len() && #[trigger] row_word(grid, words, r, x0, len, c) && (
                earlier(r, x0, py, px) || (r == py && x0 == px && len <= pl));
            assert(row_word(grid, words, r, x0, len, c));
        } else {
            let (y0, len) = choose|y0: int, len: int|
                #[trigger] col_word(grid, words, c, y0, len, r) && earlier(y0, c, py, px);
            assert(col_word(grid, words, c, y0, len, r));
        }
    }
}

/// Once the words of every length have been looked at in the row, the row
/// is done, and nothing has been looked at in the column.
pub proof fn lemma_painted_turn(
    grid: Seq<Seq<char>>,
    words: Seq<Seq<char>>,
    widest: int,
    py: int,
    px: int,
    r: int,
    c: int,
)
    requires
        none_longer(words, widest),
    ensures
        painted(grid, words, py, px, false, widest, r, c) == painted(
            grid,
            words,
            py,
            px,
            true,
            0,
            r,
            c,
        ),
{
    if painted(grid, words, py, px, true, 0, r, c) {
        if exists|x0: int, len: int|
            0 <= x0 < grid[0].len() && #[trigger] row_word(grid, words, r, x0, len, c) && (earlier(
                r,
                x0,
                py,
                px,
            ) || (r == py && x0 == px)) {
            let (x0, len) = choose|x0: int, len: int|
                0 <= x0 < grid[0].len() && #[trigger] row_word(grid, words, r, x0, len, c) && (
                earlier(r, x0, py, px) || (r == py && x0 == px));
            lemma_in_words_len(words, widest, row_seg(grid, r, x0, len));
            assert(row_word(grid, words, r, x0, len, c));
        } else {
            let (y0, len) = choose|y0: int, len: int|
                #[trigger] col_word(grid, words, c, y0, len, r) && (earlier(y0, c, py, px) || (y0
                    == py && c == px && len <= 0));
            assert(col_word(grid, words, c, y0, len, r));
        }
    }
    if painted(grid, words, py, px, false, widest, r, c) {
        if exists|x0: int, len: int|
            0 <= x0 < grid[0].len() && #[trigger] row_word(grid, words, r, x0, len, c) && (earlier(
                r,
                x0,
                py,
                px,
            ) || (r == py && x0 == px && len <= widest)) {
            let (x0, len) = choose|x0: int, len: int|
                0 <= x0 < grid[0].len() && #[trigger] row_word(grid, words, r, x0, len, c) && (
                earlier(r, x0, py, px) || (r == py && x0 == px && len <= widest));
            assert(row_word(grid, words, r, x0, len, c));
        } else {
            let (y0, len) = choose|y0: int, len: int|
                #[trigger] col_word(grid, words, c, y0, len, r) && earlier(y0, c, py, px);
            assert(col_word(grid, words, c, y0, len, r));
        }
    }
}

/// Looking at the words of one rune more in the column paints what they
/// cover.
pub proof fn lemma_painted_col(
    grid: Seq<Seq<char>>,
    words: Seq<Seq<char>>,
    py: int,
    px: int,
    pl: int,
    r: int,
    c: int,
)
    ensures
        painted(grid, words, py, px, true, pl + 1, r, c) == (painted(
            grid,
            words,
            py,
            px,
            true,
            pl,
            r,
            c,
        ) || (c == px && col_word(grid, words, px, py, pl + 1, r))),
{
    if painted(grid, words, py, px, true, pl + 1, r, c) {
        if exists|x0: int, len: int|
            0 <= x0 < grid[0].len() && #[trigger] row_word(grid, words, r, x0, len, c) && (earlier(
                r,
                x0,
                py,
                px,
            ) || (r == py && x0 == px)) {
            let (x0, len) = choose|x0: int, len: int|
                0 <= x0 < grid[0].len() && #[trigger] row_word(grid, words, r, x0, len, c) && (
                earlier(r, x0, py, px) || (r == py && x0 == px));
            assert(row_word(grid, words, r, x0, len, c));
        } else {
            let (y0, len) = choose|y0: int, len: int|
                #[trigger] col_word(grid, words, c, y0, len, r) && (earlier(y0, c, py, px) || (y0
                    == py && c == px && len <= pl + 1));
            assert(col_word(grid, words, c, y0, len, r));
        }
    }
    if painted(grid, words, py, px, true, pl, r, c) {
        if exists|x0: int, len: int|
            0 <= x0 < grid[0].len() && #[trigger] row_word(grid, words, r, x0, len, c) && (earlier(
                r,
                x0,
                py,
                px,
            ) || (r == py && x0 == px)) {
            let (x0, len) = choose|x0: int, len: int|
                0 <= x0 < grid[0].len() && #[trigger] row_word(grid, words, r, x0, len, c) && (
                earlier(r, x0, py, px) || (r == py && x0 == px));
            assert(row_word(grid, words, r, x0, len, c));
        } else {
            let (y0, len) = choose|y0: int, len: int|
                #[trigger] col_word(grid, words, c, y0, len, r) && (earlier(y0, c, py, px) || (y0
                    == py && c == px && len <= pl));
            assert(col_word(grid, words, c, y0, len, r));
        }
    }
}

/// Once the words of every length that fits have been looked at in the
/// column, the search goes on to the next place.
pub proof fn lemma_painted_next(
    grid: Seq<Seq<char>>,
    words: Seq<Seq<char>>,
    widest: int,
    py: int,
    px: int,
    pl: int,
    r: int,
    c: int,
)
    requires
        none_longer(words, widest),
        pl >= widest || py + pl >= grid.len(),
    ensures
        painted(grid, words, py, px, true, pl, r, c) == painted(
            grid,
            words,
            py,
            px + 1,
            false,
            0,
            r,
            c,
        ),
{
    if painted(grid, words, py, px + 1, false, 0, r, c) {
        if exists|x0: int, len: int|
            0 <= x0 < grid[0].len() && #[trigger] row_word(grid, words, r, x0, len, c) && (earlier(
                r,
                x0,
                py,
                px + 1,
            ) || (r == py && x0 == px + 1 && len <= 0)) {
            let (x0, len) = choose|x0: int, len: int|
                0 <= x0 < grid[0].len() && #[trigger] row_word(grid, words, r, x0, len, c) && (
                earlier(r, x0, py, px + 1) || (r == py && x0 == px + 1 && len <= 0));
            assert(row_word(grid, words, r, x0, len, c));
        } else {
            let (y0, len) = choose|y0: int, len: int|
                #[trigger] col_word(grid, words, c, y0, len, r) && earlier(y0, c, py, px + 1);
            lemma_in_words_len(words, widest, col_seg(grid, c, y0, len));
            assert(col_word(grid, words, c, y0, len, r));
        }
    }
    if painted(grid, words, py, px, true, pl, r, c) {
        if exists|x0: int, len: int|
            0 <= x0 < grid[0].len() && #[trigger] row_word(grid, words, r, x0, len, c) && (earlier(
                r,
                x0,
                py,
                px,
            ) || (r == py && x0 == px)) {
            let (x0, len) = choose|x0: int, len: int|
                0 <= x0 < grid[0].len() && #[trigger] row_word(grid, words, r, x0, len, c) && (
                earlier(r, x0, py, px) || (r == py && x0 == px));
            assert(row_word(grid, words, r, x0, len, c));
        } else {
            let (y0, len) = choose|y0: int, len: int|
                #[trigger] col_word(grid, words, c, y0, len, r) && (earlier(y0, c, py, px) || (y0
                    == py && c == px && len <= pl));
            assert(col_word(grid, words, c, y0, len, r));
        }
    }
}

/// At the end of a row the search goes on to the start of the next.
pub proof fn lemma_painted_row_end(
    grid: Seq<Seq<char>>,
    words: Seq<Seq<char>>,
    py: int,
    r: int,
    c: int,
)
    requires
        0 <= c < grid[0].len(),
    ensures
        painted(grid, words, py, grid[0].len() as int, false, 0, r, c) == painted(
            grid,
            words,
            py + 1,
            0,
            false,
            0,
            r,
            c,
        ),
{
    let width = grid[0].len() as int;
    if painted(grid, words, py, width, false, 0, r, c) {
        if exists|x0: int, len: int|
            0 <= x0 < grid[0].len() && #[trigger] row_word(grid, words, r, x0, len, c) && (earlier(
                r,
                x0,
                py,
                width,
            ) || (r == py && x0 == width && len <= 0)) {
            let (x0, len) = choose|x0: int, len: int|
                0 <= x0 < grid[0].len() && #[trigger] row_word(grid, words, r, x0, len, c) && (
                earlier(r, x0, py, width) || (r == py && x0 == width && len <= 0));
            assert(row_word(grid, words, r, x0, len, c));
        } else {
            let (y0, len) = choose|y0: int, len: int|
                #[trigger] col_word(grid, words, c, y0, len, r) && earlier(y0, c, py, width);
            assert(col_word(grid, words, c, y0, len, r));
        }
    }
    if painted(grid, words, py + 1, 0, false, 0, r, c) {
        if exists|x0: int, len: int|
            0 <= x0 < grid[0].len() && #[trigger] row_word(grid, words, r, x0, len, c) && (earlier(
                r,
                x0,
                py + 1,
                0,
            ) || (r == py + 1 && x0 == 0 && len <= 0)) {
            let (x0, len) = choose|x0: int, len: int|
                0 <= x0 < grid[0].len() && #[trigger] row_word(grid, words, r, x0, len, c) && (
                earlier(r, x0, py + 1, 0) || (r == py + 1 && x0 == 0 && len <= 0));
            assert(row_word(grid, words, r, x0, len, c));
        } else {
            let (y0, len) = choose|y0: int, len: int|
                #[trigger] col_word(grid, words, c, y0, len, r) && earlier(y0, c, py + 1, 0);
            assert(col_word(grid, words, c, y0, len, r));
        }
    }
}

/// When the search has gone through all rows, all scales that bear a rune
/// of a word are painted.
pub proof fn lemma_painted_all(grid: Seq<Seq<char>>, words: Seq<Seq<char>>, r: int, c: int)
    requires
        0 <= r < grid.len(),
    ensures
        painted(grid, words, grid.len() as int, 0, false, 0, r, c) == scale(grid, words, r, c),
{
    let height = grid.len() as int;
    if scale(grid, words, r, c) {
        if exists|x0: int, len: int|
            0 <= x0 < grid[0].len() && #[trigger] row_word(grid, words, r, x0, len, c) {
            let (x0, len) = choose|x0: int, len: int|
                0 <= x0 < grid[0].len() && #[trigger] row_word(grid, words, r, x0, len, c);
            assert(row_word(grid, words, r, x0, len, c));
        } else {
            let (y0, len) = choose|y0: int, len: int|
                #[trigger] col_word(grid, words, c, y0, len, r);
            assert(col_word(grid, words, c, y0, len, r));
            assert(earlier(y0, c, height, 0));
        }
    }
}

/// `marks` holds a mark for each scale of an armour `height` high and
/// `width` wide.
pub open spec fn marks_shape(marks: Seq<Vec<bool>>, height: int, width: int) -> bool {
    marks.len() == height && forall|r: int| 0 <= r < height ==> (#[trigger] marks[r])@.len() == width
}

/// Marks the `len` scales of row `y` from `x0` on, going round.
fn mark_row(marks: &mut Vec<Vec<bool>>, y: usize, x0: usize, len: usize, width: usize)
    requires
        marks_shape(old(marks)@, old(marks)@.len() as int, width as int),
        y < old(marks)@.len(),
        width > 0,
        x0 + len <= usize::MAX,
    ensures
        marks_shape(final(marks)@, old(marks)@.len() as int, width as int),
        forall|r: int, c: int|
            0 <= r < old(marks)@.len() && 0 <= c < width ==> #[trigger] final(marks)@[r]@[c] == (
            old(marks)@[r]@[c] || (r == y && goes_round_to(width as int, x0 as int, len as int, c))),
{
    let ghost before = marks@;
    let ghost height = marks@.len() as int;
    let mut m: usize = 0;
    while m < len
        invariant
            m <= len,
            x0 + len <= usize::MAX,
            width > 0,
            y < height,
            height == before.len(),
            marks_shape(before, height, width as int),
            marks_shape(marks@, height, width as int),
            forall|r: int, c: int|
                0 <= r < height && 0 <= c < width ==> #[trigger] marks@[r]@[c] == (before[r]@[c]
                    || (r == y && goes_round_to(width as int, x0 as int, m as int, c))),
        decreases len - m,
    {
        let at = (x0 + m) % width;
        let ghost held = marks@;
        marks[y][at] = true;
        proof {
            assert(round(width as int, x0 + m) == at);
            assert forall|r: int, c: int| 0 <= r < height && 0 <= c < width implies #[trigger] marks@[r]@[c]
                == (before[r]@[c] || (r == y && goes_round_to(
                width as int,
                x0 as int,
                m + 1,
                c,
            ))) by {
                assert(held[r]@[c] == (before[r]@[c] || (r == y && goes_round_to(
                    width as int,
                    x0 as int,
                    m as int,
                    c,
                ))));
                if goes_round_to(width as int, x0 as int, m + 1, c) {
                    let k = choose|k: int| 0 <= k < m + 1 && #[trigger] round(width as int, x0 + k) == c;
                    if k < m {
                        assert(round(width as int, x0 + k) == c);
                    }
                }
                if goes_round_to(width as int, x0 as int, m as int, c) {
                    let k = choose|k: int| 0 <= k < m && #[trigger] round(width as int, x0 + k) == c;
                    assert(round(width as int, x0 + k) == c);
                }
                if r == y && c == at {
                    assert(round(width as int, x0 + m) == c);
                }
            }
            assert(marks_shape(marks@, height, width as int)) by {
                assert forall|r: int| 0 <= r < height implies (#[trigger] marks@[r])@.len()
                    == width by {
                    assert(held[r]@.len() == width);
                }
            }
        }
        m += 1;
    }
}

/// Marks the `len` scales of column `x` from `y0` on downwards.
fn mark_column(marks: &mut Vec<Vec<bool>>, x: usize, y0: usize, len: usize, width: usize)
    requires
        marks_shape(old(marks)@, old(marks)@.len() as int, width as int),
        x < width,
        y0 + len <= old(marks)@.len(),
    ensures
        marks_shape(final(marks)@, old(marks)@.len() as int, width as int),
        forall|r: int, c: int|
            0 <= r < old(marks)@.len() && 0 <= c < width ==> #[trigger] final(marks)@[r]@[c] == (
            old(marks)@[r]@[c] || (c == x && y0 <= r < y0 + len)),
{
    let ghost before = marks@;
    let ghost height = marks@.len() as int;
    assert(height == marks.len());
    let mut m: usize = 0;
    while m < len
        invariant
            m <= len,
            x < width,
            y0 + len <= height,
            height <= usize::MAX,
            height == before.len(),
            marks_shape(before, height, width as int),
            marks_shape(marks@, height, width as int),
            forall|r: int, c: int|
                0 <= r < height && 0 <= c < width ==> #[trigger] marks@[r]@[c] == (before[r]@[c]
                    || (c == x && y0 <= r < y0 + m)),
        decreases len - m,
    {
        let ghost held = marks@;
        marks[y0 + m][x] = true;
        proof {
            assert forall|r: int, c: int| 0 <= r < height && 0 <= c < width implies #[trigger] marks@[r]@[c]
                == (before[r]@[c] || (c == x && y0 <= r < y0 + m + 1)) by {
                assert(held[r]@[c] == (before[r]@[c] || (c == x && y0 <= r < y0 + m)));
            }
            assert(marks_shape(marks@, height, width as int)) by {
                assert forall|r: int| 0 <= r < height implies (#[trigger] marks@[r])@.len()
                    == width by {
                    assert(held[r]@.len() == width);
                }
            }
        }
        m += 1;
    }
}

/// Whether `seg` is one of `words`, read forwards or backwards; `back`
/// holds the words read backwards.
fn is_word(words: &Vec<Vec<char>>, back: &Vec<Vec<char>>, seg: &[char]) -> (b: bool)
    requires
        back@.len() == words@.len(),
        forall|k: int| 0 <= k < words@.len() ==> (#[trigger] back@[k])@ == words@[k]@.reverse(),
    ensures
        b == in_words(rows_view(words@), seg@),
{
    let ghost listed = rows_view(words@);
    let mut k: usize = 0;
    while k < words.len()
        invariant
            k <= words.len(),
            listed == rows_view(words@),
            back@.len() == words@.len(),
            forall|j: int| 0 <= j < words@.len() ==> (#[trigger] back@[j])@ == words@[j]@.reverse(),
            forall|j: int|
                0 <= j < k ==> !((#[trigger] listed[j]) == seg@ || listed[j].reverse() == seg@),
        decreases words.len() - k,
    {
        proof {
            assert(listed[k as int] == words@[k as int]@);
            assert(back@[k as int]@ == words@[k as int]@.reverse());
        }
        if same_text(words[k].as_slice(), seg) || same_text(
            back[k].as_slice(),
            seg,
        ) {
            return true;
        }
        k += 1;
    }
    false
}

/// How many of the first `n` scales of row `y` bear a rune of a word.
pub open spec fn scales_in_row(grid: Seq<Seq<char>>, words: Seq<Seq<char>>, y: int, n: nat) -> nat
    decreases n,
{
    if n == 0 {
        0
    } else {
        scales_in_row(grid, words, y, (n - 1) as nat) + if scale(grid, words, y, n - 1) {
            1nat
        } else {
            0nat
        }
    }
}

/// How many scales of the first `m` rows bear a rune of a word.
pub open spec fn scales_in(grid: Seq<Seq<char>>, words: Seq<Seq<char>>, m: nat) -> nat
    decreases m,
{
    if m == 0 {
        0
    } else {
        scales_in(grid, words, (m - 1) as nat) + scales_in_row(grid, words, m - 1, grid[0].len())
    }
}

/// No more scales of a row bear a rune than it has.
pub proof fn lemma_scales_in_row_bounded(
    grid: Seq<Seq<char>>,
    words: Seq<Seq<char>>,
    y: int,
    n: nat,
)
    ensures
        scales_in_row(grid, words, y, n) <= n,
    decreases n,
{
    if n > 0 {
        lemma_scales_in_row_bounded(grid, words, y, (n - 1) as nat);
    }
}

/// Sums never shrink as more rows are counted.
pub proof fn lemma_scales_in_grow(grid: Seq<Seq<char>>, words: Seq<Seq<char>>, m: nat, n: nat)
    requires
        m <= n,
    ensures
        scales_in(grid, words, m) <= scales_in(grid, words, n),
    decreases n,
{
    if m < n {
        lemma_scales_in_grow(grid, words, m, (n - 1) as nat);
    }
}

/// The armour can be searched: it has a row, all rows are as long, and
/// the widths and the count fit.
pub open spec fn armour_drawn(grid: Seq<Seq<char>>, words: Seq<Seq<char>>) -> bool {
    &&& grid.len() >= 1
    &&& rectangular(grid)
    &&& forall|k: int| 0 <= k < words.len() ==> grid[0].len() + (#[trigger] words[k]).len() <= usize::MAX
    &&& scales_in(grid, words, grid.len()) <= u32::MAX
}

/// How many scales of the armour drawn in `input` bear a rune of one of the
/// words that it lists, standing forwards or backwards in a row, where the
/// scales go round the armour, or in a column.
pub fn part3(input: &str) -> (r: u32)
    requires
        is_plain(input@),
        lines(input@).len() >= 2,
        armour_drawn(texts_of(lines(input@)), words_of(lines(input@))),
    ensures
        r == scales_in(
            texts_of(lines(input@)),
            words_of(lines(input@)),
            texts_of(lines(input@)).len(),
        ),
{
    let (words, grid) = parse(input);
    let ghost listed = words_of(lines(input@));
    let ghost armour = texts_of(lines(input@));
    proof {
        assert(rows_view(grid@).len() == grid@.len());
        assert(armour[0] == grid@[0]@);
    }

    // words read backwards, so that both directions are checked at once
    let mut back: Vec<Vec<char>> = Vec::new();
    let mut widest_word: usize = 0;
    let mut k: usize = 0;
    while k < words.len()
        invariant
            k <= words.len(),
            listed == rows_view(words@),
            back@.len() == k,
            forall|j: int| 0 <= j < k ==> (#[trigger] back@[j])@ == words@[j]@.reverse(),
            forall|j: int| 0 <= j < k ==> (#[trigger] listed[j]).len() <= widest_word,
            widest_word == 0 || exists|j: int| 0 <= j < k && (#[trigger] listed[j]).len() == widest_word,
        decreases words.len() - k,
    {
        proof {
            assert(listed[k as int] == words@[k as int]@);
        }
        back.push(reversed(words[k].as_slice()));
        if words[k].len() > widest_word {
            widest_word = words[k].len();
        }
        k += 1;
    }

    let height = grid.len();
    let line_width = grid[0].len();
    proof {
        assert(none_longer(listed, widest_word as int));
        if widest_word > 0 {
            let j = choose|j: int| 0 <= j < words@.len() && (#[trigger] listed[j]).len() == widest_word;
            assert(armour[0].len() + listed[j].len() <= usize::MAX);
        }
    }

    let mut marked: Vec<Vec<bool>> = Vec::new();
    let mut y: usize = 0;
    while y < height
        invariant
            y <= height,
            marked@.len() == y,
            forall|r: int| 0 <= r < y ==> (#[trigger] marked@[r])@.len() == line_width,
            forall|r: int, c: int| 0 <= r < y && 0 <= c < line_width ==> !(#[trigger] marked@[r]@[c]),
        decreases height - y,
    {
        let mut row: Vec<bool> = Vec::new();
        let mut x: usize = 0;
        while x < line_width
            invariant
                x <= line_width,
                row@.len() == x,
                forall|c: int| 0 <= c < x ==> !(#[trigger] row@[c]),
            decreases line_width - x,
        {
            row.push(false);
            x += 1;
        }
        marked.push(row);
        y += 1;
    }
    proof {
        assert forall|r: int, c: int| 0 <= r < height && 0 <= c < line_width implies #[trigger] marked@[r]@[c]
            == painted(armour, listed, 0, 0, false, 0, r, c) by {
            lemma_painted_none(armour, listed, r, c);
        }
    }

    let mut y: usize = 0;
    while y < height
        invariant
            y <= height,
            height == grid.len(),
            height >= 1,
            line_width == armour[0].len(),
            line_width + widest_word <= usize::MAX,
            armour == rows_view(grid@),
            rectangular(armour),
            listed == rows_view(words@),
            none_longer(listed, widest_word as int),
            back@.len() == words@.len(),
            forall|j: int| 0 <= j < words@.len() ==> (#[trigger] back@[j])@ == words@[j]@.reverse(),
            marks_shape(marked@, height as int, line_width as int),
            forall|r: int, c: int|
                0 <= r < height && 0 <= c < line_width ==> #[trigger] marked@[r]@[c] == painted(
                    armour,
                    listed,
                    y as int,
                    0,
                    false,
                    0,
                    r,
                    c,
                ),
        decreases height - y,
    {
        let mut x: usize = 0;
        while x < line_width
            invariant
                x <= line_width,
                y < height,
                height == grid.len(),
                line_width == armour[0].len(),
                line_width + widest_word <= usize::MAX,
                armour == rows_view(grid@),
                rectangular(armour),
                listed == rows_view(words@),
                none_longer(listed, widest_word as int),
                back@.len() == words@.len(),
                forall|j: int|
                    0 <= j < words@.len() ==> (#[trigger] back@[j])@ == words@[j]@.reverse(),
                marks_shape(marked@, height as int, line_width as int),
                forall|r: int, c: int|
                    0 <= r < height && 0 <= c < line_width ==> #[trigger] marked@[r]@[c]
                        == painted(armour, listed, y as int, x as int, false, 0, r, c),
            decreases line_width - x,
        {
            let mut slice: Vec<char> = Vec::new();
            proof {
                assert(armour[y as int] == grid@[y as int]@);
                assert(armour[y as int].len() == armour[0].len());
                assert(slice@ =~= row_seg(armour, y as int, x as int, 0));
            }

            // try right first
            let mut dx: usize = 0;
            while dx < widest_word
                invariant
                    dx <= widest_word,
                    x < line_width,
                    y < height,
                    height == grid.len(),
                    line_width == armour[0].len(),
                    line_width + widest_word <= usize::MAX,
                    armour == rows_view(grid@),
                    armour[y as int].len() == line_width,
                    listed == rows_view(words@),
                    back@.len() == words@.len(),
                    forall|j: int|
                        0 <= j < words@.len() ==> (#[trigger] back@[j])@ == words@[j]@.reverse(),
                    slice@ == row_seg(armour, y as int, x as int, dx as int),
                    marks_shape(marked@, height as int, line_width as int),
                    forall|r: int, c: int|
                        0 <= r < height && 0 <= c < line_width ==> #[trigger] marked@[r]@[c]
                            == painted(armour, listed, y as int, x as int, false, dx as int, r, c),
                decreases widest_word - dx,
            {
                proof {
                    assert(armour[y as int] == grid@[y as int]@);
                }
                let c = grid[y][(x + dx) % line_width];
                slice.push(c);
                proof {
                    assert(slice@ =~= row_seg(armour, y as int, x as int, dx + 1));
                }
                let ghost held = marked@;
                if is_word(&words, &back, slice.as_slice()) {
                    mark_row(&mut marked, y, x, dx + 1, line_width);
                }
                proof {
                    assert forall|r: int, c: int|
                        0 <= r < height && 0 <= c < line_width implies #[trigger] marked@[r]@[c]
                        == painted(armour, listed, y as int, x as int, false, dx + 1, r, c) by {
                        lemma_painted_row(armour, listed, y as int, x as int, dx as int, r, c);
                        assert(held[r]@[c] == painted(
                            armour,
                            listed,
                            y as int,
                            x as int,
                            false,
                            dx as int,
                            r,
                            c,
                        ));
                    }
                }
                dx += 1;
            }
            proof {
                assert forall|r: int, c: int|
                    0 <= r < height && 0 <= c < line_width implies #[trigger] marked@[r]@[c]
                    == painted(armour, listed, y as int, x as int, true, 0, r, c) by {
                    lemma_painted_turn(armour, listed, widest_word as int, y as int, x as int, r, c);
                }
            }

            let mut slice: Vec<char> = Vec::new();
            proof {
                assert(slice@ =~= col_seg(armour, x as int, y as int, 0));
            }

            // try down
            let mut dy: usize = 0;
            while dy < widest_word && dy < height - y
                invariant
                    dy <= widest_word,
                    dy <= height - y,
                    x < line_width,
                    y < height,
                    height == grid.len(),
                    line_width == armour[0].len(),
                    armour == rows_view(grid@),
                    rectangular(armour),
                    listed == rows_view(words@),
                    back@.len() == words@.len(),
                    forall|j: int|
                        0 <= j < words@.len() ==> (#[trigger] back@[j])@ == words@[j]@.reverse(),
                    slice@ == col_seg(armour, x as int, y as int, dy as int),
                    marks_shape(marked@, height as int, line_width as int),
                    forall|r: int, c: int|
                        0 <= r < height && 0 <= c < line_width ==> #[trigger] marked@[r]@[c]
                            == painted(armour, listed, y as int, x as int, true, dy as int, r, c),
                decreases widest_word - dy,
            {
                proof {
                    assert(armour[y + dy] == grid@[y + dy]@);
                    assert(armour[y + dy].len() == armour[0].len());
                }
                let c = grid[y + dy][x];
                slice.push(c);
                proof {
                    assert(slice@ =~= col_seg(armour, x as int, y as int, dy + 1));
                }
                let ghost held = marked@;
                let found = is_word(&words, &back, slice.as_slice());
                if found {
                    mark_column(&mut marked, x, y, dy + 1, line_width);
                }
                proof {
                    assert forall|r: int, c: int|
                        0 <= r < height && 0 <= c < line_width implies #[trigger] marked@[r]@[c]
                        == painted(armour, listed, y as int, x as int, true, dy + 1, r, c) by {
                        lemma_painted_col(armour, listed, y as int, x as int, dy as int, r, c);
                        assert(held[r]@[c] == painted(
                            armour,
                            listed,
                            y as int,
                            x as int,
                            true,
                            dy as int,
                            r,
                            c,
                        ));
                    }
                }
                dy += 1;
            }
            proof {
                assert forall|r: int, c: int|
                    0 <= r < height && 0 <= c < line_width implies #[trigger] marked@[r]@[c]
                    == painted(armour, listed, y as int, x + 1, false, 0, r, c) by {
                    lemma_painted_next(
                        armour,
                        listed,
                        widest_word as int,
                        y as int,
                        x as int,
                        dy as int,
                        r,
                        c,
                    );
                }
            }
            x += 1;
        }
        proof {
            assert forall|r: int, c: int|
                0 <= r < height && 0 <= c < line_width implies #[trigger] marked@[r]@[c]
                == painted(armour, listed, y + 1, 0, false, 0, r, c) by {
                lemma_painted_row_end(armour, listed, y as int, r, c);
            }
        }
        y += 1;
    }
    proof {
        assert forall|r: int, c: int| 0 <= r < height && 0 <= c < line_width implies #[trigger] marked@[r]@[c]
            == scale(armour, listed, r, c) by {
            lemma_painted_all(armour, listed, r, c);
        }
    }

    // count marked cells
    let mut count: u32 = 0;
    let mut y: usize = 0;
    while y < height
        invariant
            y <= height,
            height == armour.len(),
            line_width == armour[0].len(),
            marks_shape(marked@, height as int, line_width as int),
            forall|r: int, c: int|
                0 <= r < height && 0 <= c < line_width ==> #[trigger] marked@[r]@[c] == scale(
                    armour,
                    listed,
                    r,
                    c,
                ),
            scales_in(armour, listed, height as nat) <= u32::MAX,
            count == scales_in(armour, listed, y as nat),
        decreases height - y,
    {
        let mut in_row: u32 = 0;
        let mut x: usize = 0;
        proof {
            lemma_scales_in_grow(armour, listed, (y + 1) as nat, height as nat);
            lemma_scales_in_row_bounded(armour, listed, y as int, line_width as nat);
        }
        while x < line_width
            invariant
                x <= line_width,
                y < height,
                marks_shape(marked@, height as int, line_width as int),
                forall|r: int, c: int|
                    0 <= r < height && 0 <= c < line_width ==> #[trigger] marked@[r]@[c] == scale(
                        armour,
                        listed,
                        r,
                        c,
                    ),
                scales_in_row(armour, listed, y as int, line_width as nat) <= u32::MAX,
                in_row == scales_in_row(armour, listed, y as int, x as nat),
            decreases line_width - x,
        {
            proof {
                lemma_scales_in_row_grow(armour, listed, y as int, (x + 1) as nat, line_width as nat);
                assert(marked@[y as int]@[x as int] == scale(armour, listed, y as int, x as int));
            }
            if marked[y][x] {
                in_row += 1;
            }
            x += 1;
        }
        count += in_row;
        y += 1;
    }
    count
}

/// Sums never shrink as more scales are counted.
pub proof fn lemma_scales_in_row_grow(
    grid: Seq<Seq<char>>,
    words: Seq<Seq<char>>,
    y: int,
    m: nat,
    n: nat,
)
    requires
        m <= n,
    ensures
        scales_in_row(grid, words, y, m) <= scales_in_row(grid, words, y, n),
    decreases n,
{
    if m < n {
        lemma_scales_in_row_grow(grid, words, y, m, (n - 1) as nat);
    }
}

} // verus!
