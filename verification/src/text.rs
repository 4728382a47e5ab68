//! The text format of the engine's files: lines of two integers, separated by
//! white space. Edge lists are read in it, and distributions are written in
//! it, sorted by key, and read back.

use vstd::prelude::*;

verus! {

/// Why input could not be taken.
#[derive(Clone, Copy, Debug, PartialEq, Eq, Structural)]
pub enum InputError {
    /// The line with this index, counted from 0, is not a record.
    Malformed { line: usize },
    /// The three streams of a hypergraph do not hold the same groups.
    Misaligned,
    /// An edge weight does not fit in `usize`.
    Overflow,
}

/// ASCII white space: space, tab, line feed, vertical tab, form feed,
/// carriage return.
pub open spec fn is_space(b: u8) -> bool {
    b == 32 || 9 <= b <= 13
}

/// An ASCII decimal digit.
pub open spec fn is_digit(b: u8) -> bool {
    48 <= b <= 57
}

/// The number that a run of decimal digits denotes; 0 for the empty run.
pub open spec fn decimal_value(digits: Seq<u8>) -> nat
    decreases digits.len(),
{
    if digits.len() == 0 {
        0
    } else {
        (decimal_value(digits.drop_last()) * 10 + (digits.last() - 48)) as nat
    }
}

/// Every byte is a decimal digit.
pub open spec fn all_digits(digits: Seq<u8>) -> bool {
    forall|i: int| 0 <= i < digits.len() ==> is_digit(#[trigger] digits[i])
}

/// The digits of a token: the token without a leading `+`.
pub open spec fn unsigned_part(token: Seq<u8>) -> Seq<u8> {
    if token.len() > 0 && token[0] == 43 {
        token.skip(1)
    } else {
        token
    }
}

/// The number that a token denotes: an optional `+` and one or more decimal
/// digits. Anything else denotes nothing.
pub open spec fn number(token: Seq<u8>) -> Option<nat> {
    let digits = unsigned_part(token);
    if digits.len() > 0 && all_digits(digits) {
        Some(decimal_value(digits))
    } else {
        None
    }
}

/// The number that a token denotes, where it fits in `usize`.
pub open spec fn word(token: Seq<u8>) -> Option<usize> {
    match number(token) {
        Some(n) => if n <= usize::MAX {
            Some(n as usize)
        } else {
            None
        },
        None => None,
    }
}

/// The first position from `i` on that holds no white space, or the length.
pub open spec fn skip_spaces(s: Seq<u8>, i: int) -> int
    decreases s.len() - i,
{
    if 0 <= i < s.len() && is_space(s[i]) {
        skip_spaces(s, i + 1)
    } else {
        i
    }
}

/// The first position from `i` on that holds white space, or the length.
pub open spec fn token_end(s: Seq<u8>, i: int) -> int
    decreases s.len() - i,
{
    if 0 <= i < s.len() && !is_space(s[i]) {
        token_end(s, i + 1)
    } else {
        i
    }
}

/// The record of a line: its first two tokens, each a number that fits in
/// `usize`. What follows the second token is not read.
pub open spec fn pair_of(line: Seq<u8>) -> Option<(usize, usize)> {
    let a = skip_spaces(line, 0);
    let b = token_end(line, a);
    let c = skip_spaces(line, b);
    let d = token_end(line, c);
    match (word(line.subrange(a, b)), word(line.subrange(c, d))) {
        (Some(x), Some(y)) => Some((x, y)),
        _ => None,
    }
}

/// The first position from `i` on that holds a line feed, or the length.
pub open spec fn line_end(s: Seq<u8>, i: int) -> int
    decreases s.len() - i,
{
    if 0 <= i < s.len() && s[i] != 10 {
        line_end(s, i + 1)
    } else {
        i
    }
}

/// The pieces of `s` from `i` on that line feeds separate.
pub open spec fn pieces_from(s: Seq<u8>, i: int) -> Seq<Seq<u8>>
    decreases s.len() - i,
{
    let p = line_end(s, i);
    if 0 <= i <= p < s.len() {
        seq![s.subrange(i, p)] + pieces_from(s, p + 1)
    } else {
        seq![s.subrange(i, s.len() as int)]
    }
}

/// The lines of a text. A line ends at a line feed or at the end of the text;
/// a line feed at the end of the text ends the last line and begins no other.
pub open spec fn lines_of(text: Seq<u8>) -> Seq<Seq<u8>> {
    if text.len() == 0 {
        Seq::empty()
    } else if text.last() == 10 {
        pieces_from(text.drop_last(), 0)
    } else {
        pieces_from(text, 0)
    }
}

/// What the first `n` lines hold: their records in order, or the index of
/// the first line among them that is no record.
pub open spec fn records_of(lines: Seq<Seq<u8>>, n: int) -> Result<Seq<(usize, usize)>, InputError>
    decreases n,
{
    if n <= 0 {
        Ok(Seq::empty())
    } else {
        match records_of(lines, n - 1) {
            Err(e) => Err(e),
            Ok(before) => match pair_of(lines[n - 1]) {
                Some(pair) => Ok(before.push(pair)),
                None => Err(InputError::Malformed { line: (n - 1) as usize }),
            },
        }
    }
}

/// What a text of records holds: the records of its lines in order, or the
/// index of the first line that is no record.
pub open spec fn parsed(text: Seq<u8>) -> Result<Seq<(usize, usize)>, InputError> {
    records_of(lines_of(text), lines_of(text).len() as int)
}

/// The decimal digits of `n`, without leading zeros.
pub open spec fn digits_of(n: nat) -> Seq<u8>
    decreases n,
{
    if n < 10 {
        seq![(48 + n) as u8]
    } else {
        digits_of(n / 10).push((48 + n % 10) as u8)
    }
}

/// The line of a record: the two numbers with a space between them.
pub open spec fn line_of(pair: (usize, usize)) -> Seq<u8> {
    digits_of(pair.0 as nat) + seq![32u8] + digits_of(pair.1 as nat)
}

/// The text of the first `n` records: their lines, with a line feed between
/// each two.
pub open spec fn rendered_upto(entries: Seq<(usize, usize)>, n: int) -> Seq<u8>
    decreases n,
{
    if n <= 0 {
        Seq::empty()
    } else if n == 1 {
        line_of(entries[0])
    } else {
        rendered_upto(entries, n - 1) + seq![10u8] + line_of(entries[n - 1])
    }
}

/// The text of the records.
pub open spec fn rendered(entries: Seq<(usize, usize)>) -> Seq<u8> {
    rendered_upto(entries, entries.len() as int)
}

/// Whether a byte is white space.
pub fn is_space_byte(b: u8) -> (space: bool)
    ensures
        space == is_space(b),
{
    b == 32 || (9 <= b && b <= 13)
}

/// The first position from `from` on that holds no white space.
pub fn spaces_end(line: &[u8], from: usize) -> (to: usize)
    requires
        from <= line@.len(),
    ensures
        to == skip_spaces(line@, from as int),
        from <= to <= line@.len(),
{
    let mut i = from;
    while i < line.len() && is_space_byte(line[i])
        invariant
            from <= i <= line@.len(),
            skip_spaces(line@, i as int) == skip_spaces(line@, from as int),
        decreases line@.len() - i,
    {
        i = i + 1;
    }
    i
}

/// The first position from `from` on that holds white space.
pub fn word_end(line: &[u8], from: usize) -> (to: usize)
    requires
        from <= line@.len(),
    ensures
        to == token_end(line@, from as int),
        from <= to <= line@.len(),
{
    let mut i = from;
    while i < line.len() && !is_space_byte(line[i])
        invariant
            from <= i <= line@.len(),
            token_end(line@, i as int) == token_end(line@, from as int),
        decreases line@.len() - i,
    {
        i = i + 1;
    }
    i
}

/// A longer run of digits denotes no smaller number.
pub proof fn lemma_decimal_value_grows(digits: Seq<u8>, n: int)
    requires
        0 <= n <= digits.len(),
        all_digits(digits),
    ensures
        decimal_value(digits.take(n)) <= decimal_value(digits),
    decreases digits.len() - n,
{
    if n < digits.len() {
        lemma_decimal_value_grows(digits, n + 1);
        assert(digits.take(n + 1).drop_last() =~= digits.take(n));
        assert(is_digit(digits[n]));
    } else {
        assert(digits.take(n) =~= digits);
    }
}

/// The number that a token denotes, where it fits in `usize`.
pub fn word_at(token: &[u8]) -> (value: Option<usize>)
    ensures
        value == word(token@),
{
    let n = token.len();
    let start: usize = if n > 0 && token[0] == 43 {
        1
    } else {
        0
    };
    let ghost digits = unsigned_part(token@);
    assert(digits =~= token@.skip(start as int));
    if start == n {
        return None;
    }
    let mut value: usize = 0;
    let mut i = start;
    while i < n
        invariant
            start <= i <= n,
            n == token@.len(),
            digits == token@.skip(start as int),
            digits == unsigned_part(token@),
            start < n,
            all_digits(digits.take(i - start)),
            value == decimal_value(digits.take(i - start)),
        decreases n - i,
    {
        let b = token[i];
        let ghost seen = digits.take(i - start + 1);
        proof {
            assert(seen.drop_last() =~= digits.take(i - start));
            assert(seen.last() == b);
            assert(digits[i - start] == b);
        }
        if !(48 <= b && b <= 57) {
            assert(!is_digit(digits[i - start]));
            return None;
        }
        let d = (b - 48) as usize;
        proof {
            assert forall|j: int| 0 <= j < seen.len() implies is_digit(#[trigger] seen[j]) by {
                if j < i - start {
                    assert(digits.take(i - start)[j] == seen[j]);
                }
            }
            assert(decimal_value(seen) == value * 10 + d);
            if all_digits(digits) {
                lemma_decimal_value_grows(digits, i - start + 1);
            }
        }
        match value.checked_mul(10) {
            None => {
                return None;
            },
            Some(tens) => match tens.checked_add(d) {
                None => {
                    return None;
                },
                Some(next) => {
                    value = next;
                },
            },
        }
        i = i + 1;
    }
    assert(digits.take(n - start) =~= digits);
    Some(value)
}

/// The record of a line.
pub fn pair_at(line: &[u8]) -> (pair: Option<(usize, usize)>)
    ensures
        pair == pair_of(line@),
{
    let a = spaces_end(line, 0);
    let b = word_end(line, a);
    let c = spaces_end(line, b);
    let d = word_end(line, c);
    match (word_at(&line[a..b]), word_at(&line[c..d])) {
        (Some(x), Some(y)) => Some((x, y)),
        _ => None,
    }
}

/// Once a line is no record, the text holds that error whatever follows.
pub proof fn lemma_error_stays(lines: Seq<Seq<u8>>, i: int, n: int)
    requires
        0 <= i <= n,
        records_of(lines, i) is Err,
    ensures
        records_of(lines, n) == records_of(lines, i),
    decreases n - i,
{
    if i < n {
        lemma_error_stays(lines, i, n - 1);
    }
}

/// The records of the first lines do not depend on the lines that follow.
pub proof fn lemma_records_of_prefix(a: Seq<Seq<u8>>, b: Seq<Seq<u8>>, n: int)
    requires
        0 <= n <= a.len(),
        n <= b.len(),
        forall|i: int| 0 <= i < n ==> a[i] == b[i],
    ensures
        records_of(a, n) == records_of(b, n),
    decreases n,
{
    if n > 0 {
        lemma_records_of_prefix(a, b, n - 1);
    }
}

/// The first line feed from `from` on, or the end of the text.
pub fn line_end_at(text: &[u8], from: usize) -> (to: usize)
    requires
        from <= text@.len(),
    ensures
        to == line_end(text@, from as int),
        from <= to <= text@.len(),
{
    let mut i = from;
    while i < text.len() && text[i] != 10
        invariant
            from <= i <= text@.len(),
            line_end(text@, i as int) == line_end(text@, from as int),
        decreases text@.len() - i,
    {
        i = i + 1;
    }
    i
}

/// Reads a text of records: one record on each line.
pub fn parse_pairs(text: &[u8]) -> (records: Result<Vec<(usize, usize)>, InputError>)
    ensures
        match records {
            Ok(pairs) => parsed(text@) == Ok::<Seq<(usize, usize)>, InputError>(pairs@),
            Err(e) => parsed(text@) == Err::<Seq<(usize, usize)>, InputError>(e),
        },
{
    let mut pairs: Vec<(usize, usize)> = Vec::new();
    let len = text.len();
    if len == 0 {
        return Ok(pairs);
    }
    let body = if text[len - 1] == 10 {
        &text[0..len - 1]
    } else {
        text
    };
    assert(lines_of(text@) == pieces_from(body@, 0)) by {
        if text@.last() == 10 {
            assert(body@ =~= text@.drop_last());
        }
    }
    let end = body.len();
    let mut pos: usize = 0;
    let ghost mut done: Seq<Seq<u8>> = Seq::empty();
    loop
        invariant_except_break
            pos <= end,
            end == body@.len(),
            end <= usize::MAX,
            lines_of(text@) == done + pieces_from(body@, pos as int),
            done.len() == pairs@.len(),
            done.len() <= pos,
            records_of(done, done.len() as int) == Ok::<Seq<(usize, usize)>, InputError>(pairs@),
        ensures
            lines_of(text@) == done,
            records_of(done, done.len() as int) == Ok::<Seq<(usize, usize)>, InputError>(pairs@),
        decreases end - pos,
    {
        let p = line_end_at(body, pos);
        let line = &body[pos..p];
        let ghost longer = done.push(line@);
        proof {
            lemma_records_of_prefix(done, longer, done.len() as int);
        }
        match pair_at(line) {
            None => {
                proof {
                    let all = lines_of(text@);
                    assert(all[done.len() as int] == line@);
                    lemma_records_of_prefix(longer, all, longer.len() as int);
                    lemma_error_stays(all, longer.len() as int, all.len() as int);
                }
                return Err(InputError::Malformed { line: pairs.len() });
            },
            Some(pair) => {
                pairs.push(pair);
            },
        }
        proof {
            if p < end {
                assert(done + pieces_from(body@, pos as int) =~= longer + pieces_from(
                    body@,
                    p + 1,
                ));
            } else {
                assert(done + pieces_from(body@, pos as int) =~= longer);
            }
            done = longer;
        }
        if p == end {
            break ;
        }
        pos = p + 1;
    }
    Ok(pairs)
}

/// Appends the decimal digits of `n`.
pub fn push_decimal(out: &mut Vec<u8>, n: usize)
    ensures
        final(out)@ == old(out)@ + digits_of(n as nat),
    decreases n,
{
    if n >= 10 {
        push_decimal(out, n / 10);
    }
    let digit = (48 + n % 10) as u8;
    out.push(digit);
    proof {
        if n >= 10 {
            assert(final(out)@ =~= old(out)@ + digits_of(n as nat));
        } else {
            assert(final(out)@ =~= old(out)@ + digits_of(n as nat));
        }
    }
}

/// Writes records as text: one record on each line, no line feed after the
/// last.
pub fn render_pairs(entries: &Vec<(usize, usize)>) -> (text: Vec<u8>)
    ensures
        text@ == rendered(entries@),
{
    let n = entries.len();
    let mut text: Vec<u8> = Vec::new();
    for i in 0..n
        invariant
            n == entries@.len(),
            text@ == rendered_upto(entries@, i as int),
    {
        let ghost before = text@;
        if i > 0 {
            text.push(10);
        }
        push_decimal(&mut text, entries[i].0);
        text.push(32);
        push_decimal(&mut text, entries[i].1);
        proof {
            let line = line_of(entries@[i as int]);
            if i > 0 {
                assert(text@ =~= before + seq![10u8] + line);
            } else {
                assert(text@ =~= line);
            }
        }
    }
    text
}

/// The digits of a number are digits, at least one, and denote the number.
pub proof fn lemma_digits_of(n: nat)
    ensures
        digits_of(n).len() > 0,
        all_digits(digits_of(n)),
        decimal_value(digits_of(n)) == n,
    decreases n,
{
    if n < 10 {
        let d = digits_of(n);
        assert(d.drop_last() =~= Seq::<u8>::empty());
        assert(decimal_value(d.drop_last()) == 0);
    } else {
        lemma_digits_of(n / 10);
        let d = digits_of(n);
        assert(d.drop_last() =~= digits_of(n / 10));
        assert forall|i: int| 0 <= i < d.len() implies is_digit(#[trigger] d[i]) by {
            if i < d.len() - 1 {
                assert(d[i] == digits_of(n / 10)[i]);
            }
        }
    }
}

/// A token runs to the first white space after it.
pub proof fn lemma_token_end(s: Seq<u8>, i: int, e: int)
    requires
        0 <= i <= e <= s.len(),
        forall|j: int| i <= j < e ==> !is_space(#[trigger] s[j]),
        e == s.len() || is_space(s[e]),
    ensures
        token_end(s, i) == e,
    decreases e - i,
{
    if i < e {
        lemma_token_end(s, i + 1, e);
    }
}

/// A line runs to the first line feed after it.
pub proof fn lemma_line_end(s: Seq<u8>, i: int, e: int)
    requires
        0 <= i <= e <= s.len(),
        forall|j: int| i <= j < e ==> #[trigger] s[j] != 10,
        e == s.len() || s[e] == 10,
    ensures
        line_end(s, i) == e,
    decreases e - i,
{
    if i < e {
        lemma_line_end(s, i + 1, e);
    }
}

/// The line of a record reads back as the record.
pub proof fn lemma_line_round_trip(pair: (usize, usize))
    ensures
        pair_of(line_of(pair)) == Some(pair),
        line_of(pair).len() > 0,
        forall|j: int| 0 <= j < line_of(pair).len() ==> #[trigger] line_of(pair)[j] != 10,
{
    let first = digits_of(pair.0 as nat);
    let second = digits_of(pair.1 as nat);
    let line = line_of(pair);
    lemma_digits_of(pair.0 as nat);
    lemma_digits_of(pair.1 as nat);
    let a = first.len() as int;
    assert forall|j: int| 0 <= j < line.len() implies #[trigger] line[j] != 10 && (is_space(line[j])
        <==> j == a) by {
        if j < a {
            assert(line[j] == first[j]);
            assert(is_digit(first[j]));
        } else if j > a {
            assert(line[j] == second[j - a - 1]);
            assert(is_digit(second[j - a - 1]));
        }
    }
    assert(is_digit(first[0]));
    assert(line[0] == first[0]);
    assert(skip_spaces(line, 0) == 0);
    lemma_token_end(line, 0, a);
    assert(is_space(line[a]));
    assert(line[a + 1] == second[0]);
    assert(is_digit(second[0]));
    assert(skip_spaces(line, a + 1) == a + 1);
    assert(skip_spaces(line, a) == a + 1);
    lemma_token_end(line, a + 1, line.len() as int);
    assert(line.subrange(0, a) =~= first);
    assert(line.subrange(a + 1, line.len() as int) =~= second);
    assert(unsigned_part(first) == first);
    assert(unsigned_part(second) == second);
}

/// A text that ends in a line after a line feed has the pieces of what stands
/// before the line feed, and the line.
pub proof fn lemma_pieces_with_line(s: Seq<u8>, line: Seq<u8>, i: int)
    requires
        0 <= i <= s.len(),
        forall|j: int| 0 <= j < line.len() ==> #[trigger] line[j] != 10,
    ensures
        pieces_from(s + seq![10u8] + line, i) == pieces_from(s, i).push(line),
    decreases s.len() - i,
{
    let all = s + seq![10u8] + line;
    let p = line_end(s, i);
    lemma_line_end_bounds(s, i);
    assert forall|j: int| i <= j < p implies #[trigger] all[j] != 10 by {
        lemma_line_end_before(s, i, j);
        assert(all[j] == s[j]);
    }
    if p < s.len() {
        assert(all[p] == s[p]);
        lemma_line_end(all, i, p);
        lemma_pieces_with_line(s, line, p + 1);
        assert(all.subrange(i, p) =~= s.subrange(i, p));
    } else {
        assert(all[p] == 10);
        lemma_line_end(all, i, p);
        assert forall|j: int| p + 1 <= j < all.len() implies #[trigger] all[j] != 10 by {
            assert(all[j] == line[j - p - 1]);
        }
        lemma_line_end(all, p + 1, all.len() as int);
        assert(all.subrange(i, p) =~= s.subrange(i, s.len() as int));
        assert(all.subrange(p + 1, all.len() as int) =~= line);
        assert(pieces_from(all, p + 1) =~= seq![line]);
        assert(pieces_from(all, i) =~= pieces_from(s, i).push(line));
    }
}

/// The end of a line lies between where it is looked for and the end of the
/// text, at a line feed if there is one.
pub proof fn lemma_line_end_bounds(s: Seq<u8>, i: int)
    requires
        0 <= i <= s.len(),
    ensures
        i <= line_end(s, i) <= s.len(),
        line_end(s, i) < s.len() ==> s[line_end(s, i)] == 10,
    decreases s.len() - i,
{
    if i < s.len() && s[i] != 10 {
        lemma_line_end_bounds(s, i + 1);
    }
}

/// No line feed stands before the end of a line.
pub proof fn lemma_line_end_before(s: Seq<u8>, i: int, j: int)
    requires
        0 <= i <= j < line_end(s, i),
        i <= s.len(),
    ensures
        j < s.len(),
        s[j] != 10,
    decreases s.len() - i,
{
    lemma_line_end_bounds(s, i);
    if i < j {
        lemma_line_end_before(s, i + 1, j);
    }
}

/// The text of records has one line for each record, and neither is empty
/// nor ends in a line feed where there is a record.
pub proof fn lemma_lines_of_rendered(entries: Seq<(usize, usize)>, n: int)
    requires
        0 <= n <= entries.len(),
    ensures
        lines_of(rendered_upto(entries, n)).len() == n,
        forall|i: int|
            0 <= i < n ==> #[trigger] lines_of(rendered_upto(entries, n))[i] == line_of(entries[i]),
        n > 0 ==> rendered_upto(entries, n).len() > 0 && rendered_upto(entries, n).last() != 10,
    decreases n,
{
    if n == 1 {
        let line = line_of(entries[0]);
        lemma_line_round_trip(entries[0]);
        lemma_line_end(line, 0, line.len() as int);
        assert(line.subrange(0, line.len() as int) =~= line);
        assert(pieces_from(line, 0) =~= seq![line]);
    } else if n > 1 {
        let before = rendered_upto(entries, n - 1);
        let line = line_of(entries[n - 1]);
        let text = rendered_upto(entries, n);
        lemma_lines_of_rendered(entries, n - 1);
        lemma_line_round_trip(entries[n - 1]);
        lemma_pieces_with_line(before, line, 0);
        assert(text.last() == line.last());
        assert(lines_of(before) == pieces_from(before, 0));
        assert(lines_of(text) == pieces_from(before, 0).push(line));
    }
}

/// The records of lines that are all lines of records are those records.
pub proof fn lemma_records_of_lines(
    lines: Seq<Seq<u8>>,
    entries: Seq<(usize, usize)>,
    n: int,
)
    requires
        0 <= n <= entries.len(),
        n <= lines.len(),
        forall|i: int| 0 <= i < n ==> #[trigger] lines[i] == line_of(entries[i]),
    ensures
        records_of(lines, n) == Ok::<Seq<(usize, usize)>, InputError>(entries.take(n)),
    decreases n,
{
    if n > 0 {
        lemma_records_of_lines(lines, entries, n - 1);
        lemma_line_round_trip(entries[n - 1]);
        assert(lines[n - 1] == line_of(entries[n - 1]));
        assert(entries.take(n - 1).push(entries[n - 1]) =~= entries.take(n));
    } else {
        assert(entries.take(0) =~= Seq::<(usize, usize)>::empty());
    }
}

/// Round trip: records that are written as text and read back are the
/// records that were written.
pub proof fn lemma_text_round_trip(entries: Seq<(usize, usize)>)
    ensures
        parsed(rendered(entries)) == Ok::<Seq<(usize, usize)>, InputError>(entries),
{
    let n = entries.len() as int;
    lemma_lines_of_rendered(entries, n);
    lemma_records_of_lines(lines_of(rendered(entries)), entries, n);
    assert(entries.take(n) =~= entries);
}

/// A line without the carriage return that may end it.
pub open spec fn without_return(line: Seq<u8>) -> Seq<u8> {
    if line.len() > 0 && line.last() == 13 {
        line.drop_last()
    } else {
        line
    }
}

/// The number of a line that holds one number and nothing else.
pub open spec fn number_of(line: Seq<u8>) -> Option<usize> {
    word(without_return(line))
}

/// What the first `n` lines hold: their numbers in order, or the index of the
/// first line among them that is no number.
pub open spec fn numbers_of(lines: Seq<Seq<u8>>, n: int) -> Result<Seq<usize>, InputError>
    decreases n,
{
    if n <= 0 {
        Ok(Seq::empty())
    } else {
        match numbers_of(lines, n - 1) {
            Err(e) => Err(e),
            Ok(before) => match number_of(lines[n - 1]) {
                Some(value) => Ok(before.push(value)),
                None => Err(InputError::Malformed { line: (n - 1) as usize }),
            },
        }
    }
}

/// What a text of numbers holds: the numbers of its lines in order, or the
/// index of the first line that is no number.
pub open spec fn parsed_numbers(text: Seq<u8>) -> Result<Seq<usize>, InputError> {
    numbers_of(lines_of(text), lines_of(text).len() as int)
}

/// The views of the lines.
pub open spec fn views(lines: Seq<&[u8]>) -> Seq<Seq<u8>> {
    Seq::new(lines.len(), |i: int| lines[i]@)
}

/// The lines of a text.
pub fn split_lines<'a>(text: &'a [u8]) -> (lines: Vec<&'a [u8]>)
    ensures
        views(lines@) == lines_of(text@),
{
    let mut lines: Vec<&'a [u8]> = Vec::new();
    let len = text.len();
    if len == 0 {
        assert(views(lines@) =~= lines_of(text@));
        return lines;
    }
    let body = if text[len - 1] == 10 {
        &text[0..len - 1]
    } else {
        text
    };
    assert(lines_of(text@) == pieces_from(body@, 0)) by {
        if text@.last() == 10 {
            assert(body@ =~= text@.drop_last());
        }
    }
    let end = body.len();
    let mut pos: usize = 0;
    loop
        invariant_except_break
            pos <= end,
            end == body@.len(),
            lines_of(text@) == views(lines@) + pieces_from(body@, pos as int),
        ensures
            lines_of(text@) == views(lines@),
        decreases end - pos,
    {
        let p = line_end_at(body, pos);
        let line = &body[pos..p];
        let ghost before = views(lines@);
        lines.push(line);
        proof {
            assert(views(lines@) =~= before.push(line@));
            if p < end {
                assert(before + pieces_from(body@, pos as int) =~= before.push(line@)
                    + pieces_from(body@, p + 1));
            } else {
                assert(before + pieces_from(body@, pos as int) =~= before.push(line@));
            }
        }
        if p == end {
            break ;
        }
        pos = p + 1;
    }
    lines
}

/// Once a line is no number, the text holds that error whatever follows.
pub proof fn lemma_number_error_stays(lines: Seq<Seq<u8>>, i: int, n: int)
    requires
        0 <= i <= n,
        numbers_of(lines, i) is Err,
    ensures
        numbers_of(lines, n) == numbers_of(lines, i),
    decreases n - i,
{
    if i < n {
        lemma_number_error_stays(lines, i, n - 1);
    }
}

/// Reads a text of numbers: one number on each line.
pub fn parse_numbers(text: &[u8]) -> (numbers: Result<Vec<usize>, InputError>)
    ensures
        match numbers {
            Ok(values) => parsed_numbers(text@) == Ok::<Seq<usize>, InputError>(values@),
            Err(e) => parsed_numbers(text@) == Err::<Seq<usize>, InputError>(e),
        },
{
    let lines = split_lines(text);
    let n = lines.len();
    let mut values: Vec<usize> = Vec::new();
    for i in 0..n
        invariant
            n == lines@.len(),
            views(lines@) == lines_of(text@),
            numbers_of(lines_of(text@), i as int) == Ok::<Seq<usize>, InputError>(values@),
            values@.len() == i,
    {
        let line = lines[i];
        assert(views(lines@)[i as int] == line@);
        let m = line.len();
        let token = if m > 0 && line[m - 1] == 13 {
            &line[0..m - 1]
        } else {
            line
        };
        assert(token@ =~= without_return(line@));
        match word_at(token) {
            Some(value) => {
                values.push(value);
            },
            None => {
                proof {
                    lemma_number_error_stays(lines_of(text@), i + 1, n as int);
                }
                return Err(InputError::Malformed { line: i });
            },
        }
    }
    Ok(values)
}

/// The year of a line that holds one number that fits in `u32`, and nothing
/// else.
pub open spec fn year_of(line: Seq<u8>) -> Option<u32> {
    match number_of(line) {
        Some(value) => if value <= u32::MAX {
            Some(value as u32)
        } else {
            None
        },
        None => None,
    }
}

/// What the first `n` lines hold: their years in order, or the index of the
/// first line among them that is no year.
pub open spec fn years_of(lines: Seq<Seq<u8>>, n: int) -> Result<Seq<u32>, InputError>
    decreases n,
{
    if n <= 0 {
        Ok(Seq::empty())
    } else {
        match years_of(lines, n - 1) {
            Err(e) => Err(e),
            Ok(before) => match year_of(lines[n - 1]) {
                Some(value) => Ok(before.push(value)),
                None => Err(InputError::Malformed { line: (n - 1) as usize }),
            },
        }
    }
}

/// What a text of years holds: the years of its lines in order, or the index
/// of the first line that is no year.
pub open spec fn parsed_years(text: Seq<u8>) -> Result<Seq<u32>, InputError> {
    years_of(lines_of(text), lines_of(text).len() as int)
}

/// Once a line is no year, the text holds that error whatever follows.
pub proof fn lemma_year_error_stays(lines: Seq<Seq<u8>>, i: int, n: int)
    requires
        0 <= i <= n,
        years_of(lines, i) is Err,
    ensures
        years_of(lines, n) == years_of(lines, i),
    decreases n - i,
{
    if i < n {
        lemma_year_error_stays(lines, i, n - 1);
    }
}

/// Reads a text of years: one year on each line.
pub fn parse_years(text: &[u8]) -> (years: Result<Vec<u32>, InputError>)
    ensures
        match years {
            Ok(values) => parsed_years(text@) == Ok::<Seq<u32>, InputError>(values@),
            Err(e) => parsed_years(text@) == Err::<Seq<u32>, InputError>(e),
        },
{
    let lines = split_lines(text);
    let n = lines.len();
    let mut values: Vec<u32> = Vec::new();
    for i in 0..n
        invariant
            n == lines@.len(),
            views(lines@) == lines_of(text@),
            years_of(lines_of(text@), i as int) == Ok::<Seq<u32>, InputError>(values@),
            values@.len() == i,
    {
        let line = lines[i];
        assert(views(lines@)[i as int] == line@);
        let m = line.len();
        let token = if m > 0 && line[m - 1] == 13 {
            &line[0..m - 1]
        } else {
            line
        };
        assert(token@ =~= without_return(line@));
        let year: Option<u32> = match word_at(token) {
            Some(value) => if value <= 0xffff_ffff {
                Some(value as u32)
            } else {
                None
            },
            None => None,
        };
        match year {
            Some(value) => {
                values.push(value);
            },
            None => {
                proof {
                    lemma_year_error_stays(lines_of(text@), i + 1, n as int);
                }
                return Err(InputError::Malformed { line: i });
            },
        }
    }
    Ok(values)
}

} // verus!
