//! The text of the wire format: decimal numbers, the fields of a line, lines
//! made of words, and hexadecimal digests.

use vstd::prelude::*;

verus! {

/// The ASCII digit for `d`, which is less than ten.
pub open spec fn digit(d: nat) -> u8 {
    (48 + d) as u8
}

/// Whether `byte` is an ASCII digit.
pub open spec fn is_digit(byte: u8) -> bool {
    48 <= byte <= 57
}

/// The decimal text of `n`, without leading zeros.
pub open spec fn decimal(n: nat) -> Seq<u8>
    decreases n,
{
    if n < 10 {
        seq![digit(n)]
    } else {
        decimal(n / 10).push(digit(n % 10))
    }
}

/// Whether every byte of `text` is an ASCII digit.
pub open spec fn all_digits(text: Seq<u8>) -> bool {
    forall|i: int| 0 <= i < text.len() ==> is_digit(#[trigger] text[i])
}

/// The number that a string of digits denotes.
pub open spec fn digits_value(text: Seq<u8>) -> nat
    decreases text.len(),
{
    if text.len() == 0 {
        0
    } else {
        digits_value(text.drop_last()) * 10 + (text.last() - 48) as nat
    }
}

/// The number that a field denotes: one or more digits, after an optional
/// plus sign.
pub open spec fn number(text: Seq<u8>) -> Option<nat> {
    let digits = if text.len() > 0 && text[0] == 43 {
        text.drop_first()
    } else {
        text
    };
    if digits.len() > 0 && all_digits(digits) {
        Some(digits_value(digits))
    } else {
        None
    }
}

/// The number that a field denotes if it is at most `max`.
pub open spec fn number_up_to(text: Seq<u8>, max: nat) -> Option<nat> {
    match number(text) {
        Some(value) => if value <= max {
            Some(value)
        } else {
            None
        },
        None => None,
    }
}

/// The decimal text of a number is made of digits and denotes that number.
pub proof fn lemma_decimal_round_trip(n: nat)
    ensures
        decimal(n).len() > 0,
        all_digits(decimal(n)),
        digits_value(decimal(n)) == n,
        number(decimal(n)) == Some(n),
    decreases n,
{
    if n < 10 {
        let text = decimal(n);
        assert(text.drop_last() =~= Seq::<u8>::empty());
        assert(digits_value(text.drop_last()) == 0);
    } else {
        lemma_decimal_round_trip(n / 10);
        let head = decimal(n / 10);
        let text = head.push(digit(n % 10));
        assert(text.drop_last() =~= head);
        assert forall|i: int| 0 <= i < text.len() implies is_digit(#[trigger] text[i]) by {
            if i < head.len() {
                assert(text[i] == head[i]);
            }
        }
    }
}

/// A string of digits denotes at least what any of its prefixes denotes.
pub proof fn lemma_digits_value_grows(text: Seq<u8>, n: int)
    requires
        all_digits(text),
        0 <= n <= text.len(),
    ensures
        digits_value(text.take(n)) <= digits_value(text),
    decreases text.len() - n,
{
    if n < text.len() {
        lemma_digits_value_grows(text, n + 1);
        assert(text.take(n + 1).drop_last() =~= text.take(n));
        assert(is_digit(text[n]));
    } else {
        assert(text.take(n) =~= text);
    }
}

/// Appends the decimal text of `n` to `out`.
pub fn push_decimal(out: &mut Vec<u8>, n: u64)
    ensures
        final(out)@ == old(out)@ + decimal(n as nat),
    decreases n,
{
    if n >= 10 {
        push_decimal(out, n / 10);
    }
    let last: u8 = 48 + (n % 10) as u8;
    out.push(last);
    proof {
        if n >= 10 {
            assert(final(out)@ =~= old(out)@ + decimal((n / 10) as nat).push(last));
        } else {
            assert(final(out)@ =~= old(out)@ + seq![last]);
        }
    }
}

/// Reads a decimal field that must fit in 64 bits.
pub fn parse_decimal(text: &[u8]) -> (value: Option<u64>)
    ensures
        match value {
            Some(v) => number_up_to(text@, u64::MAX as nat) == Some(v as nat),
            None => number_up_to(text@, u64::MAX as nat) is None,
        },
{
    let mut i: usize = 0;
    if text.len() > 0 && text[0] == 43 {
        i = 1;
    }
    let first: usize = i;
    let ghost digits = text@.skip(first as int);
    assert(digits =~= if text@.len() > 0 && text@[0] == 43 {
        text@.drop_first()
    } else {
        text@
    });
    if i == text.len() {
        return None;
    }
    let mut value: u64 = 0;
    assert(digits.take(0) =~= Seq::<u8>::empty());
    while i < text.len()
        invariant
            first <= i <= text.len(),
            first < text.len(),
            digits == text@.skip(first as int),
            digits == if text@.len() > 0 && text@[0] == 43 {
                text@.drop_first()
            } else {
                text@
            },
            all_digits(digits.take(i - first)),
            value == digits_value(digits.take(i - first)),
        decreases text.len() - i,
    {
        let byte: u8 = text[i];
        let ghost seen = digits.take(i - first);
        let ghost more = digits.take(i - first + 1);
        proof {
            assert(more.drop_last() =~= seen);
            assert(more.last() == byte);
        }
        if byte < 48 || byte > 57 {
            assert(!is_digit(digits[i - first]));
            return None;
        }
        assert(all_digits(more)) by {
            assert forall|j: int| 0 <= j < more.len() implies is_digit(#[trigger] more[j]) by {
                if j < seen.len() {
                    assert(more[j] == seen[j]);
                }
            }
        }
        let next: Option<u64> = match value.checked_mul(10) {
            Some(shifted) => shifted.checked_add((byte - 48) as u64),
            None => None,
        };
        match next {
            Some(v) => {
                value = v;
            },
            None => {
                proof {
                    assert(digits_value(more) > u64::MAX);
                    if all_digits(digits) {
                        lemma_digits_value_grows(digits, i - first + 1);
                    }
                }
                return None;
            },
        }
        i += 1;
    }
    assert(digits.take(i - first) =~= digits);
    Some(value)
}

/// Whether `byte` separates the fields of a line: a space, a tab, a line
/// feed, a vertical tab, a form feed or a carriage return.
pub open spec fn is_space(byte: u8) -> bool {
    byte == 32 || (9 <= byte <= 13)
}

/// The first position at or after `from` that holds no separator; the length
/// of `text` if there is none.
pub open spec fn skip_spaces(text: Seq<u8>, from: int) -> int
    decreases text.len() - from,
{
    if 0 <= from < text.len() && is_space(text[from]) {
        skip_spaces(text, from + 1)
    } else {
        from
    }
}

/// The first position at or after `from` that holds a separator; the length
/// of `text` if there is none.
pub open spec fn skip_word(text: Seq<u8>, from: int) -> int
    decreases text.len() - from,
{
    if 0 <= from < text.len() && !is_space(text[from]) {
        skip_word(text, from + 1)
    } else {
        from
    }
}

/// Where field `n` of `text` starts, fields counted from zero; the length of
/// `text` if it has no such field.
pub open spec fn field_start(text: Seq<u8>, n: nat) -> int
    decreases n,
{
    if n == 0 {
        skip_spaces(text, 0)
    } else {
        skip_spaces(text, skip_word(text, field_start(text, (n - 1) as nat)))
    }
}

/// Where field `n` of `text` ends.
pub open spec fn field_end(text: Seq<u8>, n: nat) -> int {
    skip_word(text, field_start(text, n))
}

/// Whether `text` has a field `n`.
pub open spec fn has_field(text: Seq<u8>, n: nat) -> bool {
    field_start(text, n) < text.len()
}

/// Field `n` of `text`: a longest run of bytes that are no separators.
pub open spec fn field(text: Seq<u8>, n: nat) -> Seq<u8> {
    text.subrange(field_start(text, n), field_end(text, n))
}

/// `text` without the separators at its end.
pub open spec fn trimmed(text: Seq<u8>) -> Seq<u8>
    decreases text.len(),
{
    if text.len() > 0 && is_space(text.last()) {
        trimmed(text.drop_last())
    } else {
        text
    }
}

/// Skipping stays inside the text.
pub proof fn lemma_skip_bounds(text: Seq<u8>, from: int)
    requires
        0 <= from <= text.len(),
    ensures
        from <= skip_spaces(text, from) <= text.len(),
        from <= skip_word(text, from) <= text.len(),
        skip_word(text, from) == from <==> (from == text.len() || is_space(text[from])),
    decreases text.len() - from,
{
    if from < text.len() {
        lemma_skip_bounds(text, from + 1);
    }
}

/// Fields lie inside the text, one after the other.
pub proof fn lemma_field_bounds(text: Seq<u8>, n: nat)
    ensures
        0 <= field_start(text, n) <= field_end(text, n) <= text.len(),
        has_field(text, n) ==> field_start(text, n) < field_end(text, n),
        n > 0 ==> field_end(text, (n - 1) as nat) <= field_start(text, n),
    decreases n,
{
    if n == 0 {
        lemma_skip_bounds(text, 0);
    } else {
        lemma_field_bounds(text, (n - 1) as nat);
        lemma_skip_bounds(text, field_end(text, (n - 1) as nat));
    }
    lemma_skip_bounds(text, field_start(text, n));
    lemma_skip_spaces_stops(text, if n == 0 {
        0
    } else {
        field_end(text, (n - 1) as nat)
    });
}

/// Where skipping separators stops, there is none.
pub proof fn lemma_skip_spaces_stops(text: Seq<u8>, from: int)
    requires
        0 <= from <= text.len(),
    ensures
        skip_spaces(text, from) < text.len() ==> !is_space(text[skip_spaces(text, from)]),
    decreases text.len() - from,
{
    if from < text.len() && is_space(text[from]) {
        lemma_skip_spaces_stops(text, from + 1);
    }
}

/// Whether `byte` separates fields.
pub fn is_separator(byte: u8) -> (space: bool)
    ensures
        space == is_space(byte),
{
    byte == 32 || (9 <= byte && byte <= 13)
}

/// The start and the end of the first field of `text` at or after `from`.
/// They are equal, and the length of `text`, where no field is left.
pub fn next_field(text: &[u8], from: usize) -> (range: (usize, usize))
    requires
        from <= text.len(),
    ensures
        range.0 == skip_spaces(text@, from as int),
        range.1 == skip_word(text@, range.0 as int),
        from <= range.0 <= range.1 <= text.len(),
{
    let mut start: usize = from;
    while start < text.len() && is_separator(text[start])
        invariant
            from <= start <= text.len(),
            skip_spaces(text@, from as int) == skip_spaces(text@, start as int),
        decreases text.len() - start,
    {
        start += 1;
    }
    let mut end: usize = start;
    while end < text.len() && !is_separator(text[end])
        invariant
            start <= end <= text.len(),
            skip_word(text@, start as int) == skip_word(text@, end as int),
        decreases text.len() - end,
    {
        end += 1;
    }
    (start, end)
}

/// `text` without the separators at its end.
pub fn trim_end(text: &[u8]) -> (kept: &[u8])
    ensures
        kept@ == trimmed(text@),
{
    let mut end: usize = text.len();
    assert(text@.take(end as int) =~= text@);
    while end > 0 && is_separator(text[end - 1])
        invariant
            end <= text.len(),
            trimmed(text@) == trimmed(text@.take(end as int)),
        decreases end,
    {
        assert(text@.take(end as int).drop_last() =~= text@.take(end - 1));
        end -= 1;
    }
    vstd::slice::slice_subrange(text, 0, end)
}

/// Whether two byte strings are equal.
pub fn same_bytes(left: &[u8], right: &[u8]) -> (same: bool)
    ensures
        same == (left@ == right@),
{
    if left.len() != right.len() {
        return false;
    }
    let mut i: usize = 0;
    while i < left.len()
        invariant
            i <= left.len(),
            left.len() == right.len(),
            forall|j: int| 0 <= j < i ==> left@[j] == right@[j],
        decreases left.len() - i,
    {
        if left[i] != right[i] {
            return false;
        }
        i += 1;
    }
    assert(left@ =~= right@);
    true
}

/// Whether `text` can stand as one field of a line: it is not empty and
/// holds no separator.
pub open spec fn is_word(text: Seq<u8>) -> bool {
    text.len() > 0 && forall|i: int| 0 <= i < text.len() ==> !is_space(#[trigger] text[i])
}

/// Whether all of `words` can stand as fields.
pub open spec fn all_words(words: Seq<Seq<u8>>) -> bool {
    forall|n: int| 0 <= n < words.len() ==> is_word(#[trigger] words[n])
}

/// `words` with one space between each two of them.
pub open spec fn spaced(words: Seq<Seq<u8>>) -> Seq<u8>
    decreases words.len(),
{
    if words.len() == 0 {
        Seq::empty()
    } else if words.len() == 1 {
        words[0]
    } else {
        words[0] + seq![32u8] + spaced(words.drop_first())
    }
}

/// The line that holds `words` as its fields, ended by a line feed.
pub open spec fn text_line(words: Seq<Seq<u8>>) -> Seq<u8> {
    spaced(words) + seq![10u8]
}

/// Skipping in the second part of a text is skipping in that part alone.
pub proof fn lemma_skip_shift(head: Seq<u8>, tail: Seq<u8>, from: int)
    requires
        0 <= from <= tail.len(),
    ensures
        skip_word(head + tail, head.len() + from) == head.len() + skip_word(tail, from),
        skip_spaces(head + tail, head.len() + from) == head.len() + skip_spaces(tail, from),
    decreases tail.len() - from,
{
    let text = head + tail;
    if from < tail.len() {
        assert(text[head.len() + from] == tail[from]);
        lemma_skip_shift(head, tail, from + 1);
    }
}

/// Skipping a run of bytes that are no separators ends behind the run.
pub proof fn lemma_skip_word_to(text: Seq<u8>, from: int, to: int)
    requires
        0 <= from <= to <= text.len(),
        forall|i: int| from <= i < to ==> !is_space(#[trigger] text[i]),
        to == text.len() || is_space(text[to]),
    ensures
        skip_word(text, from) == to,
    decreases to - from,
{
    if from < to {
        lemma_skip_word_to(text, from + 1, to);
    }
}

/// A text that starts with a word and a separator has that word as its
/// first field, and the first field of the rest starts behind them.
pub proof fn lemma_first_field(word: Seq<u8>, separator: u8, rest: Seq<u8>)
    requires
        is_word(word),
        is_space(separator),
    ensures
        field_start(word + seq![separator] + rest, 0) == 0,
        field_end(word + seq![separator] + rest, 0) == word.len(),
        field(word + seq![separator] + rest, 0) == word,
        field_start(word + seq![separator] + rest, 1) == word.len() + 1 + field_start(rest, 0),
{
    let text = word + seq![separator] + rest;
    let head = word + seq![separator];
    assert(text[0] == word[0]);
    assert forall|i: int| 0 <= i < word.len() implies !is_space(#[trigger] text[i]) by {
        assert(text[i] == word[i]);
    }
    assert(text[word.len() as int] == separator);
    lemma_skip_word_to(text, 0, word.len() as int);
    assert(text.subrange(0, word.len() as int) =~= word);
    lemma_skip_shift(head, rest, 0);
    assert(skip_spaces(text, word.len() as int) == skip_spaces(text, word.len() as int + 1));
}

/// Behind a first word and a separator, the fields of a text are the fields
/// of the rest.
pub proof fn lemma_later_field(word: Seq<u8>, separator: u8, rest: Seq<u8>, n: nat)
    requires
        is_word(word),
        is_space(separator),
    ensures
        field_start(word + seq![separator] + rest, n + 1) == word.len() + 1 + field_start(
            rest,
            n,
        ),
        field_end(word + seq![separator] + rest, n + 1) == word.len() + 1 + field_end(rest, n),
        field(word + seq![separator] + rest, n + 1) == field(rest, n),
        has_field(word + seq![separator] + rest, n + 1) == has_field(rest, n),
    decreases n,
{
    let text = word + seq![separator] + rest;
    let head = word + seq![separator];
    let shift = word.len() + 1;
    assert(text == head + rest);
    assert(head.len() == shift);
    if n == 0 {
        lemma_first_field(word, separator, rest);
    } else {
        lemma_later_field(word, separator, rest, (n - 1) as nat);
        lemma_field_bounds(rest, (n - 1) as nat);
        lemma_skip_shift(head, rest, field_end(rest, (n - 1) as nat));
    }
    lemma_field_bounds(rest, n);
    lemma_skip_shift(head, rest, field_start(rest, n));
    assert(text.subrange(shift + field_start(rest, n), shift + field_end(rest, n))
        =~= rest.subrange(field_start(rest, n), field_end(rest, n)));
}

/// A line made of words splits into its first word, a separator and what
/// follows.
pub open spec fn line_rest(words: Seq<Seq<u8>>) -> Seq<u8> {
    if words.len() > 1 {
        text_line(words.drop_first())
    } else {
        Seq::empty()
    }
}

/// The separator behind the first word of a line made of words.
pub open spec fn line_separator(words: Seq<Seq<u8>>) -> u8 {
    if words.len() > 1 {
        32u8
    } else {
        10u8
    }
}

/// A line made of words is its first word, a separator and the line of the
/// other words.
pub proof fn lemma_line_split(words: Seq<Seq<u8>>)
    requires
        words.len() > 0,
    ensures
        text_line(words) == words[0] + seq![line_separator(words)] + line_rest(words),
{
    if words.len() > 1 {
        assert(text_line(words) =~= words[0] + seq![32u8] + text_line(words.drop_first()));
    } else {
        assert(text_line(words) =~= words[0] + seq![10u8] + Seq::<u8>::empty());
    }
}

/// A line made of words has exactly those words as its fields.
pub proof fn lemma_line_fields(words: Seq<Seq<u8>>, n: nat)
    requires
        words.len() > 0,
        all_words(words),
    ensures
        n < words.len() ==> has_field(text_line(words), n) && field(text_line(words), n)
            == words[n as int],
        n >= words.len() ==> !has_field(text_line(words), n),
    decreases n,
{
    let line = text_line(words);
    let rest = line_rest(words);
    let word = words[0];
    let separator = line_separator(words);
    lemma_line_split(words);
    assert(is_word(word));
    if n == 0 {
        lemma_first_field(word, separator, rest);
    } else {
        lemma_later_field(word, separator, rest, (n - 1) as nat);
        if words.len() > 1 {
            let others = words.drop_first();
            assert(all_words(others)) by {
                assert forall|j: int| 0 <= j < others.len() implies is_word(
                    #[trigger] others[j],
                ) by {
                    assert(others[j] == words[j + 1]);
                }
            }
            lemma_line_fields(others, (n - 1) as nat);
            if n < words.len() {
                assert(others[n - 1] == words[n as int]);
            }
        } else {
            lemma_field_bounds(rest, (n - 1) as nat);
        }
    }
}

/// Words with spaces between them hold no line feed and end with the last
/// byte of the last word.
pub proof fn lemma_spaced_bytes(words: Seq<Seq<u8>>)
    requires
        words.len() > 0,
        all_words(words),
    ensures
        spaced(words).len() >= words[0].len() > 0,
        spaced(words).subrange(0, words[0].len() as int) == words[0],
        words.len() > 1 ==> spaced(words).len() > words[0].len() && spaced(words)[words[0].len() as int] == 32,
        !is_space(spaced(words).last()),
        forall|i: int| 0 <= i < spaced(words).len() ==> #[trigger] spaced(words)[i] != 10,
    decreases words.len(),
{
    let word = words[0];
    assert(is_word(word));
    if words.len() > 1 {
        let others = words.drop_first();
        assert(all_words(others)) by {
            assert forall|j: int| 0 <= j < others.len() implies is_word(#[trigger] others[j]) by {
                assert(others[j] == words[j + 1]);
            }
        }
        lemma_spaced_bytes(others);
        let text = spaced(words);
        let tail = spaced(others);
        assert(text == word + seq![32u8] + tail);
        assert(text.last() == tail.last());
        assert(text.subrange(0, word.len() as int) =~= word);
        assert forall|i: int| 0 <= i < text.len() implies #[trigger] text[i] != 10 by {
            if i < word.len() {
                assert(text[i] == word[i]);
            } else if i > word.len() {
                assert(text[i] == tail[i - word.len() - 1]);
            }
        }
    } else {
        assert(spaced(words).subrange(0, word.len() as int) =~= word);
    }
}

/// Trimming a line made of words takes its line feed away and nothing else.
pub proof fn lemma_line_trimmed(words: Seq<Seq<u8>>)
    requires
        words.len() > 0,
        all_words(words),
    ensures
        trimmed(text_line(words)) == spaced(words),
{
    lemma_spaced_bytes(words);
    let line = text_line(words);
    assert(line.drop_last() =~= spaced(words));
    assert(line.last() == 10);
    assert(trimmed(spaced(words)) == spaced(words));
}

/// Two words with a space between them.
pub proof fn lemma_spaced_two(words: Seq<Seq<u8>>)
    requires
        words.len() == 2,
    ensures
        spaced(words) == words[0] + seq![32u8] + words[1],
{
    let rest = words.drop_first();
    assert(rest.len() == 1);
    assert(rest[0] == words[1]);
    assert(spaced(rest) == words[1]);
}

/// Three words with spaces between them.
pub proof fn lemma_spaced_three(words: Seq<Seq<u8>>)
    requires
        words.len() == 3,
    ensures
        spaced(words) == words[0] + seq![32u8] + words[1] + seq![32u8] + words[2],
{
    let rest = words.drop_first();
    lemma_spaced_two(rest);
    assert(rest[0] == words[1] && rest[1] == words[2]);
    assert(spaced(words) =~= words[0] + seq![32u8] + words[1] + seq![32u8] + words[2]);
}

/// Four words with spaces between them.
pub proof fn lemma_spaced_four(words: Seq<Seq<u8>>)
    requires
        words.len() == 4,
    ensures
        spaced(words) == words[0] + seq![32u8] + words[1] + seq![32u8] + words[2] + seq![32u8]
            + words[3],
{
    let rest = words.drop_first();
    lemma_spaced_three(rest);
    assert(rest[0] == words[1] && rest[1] == words[2] && rest[2] == words[3]);
    assert(spaced(words) =~= words[0] + seq![32u8] + words[1] + seq![32u8] + words[2]
        + seq![32u8] + words[3]);
}

/// Five words with spaces between them.
pub proof fn lemma_spaced_five(words: Seq<Seq<u8>>)
    requires
        words.len() == 5,
    ensures
        spaced(words) == words[0] + seq![32u8] + words[1] + seq![32u8] + words[2] + seq![32u8]
            + words[3] + seq![32u8] + words[4],
{
    let rest = words.drop_first();
    lemma_spaced_four(rest);
    assert(rest[0] == words[1] && rest[1] == words[2] && rest[2] == words[3] && rest[3]
        == words[4]);
    assert(spaced(words) =~= words[0] + seq![32u8] + words[1] + seq![32u8] + words[2]
        + seq![32u8] + words[3] + seq![32u8] + words[4]);
}

/// The decimal text of a number can stand as a field and is read back as
/// that number, where the number is within the limit.
pub proof fn lemma_decimal_field(n: nat, max: nat)
    requires
        n <= max,
    ensures
        is_word(decimal(n)),
        number_up_to(decimal(n), max) == Some(n),
{
    lemma_decimal_round_trip(n);
    let text = decimal(n);
    assert forall|i: int| 0 <= i < text.len() implies !is_space(#[trigger] text[i]) by {
        assert(is_digit(text[i]));
    }
}

/// The lower-case hexadecimal digit for `value`, which is less than sixteen.
pub open spec fn hex_digit(value: int) -> u8 {
    if value < 10 {
        (48 + value) as u8
    } else {
        (87 + value) as u8
    }
}

/// The hexadecimal text of `bytes`: two lower-case digits for each byte, the
/// high half first.
pub open spec fn hex_text(bytes: Seq<u8>) -> Seq<u8> {
    Seq::new(
        2 * bytes.len(),
        |i: int|
            if i % 2 == 0 {
                hex_digit(bytes[i / 2] as int / 16)
            } else {
                hex_digit(bytes[i / 2] as int % 16)
            },
    )
}

/// The value of a hexadecimal digit of either case.
pub open spec fn hex_value(byte: u8) -> Option<int> {
    if 48 <= byte <= 57 {
        Some(byte - 48)
    } else if 97 <= byte <= 102 {
        Some(byte - 87)
    } else if 65 <= byte <= 70 {
        Some(byte - 55)
    } else {
        None
    }
}

/// The bytes that a hexadecimal text denotes: it must have an even number
/// of characters, all of them hexadecimal digits.
pub open spec fn hex_bytes(text: Seq<u8>) -> Option<Seq<u8>> {
    if text.len() % 2 == 0 && (forall|i: int|
        0 <= i < text.len() ==> hex_value(#[trigger] text[i]) is Some) {
        Some(
            Seq::new(
                text.len() / 2,
                |i: int| (16 * hex_value(text[2 * i])->0 + hex_value(text[2 * i + 1])->0) as u8,
            ),
        )
    } else {
        None
    }
}

/// Hexadecimal text denotes the bytes it was made from, and holds no
/// separator.
pub proof fn lemma_hex_round_trip(bytes: Seq<u8>)
    ensures
        hex_bytes(hex_text(bytes)) == Some(bytes),
        forall|i: int| 0 <= i < hex_text(bytes).len() ==> !is_space(#[trigger] hex_text(bytes)[i]),
{
    let text = hex_text(bytes);
    assert forall|i: int| 0 <= i < text.len() implies hex_value(#[trigger] text[i]) is Some
        && !is_space(text[i]) by {
        let b = bytes[i / 2];
        assert(0 <= b as int / 16 < 16 && 0 <= b as int % 16 < 16);
    }
    let back = hex_bytes(text)->0;
    assert forall|i: int| 0 <= i < bytes.len() implies back[i] == bytes[i] by {
        let b = bytes[i];
        assert((2 * i) / 2 == i && (2 * i + 1) / 2 == i);
        assert((2 * i) % 2 == 0 && (2 * i + 1) % 2 == 1);
        assert(text[2 * i] == hex_digit(b as int / 16));
        assert(text[2 * i + 1] == hex_digit(b as int % 16));
        assert(0 <= b as int / 16 < 16 && 0 <= b as int % 16 < 16);
        assert(16 * (b as int / 16) + b as int % 16 == b);
    }
    assert(back =~= bytes);
}

/// Makes `hex::FromHexError` known as a type of which nothing is looked at.
#[verifier::external_type_specification]
#[verifier::external_body]
pub struct ExFromHexError(hex::FromHexError);

/// Calls `hex::encode` and hands its text back as bytes. The text has two
/// characters for each byte, first the high four bits and then the low four
/// bits, each as a digit out of `0123456789abcdef`.
#[verifier::external_body]
pub(crate) fn hex_encode(bytes: &[u8]) -> (text: Vec<u8>)
    ensures
        text@ == hex_text(bytes@),
{
    hex::encode(bytes).into_bytes()
}

/// Calls `hex::decode`. It fails on an odd number of characters and on a
/// character that is no hexadecimal digit; otherwise each pair of digits, of
/// either case, gives one byte, the first digit its high four bits.
#[verifier::external_body]
pub(crate) fn hex_decode(text: &[u8]) -> (bytes: Result<Vec<u8>, hex::FromHexError>)
    ensures
        match bytes {
            Ok(decoded) => hex_bytes(text@) == Some(decoded@),
            Err(_) => hex_bytes(text@) is None,
        },
{
    hex::decode(text)
}

} // verus!
