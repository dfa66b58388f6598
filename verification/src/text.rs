//! Text: characters, decimal numbers, lines.
use vstd::prelude::*;

verus! {

/// `String::push` appends the character to the end of the string.
pub assume_specification[ std::string::String::push ](s: &mut std::string::String, c: char)
    ensures
        final(s)@ == old(s)@.push(c),
;

/// The characters of a string.
pub fn chars_of(s: &str) -> (chars: Vec<char>)
    ensures
        chars@ == s@,
{
    broadcast use vstd::string::group_string_axioms;

    let mut chars: Vec<char> = Vec::new();
    for c in it: s.chars()
        invariant
            it.seq() == s@,
            chars@ == s@.take(it.index() as int),
    {
        chars.push(c);
        assert(chars@ =~= s@.take(it.index() + 1));
    }
    assert(s@.take(s@.len() as int) =~= s@);
    chars
}

/// The string of some characters.
pub fn string_of(chars: &Vec<char>) -> (s: String)
    ensures
        s@ == chars@,
{
    let mut s = String::new();
    let mut i: usize = 0;
    while i < chars.len()
        invariant
            i <= chars@.len(),
            s@ == chars@.take(i as int),
        decreases chars@.len() - i,
    {
        s.push(chars[i]);
        i += 1;
        assert(s@ =~= chars@.take(i as int));
    }
    assert(chars@.take(i as int) =~= chars@);
    s
}

/// The characters from `from` up to `to`.
pub fn slice_of(chars: &Vec<char>, from: usize, to: usize) -> (part: Vec<char>)
    requires
        from <= to <= chars@.len(),
    ensures
        part@ == chars@.subrange(from as int, to as int),
{
    vstd::slice::slice_to_vec(vstd::slice::slice_subrange(chars.as_slice(), from, to))
}

/// Whether the characters of `part` stand at `from`.
fn stands_at(chars: &Vec<char>, part: &Vec<char>, from: usize) -> (yes: bool)
    requires
        from + part@.len() <= chars@.len(),
    ensures
        yes == (chars@.subrange(from as int, from + part@.len()) == part@),
{
    let mut i: usize = 0;
    while i < part.len()
        invariant
            i <= part@.len(),
            from + part@.len() <= chars.len(),
            forall|k: int| 0 <= k < i ==> chars@[from + k] == #[trigger] part@[k],
        decreases part@.len() - i,
    {
        if chars[from + i] != part[i] {
            assert(chars@.subrange(from as int, from + part@.len())[i as int] != part@[i as int]);
            return false;
        }
        i += 1;
    }
    assert(chars@.subrange(from as int, from + part@.len()) =~= part@);
    true
}

/// The text ends with `suffix`.
pub open spec fn ends_with(text: Seq<char>, suffix: Seq<char>) -> bool {
    suffix.len() <= text.len() && text.skip(text.len() - suffix.len()) == suffix
}

/// The text begins with `prefix`.
pub open spec fn begins_with(text: Seq<char>, prefix: Seq<char>) -> bool {
    prefix.len() <= text.len() && text.take(prefix.len() as int) == prefix
}

/// What stands before `suffix`, if the text ends with it.
pub open spec fn without_suffix(text: Seq<char>, suffix: Seq<char>) -> Option<Seq<char>> {
    if ends_with(text, suffix) {
        Some(text.take(text.len() - suffix.len()))
    } else {
        None
    }
}

/// What follows `prefix`, if the text begins with it.
pub open spec fn without_prefix(text: Seq<char>, prefix: Seq<char>) -> Option<Seq<char>> {
    if begins_with(text, prefix) {
        Some(text.skip(prefix.len() as int))
    } else {
        None
    }
}

/// The view of optional characters.
pub open spec fn opt_view(chars: Option<Vec<char>>) -> Option<Seq<char>> {
    match chars {
        Some(c) => Some(c@),
        None => None,
    }
}

/// Strips a suffix.
pub fn strip_suffix(chars: &Vec<char>, suffix: &str) -> (rest: Option<Vec<char>>)
    ensures
        opt_view(rest) == without_suffix(chars@, suffix@),
{
    let suffix = chars_of(suffix);
    if suffix.len() > chars.len() {
        return None;
    }
    let at: usize = chars.len() - suffix.len();
    assert(chars@.skip(at as int) =~= chars@.subrange(at as int, chars@.len() as int));
    if stands_at(chars, &suffix, at) {
        assert(chars@.take(at as int) =~= chars@.subrange(0, at as int));
        Some(slice_of(chars, 0, at))
    } else {
        None
    }
}

/// Strips a prefix.
pub fn strip_prefix(chars: &Vec<char>, prefix: &str) -> (rest: Option<Vec<char>>)
    ensures
        opt_view(rest) == without_prefix(chars@, prefix@),
{
    let prefix = chars_of(prefix);
    if prefix.len() > chars.len() {
        return None;
    }
    assert(chars@.take(prefix@.len() as int) =~= chars@.subrange(0, prefix@.len() as int));
    if stands_at(chars, &prefix, 0) {
        assert(chars@.skip(prefix@.len() as int) =~= chars@.subrange(
            prefix@.len() as int,
            chars@.len() as int,
        ));
        Some(slice_of(chars, prefix.len(), chars.len()))
    } else {
        None
    }
}

/// Whether the characters are exactly those of `text`.
pub fn is_text(chars: &Vec<char>, text: &str) -> (yes: bool)
    ensures
        yes == (chars@ == text@),
{
    let text = chars_of(text);
    if text.len() != chars.len() {
        return false;
    }
    assert(chars@.subrange(0, chars@.len() as int) =~= chars@);
    stands_at(chars, &text, 0)
}

/// The character is a decimal digit.
pub open spec fn is_digit(c: char) -> bool {
    '0' <= c && c <= '9'
}

/// The number that decimal digits stand for.
pub open spec fn decimal_value(digits: Seq<char>) -> nat
    decreases digits.len(),
{
    if digits.len() == 0 {
        0
    } else {
        10 * decimal_value(digits.drop_last()) + (digits.last() as nat - 48) as nat
    }
}

/// The digits behind an optional plus sign.
pub open spec fn unsigned(text: Seq<char>) -> Seq<char> {
    if text.len() > 0 && text[0] == '+' {
        text.skip(1)
    } else {
        text
    }
}

/// The `u64` that the text denotes: one or more decimal digits, optionally after a plus
/// sign, with a value that fits.
pub open spec fn parsed_u64(text: Seq<char>) -> Option<u64> {
    let digits = unsigned(text);
    if digits.len() > 0 && (forall|i: int| 0 <= i < digits.len() ==> is_digit(#[trigger] digits[i]))
        && decimal_value(digits) <= u64::MAX {
        Some(decimal_value(digits) as u64)
    } else {
        None
    }
}

/// Leading digits stand for no more than all of them.
proof fn lemma_decimal_prefix(digits: Seq<char>, k: int)
    requires
        0 <= k <= digits.len(),
        forall|i: int| 0 <= i < digits.len() ==> is_digit(#[trigger] digits[i]),
    ensures
        decimal_value(digits.take(k)) <= decimal_value(digits),
    decreases digits.len(),
{
    if k == digits.len() {
        assert(digits.take(k) =~= digits);
    } else {
        let d = digits.drop_last();
        assert forall|i: int| 0 <= i < d.len() implies is_digit(#[trigger] d[i]) by {
            assert(d[i] == digits[i]);
        }
        lemma_decimal_prefix(d, k);
        assert(d.take(k) =~= digits.take(k));
    }
}

/// Parses a `u64`.
pub fn parse_u64(chars: &Vec<char>) -> (value: Option<u64>)
    ensures
        value == parsed_u64(chars@),
{
    let mut i: usize = 0;
    if chars.len() > 0 && chars[0] == '+' {
        i = 1;
    }
    let ghost digits = unsigned(chars@);
    let ghost start = i as int;
    assert(digits =~= chars@.skip(start));
    if i >= chars.len() {
        return None;
    }
    let mut value: u64 = 0;
    assert(digits.take(0) =~= seq![]);
    while i < chars.len()
        invariant
            0 <= start <= i <= chars@.len(),
            start < chars@.len(),
            digits == unsigned(chars@),
            digits == chars@.skip(start),
            forall|k: int| 0 <= k < i - start ==> is_digit(#[trigger] digits[k]),
            value == decimal_value(digits.take(i - start)),
        decreases chars@.len() - i,
    {
        let c: char = chars[i];
        assert(c == digits[i - start]);
        if !('0' <= c && c <= '9') {
            return None;
        }
        let d: u64 = c as u64 - 48;
        proof {
            let n = i - start;
            assert(digits.take(n + 1).drop_last() =~= digits.take(n));
            assert(digits.take(n + 1).last() == c);
            assert(decimal_value(digits.take(n + 1)) == 10 * value + d);
            if forall|k: int| 0 <= k < digits.len() ==> is_digit(#[trigger] digits[k]) {
                lemma_decimal_prefix(digits, n + 1);
            }
        }
        match value.checked_mul(10) {
            None => {
                return None;
            },
            Some(tens) => match tens.checked_add(d) {
                None => {
                    return None;
                },
                Some(sum) => {
                    value = sum;
                },
            },
        }
        i += 1;
    }
    assert(digits.take(i - start) =~= digits);
    Some(value)
}

/// The digit character of a number below ten.
pub open spec fn digit(d: nat) -> char {
    (48 + d) as char
}

/// A number in decimal, without leading zeros.
pub open spec fn decimal(n: nat) -> Seq<char>
    decreases n,
{
    if n < 10 {
        seq![digit(n)]
    } else {
        decimal(n / 10).push(digit(n % 10))
    }
}

/// A run of zeros.
pub open spec fn zeros(n: nat) -> Seq<char> {
    Seq::new(n, |i: int| '0')
}

/// A number in decimal, padded with zeros on the left to at least ten digits.
pub open spec fn padded(n: nat) -> Seq<char> {
    if decimal(n).len() < 10 {
        zeros((10 - decimal(n).len()) as nat) + decimal(n)
    } else {
        decimal(n)
    }
}

/// Appends a number in decimal.
pub fn push_decimal(out: &mut Vec<char>, n: u64)
    ensures
        final(out)@ == old(out)@ + decimal(n as nat),
    decreases n,
{
    if n >= 10 {
        push_decimal(out, n / 10);
    }
    let d: u8 = (n % 10) as u8;
    let c: char = (48 + d) as char;
    assert(c == digit((n % 10) as nat));
    out.push(c);
    assert(out@ =~= old(out)@ + decimal(n as nat));
}

/// Appends a number in decimal, padded with zeros on the left to at least ten digits.
pub fn push_padded(out: &mut Vec<char>, n: u64)
    ensures
        final(out)@ == old(out)@ + padded(n as nat),
{
    let mut digits: Vec<char> = Vec::new();
    push_decimal(&mut digits, n);
    assert(digits@ =~= decimal(n as nat));
    let mut missing: usize = if digits.len() < 10 {
        10 - digits.len()
    } else {
        0
    };
    let ghost all = missing as nat;
    while missing > 0
        invariant
            missing <= all,
            out@ == old(out)@ + zeros((all - missing) as nat),
        decreases missing,
    {
        out.push('0');
        missing = missing - 1;
        assert(out@ =~= old(out)@ + zeros((all - missing) as nat));
    }
    out.extend_from_slice(digits.as_slice());
    assert(out@ =~= old(out)@ + padded(n as nat));
}

/// A decimal number is made of digits and stands for itself.
proof fn lemma_decimal(n: nat)
    ensures
        decimal(n).len() > 0,
        forall|i: int| 0 <= i < decimal(n).len() ==> is_digit(#[trigger] decimal(n)[i]),
        decimal_value(decimal(n)) == n,
    decreases n,
{
    let s = decimal(n);
    if n < 10 {
        assert(s.drop_last() =~= seq![]);
        assert(decimal_value(s.drop_last()) == 0);
        assert(s.last() == digit(n));
    } else {
        lemma_decimal(n / 10);
        assert(s.drop_last() =~= decimal(n / 10));
        assert(s.last() == digit(n % 10));
        assert forall|i: int| 0 <= i < s.len() implies is_digit(#[trigger] s[i]) by {
            if i < s.len() - 1 {
                assert(s[i] == decimal(n / 10)[i]);
            }
        }
    }
}

/// Zeros on the left do not change the value.
proof fn lemma_zeros(k: nat, digits: Seq<char>)
    ensures
        decimal_value(zeros(k) + digits) == decimal_value(digits),
    decreases digits.len(), k,
{
    let s = zeros(k) + digits;
    if digits.len() > 0 {
        assert(s.drop_last() =~= zeros(k) + digits.drop_last());
        lemma_zeros(k, digits.drop_last());
    } else if k > 0 {
        assert(s.drop_last() =~= zeros((k - 1) as nat) + digits);
        lemma_zeros((k - 1) as nat, digits);
        assert(s.last() == '0');
    } else {
        assert(s =~= digits);
    }
}

/// A number written in decimal is read back, with or without padding.
pub proof fn lemma_parse_decimal(n: u64)
    ensures
        parsed_u64(decimal(n as nat)) == Some(n),
        parsed_u64(padded(n as nat)) == Some(n),
        forall|i: int| 0 <= i < padded(n as nat).len() ==> is_digit(#[trigger] padded(n as nat)[i]),
        forall|i: int| 0 <= i < decimal(n as nat).len() ==> is_digit(#[trigger] decimal(n as nat)[i]),
{
    let d = decimal(n as nat);
    let p = padded(n as nat);
    lemma_decimal(n as nat);
    if d.len() < 10 {
        lemma_zeros((10 - d.len()) as nat, d);
        assert forall|i: int| 0 <= i < p.len() implies is_digit(#[trigger] p[i]) by {
            if i >= 10 - d.len() {
                assert(p[i] == d[i - (10 - d.len())]);
            }
        }
    }
    assert(is_digit(d[0]));
    assert(is_digit(p[0]));
}

/// The position of the first newline at or after `i`, or the end of the text.
pub open spec fn line_end(text: Seq<char>, i: int) -> int
    decreases text.len() - i,
{
    if i >= text.len() || text[i] == '\n' {
        i
    } else {
        line_end(text, i + 1)
    }
}

/// A line without the carriage return that may close it.
pub open spec fn without_cr(line: Seq<char>) -> Seq<char> {
    if line.len() > 0 && line.last() == '\r' {
        line.drop_last()
    } else {
        line
    }
}

/// The first newline is not before where it is looked for.
proof fn lemma_line_end(text: Seq<char>, i: int)
    requires
        0 <= i <= text.len(),
    ensures
        i <= line_end(text, i) <= text.len(),
        line_end(text, i) < text.len() ==> text[line_end(text, i)] == '\n',
        forall|k: int| i <= k < line_end(text, i) ==> #[trigger] text[k] != '\n',
    decreases text.len() - i,
{
    if i < text.len() && text[i] != '\n' {
        lemma_line_end(text, i + 1);
    }
}

/// The lines of the text from `i` on. A line ends at a newline, which may follow a
/// carriage return; neither belongs to the line. The last line need not be ended.
pub open spec fn lines_from(text: Seq<char>, i: int) -> Seq<Seq<char>>
    decreases text.len() - i,
    when 0 <= i
    via lines_from_decreases
{
    if i >= text.len() {
        seq![]
    } else {
        let end = line_end(text, i);
        if end < text.len() {
            seq![without_cr(text.subrange(i, end))] + lines_from(text, end + 1)
        } else {
            seq![text.subrange(i, text.len() as int)]
        }
    }
}

#[via_fn]
proof fn lines_from_decreases(text: Seq<char>, i: int) {
    if i < text.len() {
        lemma_line_end(text, i);
    }
}

/// The lines of the text.
pub open spec fn lines(text: Seq<char>) -> Seq<Seq<char>> {
    lines_from(text, 0)
}

/// The views of some lines.
pub open spec fn line_views(ls: Seq<Vec<char>>) -> Seq<Seq<char>> {
    ls.map_values(|l: Vec<char>| l@)
}

/// Splits a text into its lines.
pub fn split_lines(chars: &Vec<char>) -> (ls: Vec<Vec<char>>)
    ensures
        line_views(ls@) == lines(chars@),
{
    let mut ls: Vec<Vec<char>> = Vec::new();
    let mut start: usize = 0;
    assert(line_views(ls@) + lines_from(chars@, 0) =~= lines_from(chars@, 0));
    while start < chars.len()
        invariant
            start <= chars@.len(),
            line_views(ls@) + lines_from(chars@, start as int) == lines(chars@),
        decreases chars@.len() - start,
    {
        let mut end: usize = start;
        while end < chars.len() && chars[end] != '\n'
            invariant
                start <= end <= chars@.len(),
                line_end(chars@, end as int) == line_end(chars@, start as int),
            decreases chars@.len() - end,
        {
            end += 1;
        }
        proof {
            lemma_line_end(chars@, start as int);
            assert(end == line_end(chars@, start as int));
        }
        let ghost before = ls@;
        if end < chars.len() {
            let mut stop: usize = end;
            let ghost line = chars@.subrange(start as int, end as int);
            if end > start && chars[end - 1] == '\r' {
                assert(line.last() == '\r');
                stop = end - 1;
                assert(without_cr(line) =~= chars@.subrange(start as int, stop as int));
            } else {
                assert(without_cr(line) == line);
            }
            ls.push(slice_of(chars, start, stop));
            proof {
                assert(line_views(ls@) =~= line_views(before).push(without_cr(line)));
                assert(line_views(before) + (seq![without_cr(line)] + lines_from(chars@, end + 1))
                    =~= line_views(ls@) + lines_from(chars@, end + 1));
            }
            start = end + 1;
        } else {
            ls.push(slice_of(chars, start, end));
            proof {
                let line = chars@.subrange(start as int, end as int);
                assert(line_views(ls@) =~= line_views(before).push(line));
                assert(lines_from(chars@, end as int) =~= seq![]);
                assert(line_views(before) + seq![line] =~= line_views(ls@) + lines_from(
                    chars@,
                    end as int,
                ));
            }
            start = end;
        }
    }
    assert(line_views(ls@) + lines_from(chars@, start as int) =~= line_views(ls@));
    ls
}

/// The first newline after a line without one is the one that ends it.
proof fn lemma_line_found(text: Seq<char>, i: int, j: int)
    requires
        0 <= i <= j < text.len(),
        text[j] == '\n',
        forall|k: int| i <= k < j ==> #[trigger] text[k] != '\n',
    ensures
        line_end(text, i) == j,
    decreases j - i,
{
    if i < j {
        lemma_line_found(text, i + 1, j);
    }
}

/// The lines from a later position on are those of the text that starts there.
proof fn lemma_lines_shift(a: Seq<char>, b: Seq<char>, i: int)
    requires
        0 <= i <= b.len(),
    ensures
        lines_from(a + b, a.len() + i) == lines_from(b, i),
    decreases b.len() - i,
{
    let text = a + b;
    let n = a.len() as int;
    if i < b.len() {
        lemma_line_end(b, i);
        lemma_line_end(text, n + i);
        let end = line_end(b, i);
        if end < b.len() {
            assert forall|k: int| n + i <= k < n + end implies #[trigger] text[k] != '\n' by {
                assert(text[k] == b[k - n]);
            }
            lemma_line_found(text, n + i, n + end);
            lemma_lines_shift(a, b, end + 1);
            assert(text.subrange(n + i, n + end) =~= b.subrange(i, end));
        } else {
            let other = line_end(text, n + i);
            if other < text.len() {
                assert(b[other - n] == '\n');
                assert(other - n < end);
            }
            assert(text.subrange(n + i, text.len() as int) =~= b.subrange(i, b.len() as int));
        }
    }
}

/// A text that opens with a line gives that line first, and then the lines of the rest.
pub proof fn lemma_lines_cons(line: Seq<char>, rest: Seq<char>)
    requires
        !line.contains('\n'),
        !line.contains('\r'),
    ensures
        lines(line.push('\n') + rest) == seq![line] + lines(rest),
{
    let head = line.push('\n');
    let text = head + rest;
    assert forall|k: int| 0 <= k < line.len() implies #[trigger] text[k] != '\n' by {
        assert(text[k] == line[k]);
        assert(line.contains(line[k]));
    }
    assert(text[line.len() as int] == '\n');
    lemma_line_found(text, 0, line.len() as int);
    assert(text.subrange(0, line.len() as int) =~= line);
    if line.len() > 0 {
        assert(line.contains(line.last()));
    }
    lemma_lines_shift(head, rest, 0);
}

/// A text that opens with a line gives that line first, without the carriage return that may
/// close it, and then the lines of the rest. A last line need not be closed, and a text
/// without characters has no lines.
pub proof fn law_lines_end_at_newlines(line: Seq<char>, rest: Seq<char>)
    requires
        !line.contains('\n'),
    ensures
        lines(line.push('\n') + rest) == seq![
            if line.len() > 0 && line.last() == '\r' {
                line.drop_last()
            } else {
                line
            },
        ] + lines(rest),
        line.len() > 0 ==> lines(line) == seq![line],
        lines(seq![]) == Seq::<Seq<char>>::empty(),
{
    let head = line.push('\n');
    let text = head + rest;
    assert forall|k: int| 0 <= k < line.len() implies #[trigger] text[k] != '\n' by {
        assert(text[k] == line[k]);
        assert(line.contains(line[k]));
    }
    assert(text[line.len() as int] == '\n');
    lemma_line_found(text, 0, line.len() as int);
    assert(text.subrange(0, line.len() as int) =~= line);
    lemma_lines_shift(head, rest, 0);
    if line.len() > 0 {
        lemma_line_end(line, 0);
        let end = line_end(line, 0);
        if end < line.len() {
            assert(line.contains(line[end]));
        }
        assert(line.subrange(0, line.len() as int) =~= line);
    }
}

/// A number is written in decimal by its digits, the most significant first and without
/// leading zeros.
pub proof fn law_numbers_are_written_in_decimal(n: nat, d: nat)
    requires
        d < 10,
    ensures
        decimal(d) == seq![(48 + d) as char],
        n > 0 ==> decimal(10 * n + d) == decimal(n).push((48 + d) as char),
{
    if n > 0 {
        assert((10 * n + d) / 10 == n);
        assert((10 * n + d) % 10 == d);
    }
}

/// A padded number has at least ten characters: the number in decimal, and zeros before it.
pub proof fn law_padding_is_zeros(n: nat)
    ensures
        padded(n).len() == (if decimal(n).len() < 10 {
            10
        } else {
            decimal(n).len()
        }),
        padded(n).skip(padded(n).len() - decimal(n).len()) == decimal(n),
        forall|i: int|
            0 <= i < padded(n).len() - decimal(n).len() ==> #[trigger] padded(n)[i] == '0',
{
    assert(padded(n).skip(padded(n).len() - decimal(n).len()) =~= decimal(n));
}

/// A number is read from one or more decimal digits, which may follow a plus sign, if it fits.
pub proof fn law_numbers_are_read_from_digits(digits: Seq<char>, d: char)
    requires
        forall|i: int| 0 <= i < digits.len() ==> '0' <= #[trigger] digits[i] <= '9',
        '0' <= d <= '9',
    ensures
        decimal_value(seq![]) == 0,
        decimal_value(digits.push(d)) == 10 * decimal_value(digits) + (d as nat - 48),
        digits.len() > 0 ==> parsed_u64(digits) == (if decimal_value(digits) <= u64::MAX {
            Some(decimal_value(digits) as u64)
        } else {
            None
        }),
        digits.len() > 0 ==> parsed_u64(seq!['+'] + digits) == parsed_u64(digits),
{
    assert(digits.push(d).drop_last() =~= digits);
    assert((seq!['+'] + digits).skip(1) =~= digits);
    if digits.len() > 0 {
        assert(digits[0] != '+');
        assert(forall|i: int| 0 <= i < digits.len() ==> is_digit(#[trigger] digits[i]));
    }
}

/// A text that is read as a number is decimal digits, which may follow a plus sign.
pub proof fn law_only_digits_are_read_as_numbers(text: Seq<char>) -> (digits: Seq<char>)
    requires
        parsed_u64(text) is Some,
    ensures
        text == digits || text == seq!['+'] + digits,
        digits.len() > 0,
        forall|i: int| 0 <= i < digits.len() ==> '0' <= #[trigger] digits[i] <= '9',
        parsed_u64(text) == Some(decimal_value(digits) as u64),
        decimal_value(digits) <= u64::MAX,
{
    let digits = unsigned(text);
    assert forall|i: int| 0 <= i < digits.len() implies '0' <= #[trigger] digits[i] <= '9' by {
        assert(is_digit(digits[i]));
    }
    if text.len() > 0 && text[0] == '+' {
        assert(text =~= seq!['+'] + digits);
    }
    digits
}

} // verus!
