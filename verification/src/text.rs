//! Numbers as text: the numerals that the text forms of states and actions
//! are made of, and how they are read back.
use vstd::prelude::*;
use vstd::string::*;

verus! {

/// The character for a digit below sixteen.
pub open spec fn digit_char(d: int) -> char {
    seq!['0', '1', '2', '3', '4', '5', '6', '7', '8', '9', 'a', 'b', 'c', 'd', 'e', 'f'][d]
}

/// The digit that a character stands for, in either case of the letters.
pub open spec fn digit_value(c: char) -> Option<int> {
    if c == '0' {
        Some(0)
    } else if c == '1' {
        Some(1)
    } else if c == '2' {
        Some(2)
    } else if c == '3' {
        Some(3)
    } else if c == '4' {
        Some(4)
    } else if c == '5' {
        Some(5)
    } else if c == '6' {
        Some(6)
    } else if c == '7' {
        Some(7)
    } else if c == '8' {
        Some(8)
    } else if c == '9' {
        Some(9)
    } else if c == 'a' || c == 'A' {
        Some(10)
    } else if c == 'b' || c == 'B' {
        Some(11)
    } else if c == 'c' || c == 'C' {
        Some(12)
    } else if c == 'd' || c == 'D' {
        Some(13)
    } else if c == 'e' || c == 'E' {
        Some(14)
    } else if c == 'f' || c == 'F' {
        Some(15)
    } else {
        None
    }
}

/// The numeral for `value` in the given radix, without leading zeros.
pub open spec fn numeral(value: int, radix: int) -> Seq<char>
    recommends
        0 <= value,
        2 <= radix <= 16,
    decreases value,
{
    if value < radix || radix < 2 {
        seq![digit_char(value)]
    } else {
        proof {
            assert(0 <= value / radix < value) by (nonlinear_arith)
                requires
                    value >= radix,
                    radix >= 2,
            ;
        }
        numeral(value / radix, radix).push(digit_char(value % radix))
    }
}

/// The last `width` digits of the numeral for `value`, with leading zeros
/// where it has fewer.
pub open spec fn padded_numeral(value: int, radix: int, width: nat) -> Seq<char>
    decreases width,
{
    if width == 0 {
        Seq::empty()
    } else {
        padded_numeral(value / radix, radix, (width - 1) as nat).push(digit_char(value % radix))
    }
}

/// The number that digits spell in the given radix, if they are digits of
/// that radix and the number is at most `max`. No digits spell zero.
pub open spec fn number(digits: Seq<char>, radix: int, max: int) -> Option<int>
    decreases digits.len(),
{
    if digits.len() == 0 {
        Some(0)
    } else {
        match (number(digits.drop_last(), radix, max), digit_value(digits.last())) {
            (Some(before), Some(d)) => if d < radix && before * radix + d <= max {
                Some(before * radix + d)
            } else {
                None
            },
            _ => None,
        }
    }
}

/// The number that a text stands for: digits of the radix, at least one,
/// after an optional plus sign.
pub open spec fn unsigned_number(text: Seq<char>, radix: int, max: int) -> Option<int> {
    let digits = if text.len() > 0 && text[0] == '+' {
        text.drop_first()
    } else {
        text
    };
    if digits.len() == 0 {
        None
    } else {
        number(digits, radix, max)
    }
}

/// The decimal numeral for a whole number, with a minus sign where it is
/// negative.
pub open spec fn signed_decimal(value: int) -> Seq<char> {
    if value < 0 {
        seq!['-'] + numeral(-value, 10)
    } else {
        numeral(value, 10)
    }
}

/// A digit character stands for its digit.
pub proof fn lemma_digit_round_trip(d: int)
    requires
        0 <= d < 16,
    ensures
        digit_value(digit_char(d)) == Some(d),
        digit_char(d) != '+',
{
}

/// The digits of a numeral spell its number.
pub proof fn lemma_numeral_round_trip(value: int, radix: int, max: int)
    requires
        0 <= value <= max,
        2 <= radix <= 16,
    ensures
        number(numeral(value, radix), radix, max) == Some(value),
        numeral(value, radix).len() > 0,
        numeral(value, radix)[0] != '+',
        unsigned_number(numeral(value, radix), radix, max) == Some(value),
    decreases value,
{
    if value < radix {
        lemma_digit_round_trip(value);
        let text = numeral(value, radix);
        assert(text == seq![digit_char(value)]);
        assert(text.len() == 1);
        assert(text.drop_last() =~= Seq::<char>::empty());
        assert(number(text.drop_last(), radix, max) == Some(0int));
        assert(text.last() == digit_char(value));
        assert(0 * radix + value == value);
        assert(number(text, radix, max) == Some(value));
    } else {
        let before = value / radix;
        let d = value % radix;
        assert(before * radix + d == value) by (nonlinear_arith)
            requires
                before == value / radix,
                d == value % radix,
                radix >= 2,
        ;
        assert(0 <= before < value) by (nonlinear_arith)
            requires
                before == value / radix,
                value >= radix,
                radix >= 2,
        ;
        lemma_numeral_round_trip(before, radix, max);
        lemma_digit_round_trip(d);
        let text = numeral(value, radix);
        assert(text == numeral(before, radix).push(digit_char(d)));
        assert(text.drop_last() =~= numeral(before, radix));
        assert(text.last() == digit_char(d));
        assert(0 <= d < radix) by (nonlinear_arith)
            requires
                d == value % radix,
                radix >= 2,
        ;
        assert(number(text, radix, max) == Some(value));
        assert(text[0] == numeral(before, radix)[0]);
    }
}

/// The text of one digit.
pub fn digit_text(d: u8) -> (text: &'static str)
    requires
        d < 16,
    ensures
        text@ == seq![digit_char(d as int)],
{
    proof {
        reveal_strlit("0");
        reveal_strlit("1");
        reveal_strlit("2");
        reveal_strlit("3");
        reveal_strlit("4");
        reveal_strlit("5");
        reveal_strlit("6");
        reveal_strlit("7");
        reveal_strlit("8");
        reveal_strlit("9");
        reveal_strlit("a");
        reveal_strlit("b");
        reveal_strlit("c");
        reveal_strlit("d");
        reveal_strlit("e");
        reveal_strlit("f");
    }
    let text = match d {
        0 => "0",
        1 => "1",
        2 => "2",
        3 => "3",
        4 => "4",
        5 => "5",
        6 => "6",
        7 => "7",
        8 => "8",
        9 => "9",
        10 => "a",
        11 => "b",
        12 => "c",
        13 => "d",
        14 => "e",
        _ => "f",
    };
    assert(text@ =~= seq![digit_char(d as int)]);
    text
}

/// The digit that a character stands for.
pub fn digit_of(c: char) -> (d: Option<u8>)
    ensures
        match d {
            Some(d) => digit_value(c) == Some(d as int) && d < 16,
            None => digit_value(c) is None,
        },
{
    if c == '0' {
        Some(0)
    } else if c == '1' {
        Some(1)
    } else if c == '2' {
        Some(2)
    } else if c == '3' {
        Some(3)
    } else if c == '4' {
        Some(4)
    } else if c == '5' {
        Some(5)
    } else if c == '6' {
        Some(6)
    } else if c == '7' {
        Some(7)
    } else if c == '8' {
        Some(8)
    } else if c == '9' {
        Some(9)
    } else if c == 'a' || c == 'A' {
        Some(10)
    } else if c == 'b' || c == 'B' {
        Some(11)
    } else if c == 'c' || c == 'C' {
        Some(12)
    } else if c == 'd' || c == 'D' {
        Some(13)
    } else if c == 'e' || c == 'E' {
        Some(14)
    } else if c == 'f' || c == 'F' {
        Some(15)
    } else {
        None
    }
}

/// Appends the numeral for `value`.
pub fn append_numeral(text: &mut String, value: u64, radix: u64)
    requires
        2 <= radix <= 16,
    ensures
        final(text)@ == old(text)@ + numeral(value as int, radix as int),
    decreases value,
{
    if value < radix {
        text.append(digit_text(value as u8));
    } else {
        assert(value / radix < value) by (nonlinear_arith)
            requires
                value >= radix,
                radix >= 2,
        ;
        append_numeral(text, value / radix, radix);
        text.append(digit_text((value % radix) as u8));
        assert(text@ =~= old(text)@ + numeral(value as int, radix as int));
    }
}

/// Appends the last `width` digits of the numeral for `value`, with
/// leading zeros where it has fewer.
pub fn append_padded_numeral(text: &mut String, value: u64, radix: u64, width: u32)
    requires
        2 <= radix <= 16,
    ensures
        final(text)@ == old(text)@ + padded_numeral(value as int, radix as int, width as nat),
    decreases width,
{
    if width > 0 {
        append_padded_numeral(text, value / radix, radix, width - 1);
        text.append(digit_text((value % radix) as u8));
        assert(text@ =~= old(text)@ + padded_numeral(
            value as int,
            radix as int,
            width as nat,
        ));
    } else {
        assert(text@ =~= old(text)@ + padded_numeral(value as int, radix as int, 0));
    }
}

/// Appends the decimal numeral for `value`, with a minus sign where it is
/// negative.
pub fn append_signed_decimal(text: &mut String, value: i64)
    ensures
        final(text)@ == old(text)@ + signed_decimal(value as int),
{
    if value < 0 {
        proof {
            reveal_strlit("-");
        }
        text.append("-");
        let magnitude: u64 = if value == i64::MIN {
            0x8000_0000_0000_0000u64
        } else {
            (-value) as u64
        };
        append_numeral(text, magnitude, 10);
        assert(text@ =~= old(text)@ + signed_decimal(value as int));
    } else {
        append_numeral(text, value as u64, 10);
    }
}

/// The characters of a text.
pub fn chars_of(text: &str) -> (chars: Vec<char>)
    ensures
        chars@ == text@,
{
    let len = text.unicode_len();
    let mut chars: Vec<char> = Vec::new();
    let mut i: usize = 0;
    while i < len
        invariant
            i <= len,
            len == text@.len(),
            chars@ == text@.take(i as int),
        decreases len - i,
    {
        chars.push(text.get_char(i));
        i += 1;
        assert(chars@ =~= text@.take(i as int));
    }
    assert(text@.take(len as int) =~= text@);
    chars
}

/// Reads the number that the characters from place `from` up to place `to`
/// spell in the given radix, if they spell one that is at most `max`.
pub fn read_number(chars: &Vec<char>, from: usize, to: usize, radix: u64, max: u64) -> (value:
    Option<u64>)
    requires
        from <= to <= chars@.len(),
        2 <= radix <= 16,
    ensures
        match value {
            Some(v) => number(chars@.subrange(from as int, to as int), radix as int, max as int)
                == Some(v as int),
            None => number(chars@.subrange(from as int, to as int), radix as int, max as int)
                is None,
        },
{
    let ghost digits = chars@.subrange(from as int, to as int);
    let mut value: u64 = 0;
    let mut i = from;
    proof {
        assert(digits.take(0) =~= Seq::<char>::empty());
    }
    while i < to
        invariant
            from <= i <= to <= chars@.len(),
            2 <= radix <= 16,
            digits == chars@.subrange(from as int, to as int),
            value <= max,
            number(digits.take(i - from), radix as int, max as int) == Some(value as int),
        decreases to - i,
    {
        let c = chars[i];
        let ghost upto = digits.take(i - from + 1);
        proof {
            assert(upto.drop_last() =~= digits.take(i - from));
            assert(upto.last() == c);
        }
        let read = match digit_of(c) {
            Some(d) if (d as u64) < radix => {
                assert(value * radix + d <= u64::MAX * 16 + 16) by (nonlinear_arith)
                    requires
                        value <= u64::MAX,
                        radix <= 16,
                        d < 16,
                ;
                let next = (value as u128) * (radix as u128) + d as u128;
                if next <= max as u128 {
                    Some(next as u64)
                } else {
                    None
                }
            },
            _ => None,
        };
        match read {
            Some(next) => {
                value = next;
            },
            None => {
                proof {
                    lemma_number_prefix(digits, radix as int, max as int, i - from + 1);
                }
                return None;
            },
        }
        i += 1;
    }
    proof {
        assert(digits.take(to - from) =~= digits);
    }
    Some(value)
}

/// Where the first digits spell no number, all of them spell none.
pub proof fn lemma_number_prefix(digits: Seq<char>, radix: int, max: int, k: int)
    requires
        0 <= k <= digits.len(),
        number(digits.take(k), radix, max) is None,
    ensures
        number(digits, radix, max) is None,
    decreases digits.len(),
{
    if k == digits.len() {
        assert(digits.take(k) =~= digits);
    } else {
        assert(digits.drop_last().take(k) =~= digits.take(k));
        lemma_number_prefix(digits.drop_last(), radix, max, k);
    }
}

/// Reads the number that the characters from place `from` up to place `to`
/// stand for: digits of the radix, at least one, after an optional plus
/// sign.
pub fn read_unsigned(chars: &Vec<char>, from: usize, to: usize, radix: u64, max: u64) -> (value:
    Option<u64>)
    requires
        from <= to <= chars@.len(),
        2 <= radix <= 16,
    ensures
        match value {
            Some(v) => unsigned_number(
                chars@.subrange(from as int, to as int),
                radix as int,
                max as int,
            ) == Some(v as int),
            None => unsigned_number(
                chars@.subrange(from as int, to as int),
                radix as int,
                max as int,
            ) is None,
        },
{
    let ghost text = chars@.subrange(from as int, to as int);
    let start: usize = if from < to && chars[from] == '+' {
        from + 1
    } else {
        from
    };
    if start == to {
        return None;
    }
    proof {
        if start == from + 1 {
            assert(chars@.subrange(start as int, to as int) =~= text.drop_first());
        }
    }
    read_number(chars, start, to, radix, max)
}

/// Reads the number that `text` stands for: digits of the radix, at least
/// one, after an optional plus sign.
pub fn read_unsigned_text(text: &str, radix: u64, max: u64) -> (value: Option<u64>)
    requires
        2 <= radix <= 16,
    ensures
        match value {
            Some(v) => unsigned_number(text@, radix as int, max as int) == Some(v as int),
            None => unsigned_number(text@, radix as int, max as int) is None,
        },
{
    let chars = chars_of(text);
    assert(chars@.subrange(0, chars@.len() as int) =~= text@);
    read_unsigned(&chars, 0, chars.len(), radix, max)
}

/// The place of the first `mark` of a text from place `from` on; the
/// length of the text where there is none.
pub open spec fn first_mark(text: Seq<char>, mark: char, from: int) -> int
    decreases text.len() - from,
{
    if from < 0 || from >= text.len() {
        text.len() as int
    } else if text[from] == mark {
        from
    } else {
        first_mark(text, mark, from + 1)
    }
}

/// The first `mark` is where no place before it holds one.
pub proof fn lemma_first_mark(text: Seq<char>, mark: char, from: int, at: int)
    requires
        0 <= from <= at <= text.len(),
        forall|i: int| from <= i < at ==> text[i] != mark,
        at < text.len() ==> text[at] == mark,
    ensures
        first_mark(text, mark, from) == at,
    decreases at - from,
{
    if from < at {
        lemma_first_mark(text, mark, from + 1, at);
    }
}

/// The parts of a text between the characters `mark`, from first to last.
/// A text that holds no `mark` is its only part.
pub open spec fn parts(text: Seq<char>, mark: char) -> Seq<Seq<char>>
    decreases text.len(),
{
    let at = first_mark(text, mark, 0);
    if at >= text.len() || at < 0 {
        seq![text]
    } else {
        seq![text.take(at)] + parts(text.skip(at + 1), mark)
    }
}

/// The place of the first `mark` from place `from` on, before place `to`;
/// `to` where there is none.
pub fn find_mark(chars: &Vec<char>, from: usize, to: usize, mark: char) -> (at: usize)
    requires
        from <= to <= chars@.len(),
    ensures
        from <= at <= to,
        forall|i: int| from <= i < at ==> chars@[i] != mark,
        at < to ==> chars@[at as int] == mark,
{
    let mut at = from;
    while at < to
        invariant
            from <= at <= to <= chars@.len(),
            forall|i: int| from <= i < at ==> chars@[i] != mark,
        decreases to - at,
    {
        if chars[at] == mark {
            return at;
        }
        at += 1;
    }
    at
}

/// Whether a text holds the character `mark`.
pub fn holds(text: &str, mark: char) -> (found: bool)
    ensures
        found == text@.contains(mark),
{
    let chars = chars_of(text);
    let at = find_mark(&chars, 0, chars.len(), mark);
    at < chars.len()
}

/// Where the parts of the characters from place `from` up to place `to`
/// begin and end.
pub fn split_at_marks(chars: &Vec<char>, from: usize, to: usize, mark: char) -> (bounds: Vec<
    (usize, usize),
>)
    requires
        from <= to <= chars@.len(),
    ensures
        bounds@.len() == parts(chars@.subrange(from as int, to as int), mark).len(),
        forall|k: int|
            0 <= k < bounds@.len() ==> {
                &&& from <= (#[trigger] bounds@[k]).0 <= bounds@[k].1 <= to
                &&& chars@.subrange(bounds@[k].0 as int, bounds@[k].1 as int) == parts(
                    chars@.subrange(from as int, to as int),
                    mark,
                )[k]
            },
{
    let ghost whole = chars@.subrange(from as int, to as int);
    let mut bounds: Vec<(usize, usize)> = Vec::new();
    let mut start = from;
    let ghost mut done: Seq<Seq<char>> = Seq::empty();
    assert(done + parts(chars@.subrange(start as int, to as int), mark) =~= parts(whole, mark));
    loop
        invariant
            from <= start <= to <= chars@.len(),
            whole == chars@.subrange(from as int, to as int),
            done.len() == bounds@.len(),
            done + parts(chars@.subrange(start as int, to as int), mark) == parts(whole, mark),
            forall|k: int|
                0 <= k < bounds@.len() ==> {
                    &&& from <= (#[trigger] bounds@[k]).0 <= bounds@[k].1 <= to
                    &&& chars@.subrange(bounds@[k].0 as int, bounds@[k].1 as int) == done[k]
                },
        decreases to - start,
    {
        let at = find_mark(chars, start, to, mark);
        let ghost rest = chars@.subrange(start as int, to as int);
        let ghost part = chars@.subrange(start as int, at as int);
        bounds.push((start, at));
        if at == to {
            proof {
                lemma_first_mark(rest, mark, 0, rest.len() as int);
                assert(part =~= rest);
                assert(parts(rest, mark) =~= seq![rest]);
                assert(done.push(part) =~= done + parts(rest, mark));
                assert forall|k: int| 0 <= k < bounds@.len() implies {
                    &&& from <= (#[trigger] bounds@[k]).0 <= bounds@[k].1 <= to
                    &&& chars@.subrange(bounds@[k].0 as int, bounds@[k].1 as int) == parts(
                        whole,
                        mark,
                    )[k]
                } by {
                    assert(done.push(part)[k] == parts(whole, mark)[k]);
                }
            }
            return bounds;
        }
        proof {
            assert(rest[at - start] == mark);
            let first = at - start;
            lemma_first_mark(rest, mark, 0, first);
            assert(rest.take(first) =~= part);
            assert(rest.skip(first + 1) =~= chars@.subrange(at + 1, to as int));
            assert(done.push(part) + parts(chars@.subrange(at + 1, to as int), mark) =~= done
                + parts(rest, mark));
            done = done.push(part);
        }
        start = at + 1;
    }
}

} // verus!
