//! Reading the decimal notation of a number as a quantity in billionths.

use vstd::prelude::*;
use vstd::string::*;

verus! {

/// Whether a character is a decimal digit.
pub open spec fn is_digit(c: char) -> bool {
    '0' <= c && c <= '9'
}

/// Where the digits that start at a position of a text end.
pub open spec fn run_end(text: Seq<char>, from: int) -> int
    decreases text.len() - from,
{
    if 0 <= from < text.len() && is_digit(text[from]) {
        run_end(text, from + 1)
    } else {
        from
    }
}

/// The number that a row of digits stands for.
pub open spec fn number_of(digits: Seq<char>) -> nat
    decreases digits.len(),
{
    if digits.len() == 0 {
        0
    } else {
        number_of(digits.drop_last()) * 10 + (digits.last() as nat - '0' as nat) as nat
    }
}

/// A row of digits whose decimal point was moved `by` places to the right: zeros fill
/// up on the right, and what falls behind the point is dropped.
pub open spec fn shifted(digits: Seq<char>, by: int) -> Seq<char> {
    if by >= 0 {
        digits + Seq::new(by as nat, |i: int| '0')
    } else if digits.len() + by > 0 {
        digits.take(digits.len() + by)
    } else {
        Seq::empty()
    }
}

/// A number in decimal notation, taken apart.
pub struct Notation {
    pub negative: bool,
    /// The digits before and after the point, in one row.
    pub digits: Seq<char>,
    /// How many of them stand after the point.
    pub places: int,
    pub exponent: int,
}

impl Notation {
    /// The number in billionths, rounded toward zero and kept within `-i128::MAX` to
    /// `i128::MAX`.
    pub open spec fn billionths(self) -> int {
        let size = number_of(shifted(self.digits, self.exponent - self.places + 9));
        let kept = if size > i128::MAX {
            i128::MAX as int
        } else {
            size as int
        };
        if self.negative {
            -kept
        } else {
            kept
        }
    }
}

/// The exponent that a text ends with, from the position of its `e` on: a sign, and one
/// to four digits. No text at all is the exponent zero.
pub open spec fn exponent_at(text: Seq<char>, at: int) -> Option<int> {
    if at == text.len() {
        Some(0)
    } else if text[at] != 'e' && text[at] != 'E' {
        None
    } else {
        let signed = at + 1 < text.len() && (text[at + 1] == '-' || text[at + 1] == '+');
        let from = if signed {
            at + 2
        } else {
            at + 1
        };
        if from < text.len() <= from + 4 && run_end(text, from) == text.len() {
            let size = number_of(text.subrange(from, text.len() as int)) as int;
            Some(
                if text[at + 1] == '-' {
                    -size
                } else {
                    size
                },
            )
        } else {
            None
        }
    }
}

/// What a text says, if it is a number in decimal notation: an optional minus sign,
/// digits, an optional point with digits, and an optional exponent.
pub open spec fn notation(text: Seq<char>) -> Option<Notation> {
    let negative = text.len() > 0 && text[0] == '-';
    let from = if negative {
        1int
    } else {
        0int
    };
    let point = run_end(text, from);
    let pointed = point < text.len() && text[point] == '.';
    let end = if pointed {
        run_end(text, point + 1)
    } else {
        point
    };
    if point == from || (pointed && end == point + 1) {
        None
    } else {
        match exponent_at(text, end) {
            Some(exponent) => Some(
                Notation {
                    negative,
                    digits: text.subrange(from, point) + if pointed {
                        text.subrange(point + 1, end)
                    } else {
                        Seq::empty()
                    },
                    places: if pointed {
                        end - point - 1
                    } else {
                        0
                    },
                    exponent,
                },
            ),
            None => None,
        }
    }
}

/// A run of digits ends where it starts or later, within the text, and holds nothing
/// but digits.
pub proof fn lemma_run(text: Seq<char>, from: int)
    requires
        0 <= from <= text.len(),
    ensures
        from <= run_end(text, from) <= text.len(),
        forall|i: int| from <= i < run_end(text, from) ==> is_digit(#[trigger] text[i]),
    decreases text.len() - from,
{
    if from < text.len() && is_digit(text[from]) {
        lemma_run(text, from + 1);
    }
}

/// Finds where the digits that start at a position of a text end.
fn find_run_end(text: &Vec<char>, from: usize) -> (end: usize)
    requires
        from <= text.len(),
    ensures
        end == run_end(text@, from as int),
        from <= end <= text.len(),
{
    let mut end: usize = from;
    while end < text.len() && '0' <= text[end] && text[end] <= '9'
        invariant
            from <= end <= text.len(),
            run_end(text@, from as int) == run_end(text@, end as int),
        decreases text.len() - end,
    {
        end += 1;
    }
    end
}

/// One more digit makes a number ten times as large and adds the digit.
proof fn lemma_number_of_more(digits: Seq<char>, next: char)
    requires
        is_digit(next),
    ensures
        number_of(digits.push(next)) == number_of(digits) * 10 + (next as nat - '0' as nat),
{
    assert(digits.push(next).drop_last() =~= digits);
}

/// A number, kept within `i128`.
spec fn kept(size: nat) -> int {
    if size > i128::MAX {
        i128::MAX as int
    } else {
        size as int
    }
}

/// Appends a digit to a number.
fn with_digit(size: i128, digit: char) -> (longer: i128)
    requires
        is_digit(digit),
        0 <= size,
    ensures
        longer == kept((size * 10 + (digit as nat - '0' as nat)) as nat),
{
    let value: i128 = (digit as u32 - '0' as u32) as i128;
    match size.checked_mul(10) {
        Some(tens) => match tens.checked_add(value) {
            Some(longer) => longer,
            None => i128::MAX,
        },
        None => i128::MAX,
    }
}

/// Whether a row holds nothing but digits.
spec fn all_digits(row: Seq<char>) -> bool {
    forall|i: int| 0 <= i < row.len() ==> is_digit(#[trigger] row[i])
}

/// Reads a row of digits.
fn read_number(digits: &Vec<char>) -> (size: i128)
    requires
        all_digits(digits@),
    ensures
        size == kept(number_of(digits@)),
        0 <= size,
{
    let mut size: i128 = 0;
    let mut at: usize = 0;
    while at < digits.len()
        invariant
            0 <= at <= digits.len(),
            all_digits(digits@),
            0 <= size,
            size == kept(number_of(digits@.take(at as int))),
        decreases digits.len() - at,
    {
        size = with_digit(size, digits[at]);
        proof {
            lemma_number_of_more(digits@.take(at as int), digits@[at as int]);
            assert(digits@.take(at + 1) =~= digits@.take(at as int).push(digits@[at as int]));
        }
        at += 1;
    }
    assert(digits@.take(at as int) =~= digits@);
    size
}

/// Appends part of a text to a row.
fn extend(row: &mut Vec<char>, text: &Vec<char>, from: usize, to: usize)
    requires
        from <= to <= text.len(),
    ensures
        final(row)@ == old(row)@ + text@.subrange(from as int, to as int),
{
    let mut at: usize = from;
    while at < to
        invariant
            from <= at <= to <= text.len(),
            row@ == old(row)@ + text@.subrange(from as int, at as int),
        decreases to - at,
    {
        row.push(text[at]);
        at += 1;
    }
}

/// Moves the decimal point of a row of digits.
fn shift(digits: &mut Vec<char>, by: i128)
    requires
        all_digits(old(digits)@),
    ensures
        final(digits)@ == shifted(old(digits)@, by as int),
        all_digits(final(digits)@),
{
    if by >= 0 {
        let mut left: i128 = by;
        while left > 0
            invariant
                0 <= left <= by,
                all_digits(digits@),
                digits@ == shifted(old(digits)@, by - left),
            decreases left,
        {
            digits.push('0');
            left -= 1;
        }
    } else {
        let len: i128 = digits.len() as i128;
        if by > -len {
            digits.truncate((len + by) as usize);
        } else {
            digits.clear();
        }
    }
}

/// Reads the exponent that a text ends with.
fn read_exponent(text: &Vec<char>, at: usize) -> (exponent: Option<i128>)
    requires
        at <= text.len(),
    ensures
        match exponent {
            Some(exponent) => exponent_at(text@, at as int) == Some(exponent as int),
            None => exponent_at(text@, at as int) is None,
        },
        exponent is Some ==> -9999 <= exponent->0 <= 9999,
{
    if at == text.len() {
        return Some(0);
    }
    if text[at] != 'e' && text[at] != 'E' {
        return None;
    }
    let rest: usize = text.len() - at - 1;
    let signed: bool = rest > 0 && (text[at + 1] == '-' || text[at + 1] == '+');
    let from: usize = if signed {
        at + 2
    } else {
        at + 1
    };
    let count: usize = text.len() - from;
    if count == 0 || count > 4 || find_run_end(text, from) != text.len() {
        return None;
    }
    proof {
        lemma_run(text@, from as int);
    }
    let mut digits: Vec<char> = Vec::new();
    extend(&mut digits, text, from, text.len());
    assert(digits@ =~= text@.subrange(from as int, text.len() as int));
    let size: i128 = read_number(&digits);
    proof {
        lemma_four_digits(digits@);
    }
    if text[at + 1] == '-' {
        Some(-size)
    } else {
        Some(size)
    }
}

/// Up to four digits make a number below ten thousand.
proof fn lemma_four_digits(digits: Seq<char>)
    requires
        digits.len() <= 4,
        all_digits(digits),
    ensures
        number_of(digits) <= 9999,
{
    reveal_with_fuel(number_of, 5);
}

/// Reads a number in decimal notation as billionths: rounded toward zero, and kept
/// within `-i128::MAX` to `i128::MAX`. A text that is no such number gives `None`.
pub fn read_billionths(text: &str) -> (amount: Option<i128>)
    ensures
        match notation(text@) {
            Some(parts) => amount is Some && amount->0 == parts.billionths(),
            None => amount is None,
        },
{
    let text: Vec<char> = chars_of(text);
    let negative: bool = text.len() > 0 && text[0] == '-';
    let from: usize = if negative {
        1
    } else {
        0
    };
    let point: usize = find_run_end(&text, from);
    if point == from {
        return None;
    }
    let pointed: bool = point < text.len() && text[point] == '.';
    let end: usize = if pointed {
        find_run_end(&text, point + 1)
    } else {
        point
    };
    if pointed && end == point + 1 {
        return None;
    }
    let exponent: i128 = match read_exponent(&text, end) {
        Some(exponent) => exponent,
        None => {
            return None;
        },
    };
    proof {
        lemma_run(text@, from as int);
        lemma_run(text@, point as int + if pointed { 1int } else { 0int });
    }
    let mut digits: Vec<char> = Vec::new();
    extend(&mut digits, &text, from, point);
    let places: usize = if pointed {
        extend(&mut digits, &text, point + 1, end);
        end - point - 1
    } else {
        0
    };
    let ghost parts = notation(text@)->0;
    assert(digits@ =~= parts.digits);
    shift(&mut digits, exponent - places as i128 + 9);
    let size: i128 = read_number(&digits);
    if negative {
        Some(-size)
    } else {
        Some(size)
    }
}

/// The characters of a text.
fn chars_of(text: &str) -> (chars: Vec<char>)
    ensures
        chars@ == text@,
{
    let mut chars: Vec<char> = Vec::new();
    let len: usize = text.unicode_len();
    let mut at: usize = 0;
    while at < len
        invariant
            0 <= at <= len,
            len == text@.len(),
            chars@ == text@.take(at as int),
        decreases len - at,
    {
        chars.push(text.get_char(at));
        at += 1;
    }
    assert(chars@ =~= text@);
    chars
}

} // verus!
