//! Laws of numbers in decimal notation: they are read as what their digits say.

use crate::decimal::{
    exponent_at, is_digit, notation, number_of, read_billionths, run_end, shifted, Notation,
};
use vstd::prelude::*;

verus! {

/// A power of ten.
pub open spec fn ten_to(k: nat) -> nat
    decreases k,
{
    if k == 0 {
        1
    } else {
        10 * ten_to((k - 1) as nat)
    }
}

/// Whether a row holds nothing but digits.
pub open spec fn only_digits(row: Seq<char>) -> bool {
    forall|i: int| 0 <= i < row.len() ==> is_digit(#[trigger] row[i])
}

/// A row of digits stands for less than the power of ten of its length.
proof fn lemma_below(digits: Seq<char>)
    requires
        only_digits(digits),
    ensures
        number_of(digits) < ten_to(digits.len()),
    decreases digits.len(),
{
    if digits.len() > 0 {
        let shorter = digits.drop_last();
        assert forall|i: int| 0 <= i < shorter.len() implies is_digit(#[trigger] shorter[i]) by {
            assert(is_digit(digits[i]));
        }
        lemma_below(shorter);
        assert(is_digit(digits[digits.len() - 1]));
    }
}

/// Zeros behind a row of digits multiply it.
proof fn lemma_more_zeros(digits: Seq<char>, k: nat)
    ensures
        number_of(digits + Seq::new(k, |i: int| '0')) == number_of(digits) * ten_to(k),
    decreases k,
{
    let zeros = Seq::new(k, |i: int| '0');
    if k == 0 {
        assert(digits + zeros =~= digits);
        assert(number_of(digits) * 1 == number_of(digits));
    } else {
        let fewer = Seq::new((k - 1) as nat, |i: int| '0');
        lemma_more_zeros(digits, (k - 1) as nat);
        assert((digits + zeros).drop_last() =~= digits + fewer);
        assert((digits + zeros).last() == '0');
        let (a, b) = (number_of(digits), ten_to((k - 1) as nat));
        assert(a * (10 * b) == a * b * 10) by (nonlinear_arith);
    }
}

/// Digits that are left out at the end divide a row.
proof fn lemma_fewer_digits(digits: Seq<char>, k: nat)
    requires
        only_digits(digits),
        k <= digits.len(),
    ensures
        number_of(digits.take(digits.len() - k)) == number_of(digits) / ten_to(k),
        ten_to(k) > 0,
    decreases k,
{
    if k == 0 {
        assert(digits.take(digits.len() as int) =~= digits);
        assert(number_of(digits) / 1 == number_of(digits));
    } else {
        let shorter = digits.drop_last();
        assert forall|i: int| 0 <= i < shorter.len() implies is_digit(#[trigger] shorter[i]) by {
            assert(is_digit(digits[i]));
        }
        lemma_fewer_digits(shorter, (k - 1) as nat);
        assert(shorter.take(shorter.len() - (k - 1)) =~= digits.take(digits.len() - k));
        assert(is_digit(digits[digits.len() - 1]));
        let (x, d, p) = (
            number_of(shorter) as int,
            digits.last() as int - '0' as int,
            ten_to((k - 1) as nat) as int,
        );
        vstd::arithmetic::div_mod::lemma_div_denominator(x * 10 + d, 10, p);
        assert((x * 10 + d) / 10 == x) by (nonlinear_arith)
            requires
                0 <= d < 10,
        ;
    }
}

/// What a row of digits comes to when its point moves, rounded down: multiplied or divided
/// by a power of ten.
pub open spec fn scaled(n: nat, by: int) -> int {
    if by >= 0 {
        (n * ten_to(by as nat)) as int
    } else {
        n as int / ten_to((-by) as nat) as int
    }
}

/// Moving the point of a row of digits scales it.
proof fn lemma_scaled(digits: Seq<char>, by: int)
    requires
        only_digits(digits),
    ensures
        number_of(shifted(digits, by)) == scaled(number_of(digits), by),
{
    if by >= 0 {
        lemma_more_zeros(digits, by as nat);
    } else if digits.len() + by > 0 {
        lemma_fewer_digits(digits, (-by) as nat);
    } else {
        lemma_below(digits);
        lemma_ten_grows(digits.len(), (-by) as nat);
        vstd::arithmetic::div_mod::lemma_basic_div(
            number_of(digits) as int,
            ten_to((-by) as nat) as int,
        );
    }
}

proof fn lemma_ten_grows(a: nat, b: nat)
    requires
        a <= b,
    ensures
        0 < ten_to(a) <= ten_to(b),
    decreases b,
{
    if a < b {
        lemma_ten_grows(a, (b - 1) as nat);
    } else if a > 0 {
        lemma_ten_grows((a - 1) as nat, (b - 1) as nat);
    }
}

/// Where digits that something else follows, or nothing, end.
proof fn lemma_run_ends(text: Seq<char>, from: int, end: int)
    requires
        0 <= from <= end <= text.len(),
        forall|i: int| from <= i < end ==> is_digit(#[trigger] text[i]),
        end < text.len() ==> !is_digit(text[end]),
    ensures
        run_end(text, from) == end,
    decreases end - from,
{
    if from < end {
        lemma_run_ends(text, from + 1, end);
    }
}

/// The text of an exponent: the letter, the sign if there is one, and the digits.
pub open spec fn exponent_text(letter: char, sign: Option<char>, digits: Seq<char>) -> Seq<char> {
    match sign {
        Some(sign) => seq![letter, sign] + digits,
        None => seq![letter] + digits,
    }
}

/// The text of a number: a minus sign if it is negative, digits, a point with digits if
/// there are any behind it, and the text of the exponent.
pub open spec fn number_text(
    negative: bool,
    digits: Seq<char>,
    behind: Seq<char>,
    exponent: Seq<char>,
) -> Seq<char> {
    (if negative {
        seq!['-']
    } else {
        Seq::empty()
    }) + digits + (if behind.len() > 0 {
        seq!['.'] + behind
    } else {
        Seq::empty()
    }) + exponent
}

/// Whether a text is that of an exponent of the given size: none for zero, or up to four
/// digits, negative if and only if a minus sign comes before them.
pub open spec fn is_exponent(text: Seq<char>, exponent: int) -> bool {
    ||| text.len() == 0 && exponent == 0
    ||| exists|letter: char, sign: Option<char>, digits: Seq<char>|
        {
            &&& #[trigger] exponent_text(letter, sign, digits) == text
            &&& letter == 'e' || letter == 'E'
            &&& sign matches Some(sign) ==> sign == '-' || sign == '+'
            &&& 1 <= digits.len() <= 4
            &&& only_digits(digits)
            &&& exponent == if sign == Some('-') {
                -(number_of(digits) as int)
            } else {
                number_of(digits) as int
            }
        }
}

/// An exponent at the end of a text is read as what it says.
proof fn lemma_exponent(text: Seq<char>, at: int, exponent: int)
    requires
        0 <= at <= text.len(),
        is_exponent(text.skip(at), exponent),
    ensures
        exponent_at(text, at) == Some(exponent),
        at < text.len() ==> !is_digit(text[at]) && text[at] != '.',
{
    let tail = text.skip(at);
    if tail.len() > 0 {
        let (letter, sign, digits): (char, Option<char>, Seq<char>) = choose|
            letter: char,
            sign: Option<char>,
            digits: Seq<char>,
        |
            {
                &&& #[trigger] exponent_text(letter, sign, digits) == tail
                &&& letter == 'e' || letter == 'E'
                &&& sign matches Some(sign) ==> sign == '-' || sign == '+'
                &&& 1 <= digits.len() <= 4
                &&& only_digits(digits)
                &&& exponent == if sign == Some('-') {
                    -(number_of(digits) as int)
                } else {
                    number_of(digits) as int
                }
            };
        let skipped: int = if sign is Some {
            2
        } else {
            1
        };
        let from = at + skipped;
        assert(tail[0] == letter && text[at] == tail[0]);
        assert(text.len() == from + digits.len());
        assert forall|i: int| 0 <= i < digits.len() implies text[from + i] == #[trigger] digits[i]
            && is_digit(text[from + i]) by {
            assert(tail[skipped + i] == digits[i]);
            assert(text[at + (skipped + i)] == tail[skipped + i]);
            assert(is_digit(digits[i]));
        }
        assert forall|i: int| from <= i < text.len() implies is_digit(#[trigger] text[i]) by {
            assert(text[from + (i - from)] == digits[i - from]);
        }
        lemma_run_ends(text, from, text.len() as int);
        assert(text.subrange(from, text.len() as int) =~= digits) by {
            assert forall|i: int| 0 <= i < digits.len() implies #[trigger] text.subrange(
                from,
                text.len() as int,
            )[i] == digits[i] by {
                assert(text[from + i] == digits[i]);
            }
        }
        assert(text[at + 1] == tail[1]);
        if sign is Some {
            assert(tail[1] == sign->0);
        } else {
            assert(tail[1] == digits[0]);
            assert(is_digit(digits[0]));
        }
    } else {
        assert(at == text.len());
    }
}

/// A number in decimal notation is taken apart into what it was put together from.
proof fn lemma_notation(
    negative: bool,
    digits: Seq<char>,
    behind: Seq<char>,
    tail: Seq<char>,
    exponent: int,
)
    requires
        digits.len() > 0,
        only_digits(digits),
        only_digits(behind),
        is_exponent(tail, exponent),
    ensures
        notation(number_text(negative, digits, behind, tail)) == Some(
            Notation {
                negative,
                digits: digits + behind,
                places: behind.len() as int,
                exponent,
            },
        ),
{
    let text = number_text(negative, digits, behind, tail);
    let from: int = if negative {
        1
    } else {
        0
    };
    let point = from + digits.len();
    let end: int = if behind.len() > 0 {
        point + 1 + behind.len()
    } else {
        point
    };
    assert(text.len() == end + tail.len());
    assert forall|i: int| 0 <= i < digits.len() implies text[from + i] == #[trigger] digits[i] by {}
    assert forall|i: int| from <= i < point implies is_digit(#[trigger] text[i]) by {
        assert(text[from + (i - from)] == digits[i - from]);
    }
    assert(text.skip(end) =~= tail);
    lemma_exponent(text, end, exponent);
    assert(is_digit(digits[0]));
    assert(text[from] == digits[0]);
    assert(negative <==> text[0] == '-');
    if behind.len() > 0 {
        assert(text[point] == '.');
        assert forall|i: int| 0 <= i < behind.len() implies text[point + 1 + i]
            == #[trigger] behind[i] by {}
        assert forall|i: int| point + 1 <= i < end implies is_digit(#[trigger] text[i]) by {
            assert(text[point + 1 + (i - point - 1)] == behind[i - point - 1]);
        }
        lemma_run_ends(text, point + 1, end);
        assert(text.subrange(point + 1, end) =~= behind);
    }
    lemma_run_ends(text, from, point);
    assert(text.subrange(from, point) =~= digits);
    assert(digits + behind =~= text.subrange(from, point) + if behind.len() > 0 {
        text.subrange(point + 1, end)
    } else {
        Seq::empty()
    });
}

/// What a number comes to in billionths: its digits, before and behind the point in one
/// row, moved by the exponent and by nine places, rounded toward zero and kept within
/// `-i128::MAX` to `i128::MAX`.
pub open spec fn in_billionths(
    negative: bool,
    digits: Seq<char>,
    behind: Seq<char>,
    exponent: int,
) -> int {
    let size = scaled(number_of(digits + behind), exponent - behind.len() + 9);
    let kept = if size > i128::MAX {
        i128::MAX as int
    } else {
        size
    };
    if negative {
        -kept
    } else {
        kept
    }
}

/// A number in decimal notation is read as what its digits, its point, its sign and its
/// exponent say.
pub proof fn a_number_is_read_as_it_is_written(
    text: &str,
    amount: Option<i128>,
    negative: bool,
    digits: Seq<char>,
    behind: Seq<char>,
    tail: Seq<char>,
    exponent: int,
)
    requires
        call_ensures(read_billionths, (text,), amount),
        text@ == number_text(negative, digits, behind, tail),
        digits.len() > 0,
        only_digits(digits),
        only_digits(behind),
        is_exponent(tail, exponent),
    ensures
        amount is Some,
        amount->0 == in_billionths(negative, digits, behind, exponent),
{
    lemma_written(negative, digits, behind, tail, exponent);
}

/// What a number in decimal notation says.
pub proof fn lemma_written(
    negative: bool,
    digits: Seq<char>,
    behind: Seq<char>,
    tail: Seq<char>,
    exponent: int,
)
    requires
        digits.len() > 0,
        only_digits(digits),
        only_digits(behind),
        is_exponent(tail, exponent),
    ensures
        notation(number_text(negative, digits, behind, tail)) matches Some(parts)
            && parts.billionths() == in_billionths(negative, digits, behind, exponent),
{
    let row = digits + behind;
    assert forall|i: int| 0 <= i < row.len() implies is_digit(#[trigger] row[i]) by {
        if i < digits.len() {
            assert(row[i] == digits[i]);
        } else {
            assert(row[i] == behind[i - digits.len()]);
        }
    }
    lemma_notation(negative, digits, behind, tail, exponent);
    lemma_scaled(row, exponent - behind.len() + 9);
}

/// Whether a text is put together as a number is, from the given parts.
pub open spec fn is_number(
    text: Seq<char>,
    negative: bool,
    digits: Seq<char>,
    behind: Seq<char>,
    tail: Seq<char>,
    exponent: int,
) -> bool {
    &&& text == number_text(negative, digits, behind, tail)
    &&& digits.len() > 0
    &&& only_digits(digits)
    &&& only_digits(behind)
    &&& is_exponent(tail, exponent)
}

/// An exponent that is read from the end of a text stands there.
proof fn lemma_exponent_stands(text: Seq<char>, at: int)
    requires
        0 <= at <= text.len(),
        exponent_at(text, at) is Some,
    ensures
        is_exponent(text.skip(at), exponent_at(text, at)->0),
{
    let tail = text.skip(at);
    if at < text.len() {
        let signed = at + 1 < text.len() && (text[at + 1] == '-' || text[at + 1] == '+');
        let from = if signed {
            at + 2
        } else {
            at + 1
        };
        let digits = text.subrange(from, text.len() as int);
        let sign = if signed {
            Some(text[at + 1])
        } else {
            None
        };
        crate::decimal::lemma_run(text, from);
        assert forall|i: int| 0 <= i < digits.len() implies is_digit(#[trigger] digits[i]) by {
            assert(is_digit(text[from + i]));
        }
        assert(exponent_text(text[at], sign, digits) =~= tail);
        if !signed {
            assert(is_digit(text[from]));
        }
    }
}

/// Nothing but a number in decimal notation is read.
pub proof fn only_numbers_are_read(text: &str, amount: Option<i128>)
    requires
        call_ensures(read_billionths, (text,), amount),
    ensures
        amount is Some <==> exists|
            negative: bool,
            digits: Seq<char>,
            behind: Seq<char>,
            tail: Seq<char>,
            exponent: int,
        |
            is_number(text@, negative, digits, behind, tail, exponent),
{
    lemma_only_numbers(text@);
}

/// What can be taken apart as a number was put together as one.
pub proof fn lemma_only_numbers(text: Seq<char>)
    ensures
        notation(text) is Some <==> exists|
            negative: bool,
            digits: Seq<char>,
            behind: Seq<char>,
            tail: Seq<char>,
            exponent: int,
        |
            is_number(text, negative, digits, behind, tail, exponent),
{
    if notation(text) is Some {
        let negative = text.len() > 0 && text[0] == '-';
        let from: int = if negative {
            1
        } else {
            0
        };
        let point = run_end(text, from);
        let pointed = point < text.len() && text[point] == '.';
        crate::decimal::lemma_run(text, from);
        if pointed {
            crate::decimal::lemma_run(text, point + 1);
        }
        let end = if pointed {
            run_end(text, point + 1)
        } else {
            point
        };
        let digits = text.subrange(from, point);
        let behind = if pointed {
            text.subrange(point + 1, end)
        } else {
            Seq::empty()
        };
        let tail = text.skip(end);
        lemma_exponent_stands(text, end);
        assert forall|i: int| 0 <= i < digits.len() implies is_digit(#[trigger] digits[i]) by {
            assert(is_digit(text[from + i]));
        }
        assert forall|i: int| 0 <= i < behind.len() implies is_digit(#[trigger] behind[i]) by {
            assert(is_digit(text[point + 1 + i]));
        }
        assert(text =~= number_text(negative, digits, behind, tail));
        assert(is_number(
            text,
            negative,
            digits,
            behind,
            tail,
            exponent_at(text, end)->0,
        ));
    }
    if exists|
        negative: bool,
        digits: Seq<char>,
        behind: Seq<char>,
        tail: Seq<char>,
        exponent: int,
    |
        is_number(text, negative, digits, behind, tail, exponent) {
        let (negative, digits, behind, tail, exponent): (
            bool,
            Seq<char>,
            Seq<char>,
            Seq<char>,
            int,
        ) = choose|
            negative: bool,
            digits: Seq<char>,
            behind: Seq<char>,
            tail: Seq<char>,
            exponent: int,
        |
            is_number(text, negative, digits, behind, tail, exponent);
        lemma_written(negative, digits, behind, tail, exponent);
    }
}

} // verus!
