//! Back-pressure headers for HTTP answers.

use crate::fixed::UNIT;
use crate::limiter::Decision;
use crate::listing::Listing;
use crate::rules::{ceil_div, clamped, trunc_div, truncate, LimitRule};
use crate::text::{integer_text, render_integer};
use vstd::prelude::*;
use vstd::string::*;

verus! {

/// What uppercasing makes of a character beyond ASCII.
pub uninterp spec fn uppercase(c: char) -> Seq<char>;

/// The uppercase form of an ASCII character.
pub open spec fn ascii_uppercase(c: char) -> char {
    if 'a' <= c && c <= 'z' {
        (c as u32 - 32) as char
    } else {
        c
    }
}

/// What uppercasing makes of a character.
pub open spec fn raised(c: char) -> Seq<char> {
    if (c as u32) < 128 {
        seq![ascii_uppercase(c)]
    } else {
        uppercase(c)
    }
}

/// `char::to_uppercase` of the standard library, with the result as a string. An ASCII
/// letter becomes its capital, and another ASCII character stays as it is; of any other
/// character the result is a function of the character alone.
#[verifier::external_body]
fn to_uppercase(c: char) -> (upper: String)
    ensures
        upper@ == if (c as u32) < 128 {
            seq![ascii_uppercase(c)]
        } else {
            uppercase(c)
        },
{
    c.to_uppercase().to_string()
}

/// A name with its first character in uppercase.
pub open spec fn capitalized(name: Seq<char>) -> Seq<char> {
    if name.len() == 0 {
        name
    } else {
        raised(name[0]) + name.skip(1)
    }
}

/// Puts the first character of a name in uppercase.
fn capitalize(name: &str) -> (result: String)
    ensures
        result@ == capitalized(name@),
{
    let len: usize = name.unicode_len();
    if len == 0 {
        assert(name@ =~= Seq::empty());
        return String::new();
    }
    let mut result: String = to_uppercase(name.get_char(0));
    result.append(name.substring_char(1, len));
    assert(name@.subrange(1, len as int) =~= name@.skip(1));
    result
}

/// The whole part of a quantity, kept within the range of `i64`.
pub open spec fn whole(x: int) -> int {
    clamped(trunc_div(x, UNIT as int))
}

/// A wait in full seconds, rounded up and kept within the range of `i64`.
pub open spec fn full_seconds(wait: int) -> int {
    clamped(ceil_div(wait, UNIT as int))
}

/// Writes an integer, kept within the range of `i64`.
fn render_clamped(x: i128) -> (text: String)
    ensures
        text@ == integer_text(clamped(x as int)),
{
    if x > i64::MAX as i128 {
        render_integer(i64::MAX as i128)
    } else if x < i64::MIN as i128 {
        render_integer(i64::MIN as i128)
    } else {
        render_integer(x)
    }
}

/// Writes the whole part of a quantity.
fn render_whole(x: i128) -> (text: String)
    ensures
        text@ == integer_text(whole(x as int)),
{
    render_clamped(truncate(x, UNIT))
}

/// The texts of a map of strings.
pub open spec fn texts(headers: Map<Seq<char>, String>) -> Map<Seq<char>, Seq<char>> {
    headers.map_values(|text: String| text@)
}

/// The headers that a decision gives before the headroom is told.
pub open spec fn limit_headers(retry_after: int, rule: Option<LimitRule>) -> Map<
    Seq<char>,
    Seq<char>,
> {
    let waiting = if retry_after > 0 {
        Map::<Seq<char>, Seq<char>>::empty().insert(
            "Retry-After"@,
            integer_text(full_seconds(retry_after)),
        )
    } else {
        Map::empty()
    };
    match rule {
        Some(rule) => {
            let requests = match rule.max_requests {
                Some(cap) => waiting.insert(
                    "X-RateLimit-Limit-Requests"@,
                    integer_text(whole(cap as int)),
                ),
                None => waiting,
            };
            match rule.max_tokens {
                Some(cap) => requests.insert(
                    "X-RateLimit-Limit-Tokens"@,
                    integer_text(whole(cap as int)),
                ),
                None => requests,
            }
        },
        None => waiting,
    }
}

/// Headers with the headroom of the first `n` of the given dimensions added.
pub open spec fn with_remaining(
    headers: Map<Seq<char>, Seq<char>>,
    names: Seq<Seq<char>>,
    rooms: Map<Seq<char>, i128>,
    n: int,
) -> Map<Seq<char>, Seq<char>>
    decreases n,
{
    if n <= 0 {
        headers
    } else {
        with_remaining(headers, names, rooms, n - 1).insert(
            "X-RateLimit-Remaining-"@ + capitalized(names[n - 1]),
            integer_text(whole(rooms[names[n - 1]] as int)),
        )
    }
}

/// Adds a header.
fn put(headers: &mut Listing<String>, name: &str, text: String)
    requires
        old(headers).wf(),
    ensures
        final(headers).wf(),
        texts(final(headers)@) == texts(old(headers)@).insert(name@, text@),
{
    headers.insert(name.to_owned(), text);
    assert(texts(headers@) =~= texts(old(headers)@).insert(name@, text@));
}

/// Renders a decision as the `X-RateLimit-*` / `Retry-After` headers real
/// providers return, so back-pressure can be passed straight to the caller. The limits
/// are those of the given rule, or else of the rule that tripped.
pub fn rate_limit_headers(decision: &Decision, rule: Option<&LimitRule>) -> (headers: Listing<
    String,
>)
    requires
        decision.remaining.wf(),
    ensures
        headers.wf(),
        texts(headers@) == with_remaining(
            limit_headers(
                decision.retry_after as int,
                match rule {
                    Some(rule) => Some(*rule),
                    None => decision.tripped_rule,
                },
            ),
            decision.remaining.order(),
            decision.remaining@,
            decision.remaining.order().len() as int,
        ),
{
    let mut headers: Listing<String> = Listing::new();
    assert(texts(headers@) =~= Map::empty());
    if decision.retry_after > 0 {
        proof {
            vstd::arithmetic::div_mod::lemma_div_is_ordered(
                0,
                decision.retry_after + UNIT - 1,
                UNIT as int,
            );
        }
        let whole_seconds: i128 = truncate(decision.retry_after - 1, UNIT);
        put(&mut headers, "Retry-After", render_clamped(whole_seconds + 1));
    }
    let told: Option<&LimitRule> = match rule {
        Some(rule) => Some(rule),
        None => match &decision.tripped_rule {
            Some(rule) => Some(rule),
            None => None,
        },
    };
    if let Some(rule) = told {
        if let Some(cap) = rule.max_requests {
            put(&mut headers, "X-RateLimit-Limit-Requests", render_whole(cap));
        }
        if let Some(cap) = rule.max_tokens {
            put(&mut headers, "X-RateLimit-Limit-Tokens", render_whole(cap));
        }
    }
    let ghost limits = texts(headers@);
    let count: usize = decision.remaining.len();
    let mut i: usize = 0;
    while i < count
        invariant
            0 <= i <= count,
            decision.remaining.wf(),
            count == decision.remaining.order().len(),
            headers.wf(),
            texts(headers@) == with_remaining(
                limits,
                decision.remaining.order(),
                decision.remaining@,
                i as int,
            ),
        decreases count - i,
    {
        let (name, room): (&str, &i128) = decision.remaining.entry(i);
        let mut header: String = "X-RateLimit-Remaining-".to_owned();
        header.append(capitalize(name).as_str());
        put(&mut headers, header.as_str(), render_whole(*room));
        i += 1;
    }
    headers
}

} // verus!
