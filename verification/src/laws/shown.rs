//! What is shown to a caller: headers, labels and costs, stated of what goes in.

use super::keys::writing_a_number_loses_nothing;
use crate::clock::clock_time;
use crate::decimal::{is_digit, number_of};
use crate::fixed::{SECOND, UNIT};
use crate::headers::{
    capitalized, full_seconds, limit_headers, rate_limit_headers, texts, whole, with_remaining,
};
use crate::limiter::Decision;
use crate::listing::Listing;
use crate::pricing::{estimate_cost, estimate_cost_with, listed, rounded, UnknownModel, PRICES};
use crate::rules::{LimitRule, Scope};
use crate::text::{decimal, integer_text};
use vstd::prelude::*;

verus! {

/// Whether a text is an integer in decimal digits, with a minus sign if it is negative.
pub open spec fn reads_as(text: Seq<char>, x: int) -> bool {
    if x >= 0 {
        &&& text.len() > 0
        &&& forall|i: int| 0 <= i < text.len() ==> is_digit(#[trigger] text[i])
        &&& number_of(text) == x
    } else {
        &&& text.len() > 1
        &&& text[0] == '-'
        &&& forall|i: int| 1 <= i < text.len() ==> is_digit(#[trigger] text[i])
        &&& number_of(text.skip(1)) == -x
    }
}

/// An integer reads back from its text.
proof fn lemma_reads_as(x: int)
    ensures
        reads_as(integer_text(x), x),
{
    if x >= 0 {
        writing_a_number_loses_nothing(x as nat);
    } else {
        writing_a_number_loses_nothing((-x) as nat);
        let text = integer_text(x);
        assert(text.skip(1) =~= decimal((-x) as nat));
        assert forall|i: int| 1 <= i < text.len() implies is_digit(#[trigger] text[i]) by {
            assert(text[i] == decimal((-x) as nat)[i - 1]);
        }
    }
}

/// Whether a number is the whole units of a quantity, without what is left over, and kept
/// within the range of `i64`.
pub open spec fn whole_units(quantity: int, k: int) -> bool {
    if quantity >= i64::MAX * 1_000_000_000 {
        k == i64::MAX
    } else if quantity <= i64::MIN * 1_000_000_000 {
        k == i64::MIN
    } else if quantity >= 0 {
        k * 1_000_000_000 <= quantity < k * 1_000_000_000 + 1_000_000_000
    } else {
        k * 1_000_000_000 - 1_000_000_000 < quantity <= k * 1_000_000_000
    }
}

/// Whether a text tells the whole units of a quantity.
pub open spec fn tells_whole(text: Seq<char>, quantity: int) -> bool {
    exists|k: int| #[trigger] reads_as(text, k) && whole_units(quantity, k)
}

/// Whether a text tells a wait in full seconds, as few as are enough, and no more than
/// `i64` holds.
pub open spec fn tells_wait(text: Seq<char>, wait: int) -> bool {
    exists|k: int| #[trigger]
        reads_as(text, k) && if wait > i64::MAX * 1_000_000_000 {
            k == i64::MAX
        } else {
            k * 1_000_000_000 - 1_000_000_000 < wait <= k * 1_000_000_000
        }
}

proof fn lemma_tells_whole(quantity: int)
    ensures
        tells_whole(integer_text(whole(quantity)), quantity),
{
    let unit = UNIT as int;
    let k = whole(quantity);
    vstd::arithmetic::div_mod::lemma_fundamental_div_mod(quantity, unit);
    vstd::arithmetic::div_mod::lemma_fundamental_div_mod(-quantity, unit);
    assert(whole_units(quantity, k));
    lemma_reads_as(k);
    assert(reads_as(integer_text(k), k));
}

proof fn lemma_tells_wait(wait: int)
    requires
        wait > 0,
    ensures
        tells_wait(integer_text(full_seconds(wait)), wait),
{
    let unit = UNIT as int;
    let k = full_seconds(wait);
    vstd::arithmetic::div_mod::lemma_fundamental_div_mod(wait + unit - 1, unit);
    lemma_reads_as(k);
    assert(reads_as(integer_text(k), k));
}

/// The header that tells the headroom of a dimension.
spec fn room_header(name: Seq<char>) -> Seq<char> {
    "X-RateLimit-Remaining-"@ + capitalized(name)
}

/// What headers hold once the headroom of some dimensions was added.
proof fn lemma_with_remaining(
    headers: Map<Seq<char>, Seq<char>>,
    names: Seq<Seq<char>>,
    rooms: Map<Seq<char>, i128>,
    n: int,
    header: Seq<char>,
)
    requires
        0 <= n <= names.len(),
    ensures
        with_remaining(headers, names, rooms, n).contains_key(header) <==> headers.contains_key(
            header,
        ) || exists|i: int| 0 <= i < n && header == room_header(#[trigger] names[i]),
        (forall|i: int| 0 <= i < n ==> header != room_header(#[trigger] names[i]))
            ==> with_remaining(headers, names, rooms, n)[header] == headers[header],
        forall|j: int|
            #![trigger names[j]]
            0 <= j < n && header == room_header(names[j]) && (forall|i: int|
                0 <= i < n && i != j ==> header != room_header(#[trigger] names[i]))
                ==> with_remaining(headers, names, rooms, n)[header] == integer_text(
                whole(rooms[names[j]] as int),
            ),
    decreases n,
{
    if n > 0 {
        lemma_with_remaining(headers, names, rooms, n - 1, header);
        let last = room_header(names[n - 1]);
        let before = with_remaining(headers, names, rooms, n - 1);
        if exists|i: int| 0 <= i < n && header == room_header(#[trigger] names[i]) {
            let i = choose|i: int| 0 <= i < n && header == room_header(#[trigger] names[i]);
            if i < n - 1 {
                assert(before.contains_key(header));
            }
        }
        assert forall|j: int|
            #![trigger names[j]]
            0 <= j < n && header == room_header(names[j]) && (forall|i: int|
                0 <= i < n && i != j ==> header != room_header(#[trigger] names[i])) implies
            with_remaining(headers, names, rooms, n)[header] == integer_text(
            whole(rooms[names[j]] as int),
        ) by {
            if j < n - 1 {
                assert(header != room_header(names[n - 1]));
            }
        }
    }
}

/// The names of the headers, written out, and that they differ.
proof fn lemma_header_names()
    ensures
        room_header("tokens"@) == "X-RateLimit-Remaining-Tokens"@,
        room_header("requests"@) == "X-RateLimit-Remaining-Requests"@,
        room_header("cost"@) == "X-RateLimit-Remaining-Cost"@,
        "X-RateLimit-Remaining-Tokens"@.len() == 28,
        "X-RateLimit-Remaining-Requests"@.len() == 30,
        "X-RateLimit-Remaining-Cost"@.len() == 26,
        "X-RateLimit-Limit-Requests"@.len() == 26,
        "X-RateLimit-Limit-Tokens"@.len() == 24,
        "Retry-After"@.len() == 11,
        "X-RateLimit-Remaining-Cost"@ != "X-RateLimit-Limit-Requests"@,
{
    reveal_strlit("tokens");
    reveal_strlit("requests");
    reveal_strlit("cost");
    reveal_strlit("X-RateLimit-Remaining-");
    reveal_strlit("X-RateLimit-Remaining-Tokens");
    reveal_strlit("X-RateLimit-Remaining-Requests");
    reveal_strlit("X-RateLimit-Remaining-Cost");
    reveal_strlit("X-RateLimit-Limit-Requests");
    reveal_strlit("X-RateLimit-Limit-Tokens");
    reveal_strlit("Retry-After");
    assert(crate::headers::raised('t') =~= seq!['T']);
    assert(crate::headers::raised('r') =~= seq!['R']);
    assert(crate::headers::raised('c') =~= seq!['C']);
    assert(room_header("tokens"@) =~= "X-RateLimit-Remaining-Tokens"@);
    assert(room_header("requests"@) =~= "X-RateLimit-Remaining-Requests"@);
    assert(room_header("cost"@) =~= "X-RateLimit-Remaining-Cost"@);
    assert("X-RateLimit-Remaining-Cost"@[12] == 'R');
    assert("X-RateLimit-Limit-Requests"@[12] == 'L');
}

/// Whether the header of a dimension tells its headroom, and is there if and only if there
/// is one.
pub open spec fn tells_room(
    headers: Listing<String>,
    header: Seq<char>,
    decision: Decision,
    name: Seq<char>,
) -> bool {
    &&& headers@.contains_key(header) <==> decision.remaining@.contains_key(name)
    &&& decision.remaining@.contains_key(name) ==> tells_whole(
        headers@[header]@,
        decision.remaining@[name] as int,
    )
}

/// Whether the header of a limit tells the cap, and is there if and only if there is one.
pub open spec fn tells_cap(
    headers: Listing<String>,
    header: Seq<char>,
    cap: Option<i128>,
) -> bool {
    &&& headers@.contains_key(header) <==> cap is Some
    &&& cap is Some ==> tells_whole(headers@[header]@, cap->0 as int)
}

/// The headers of a decision tell how long to wait, if at all, in full seconds that are
/// enough; the caps of the rule given, or else of the rule that tripped, in whole units; and
/// the headroom in whole units. There are no others.
#[verifier::spinoff_prover]
pub proof fn headers_tell_the_decision(
    decision: &Decision,
    rule: Option<&LimitRule>,
    headers: Listing<String>,
)
    requires
        decision.remaining.wf(),
        forall|name: Seq<char>| #[trigger]
            decision.remaining@.contains_key(name) ==> name == "tokens"@ || name == "requests"@
                || name == "cost"@,
        call_ensures(rate_limit_headers, (decision, rule), headers),
    ensures
        headers@.contains_key("Retry-After"@) <==> decision.retry_after > 0,
        decision.retry_after > 0 ==> tells_wait(
            headers@["Retry-After"@]@,
            decision.retry_after as int,
        ),
        ({
            let told = match rule {
                Some(rule) => Some(*rule),
                None => decision.tripped_rule,
            };
            &&& tells_cap(
                headers,
                "X-RateLimit-Limit-Requests"@,
                match told {
                    Some(rule) => rule.max_requests,
                    None => None,
                },
            )
            &&& tells_cap(
                headers,
                "X-RateLimit-Limit-Tokens"@,
                match told {
                    Some(rule) => rule.max_tokens,
                    None => None,
                },
            )
        }),
        tells_room(headers, "X-RateLimit-Remaining-Tokens"@, *decision, "tokens"@),
        tells_room(headers, "X-RateLimit-Remaining-Requests"@, *decision, "requests"@),
        tells_room(headers, "X-RateLimit-Remaining-Cost"@, *decision, "cost"@),
        forall|header: Seq<char>| #[trigger]
            headers@.contains_key(header) ==> header == "Retry-After"@ || header
                == "X-RateLimit-Limit-Requests"@ || header == "X-RateLimit-Limit-Tokens"@
                || header == "X-RateLimit-Remaining-Tokens"@ || header
                == "X-RateLimit-Remaining-Requests"@ || header == "X-RateLimit-Remaining-Cost"@,
{
    let told = match rule {
        Some(rule) => Some(*rule),
        None => decision.tripped_rule,
    };
    let limits = limit_headers(decision.retry_after as int, told);
    lemma_header_names();
    decision.remaining.lemma_order();
    if decision.retry_after > 0 {
        lemma_tells_wait(decision.retry_after as int);
    }
    if told is Some {
        if told->0.max_requests is Some {
            lemma_tells_whole(told->0.max_requests->0 as int);
        }
        if told->0.max_tokens is Some {
            lemma_tells_whole(told->0.max_tokens->0 as int);
        }
    }
    assert forall|header: Seq<char>| #[trigger] headers@.contains_key(header) <==> texts(
        headers@,
    ).contains_key(header) by {}
    lemma_limit_header(decision, headers, limits, "Retry-After"@);
    lemma_limit_header(decision, headers, limits, "X-RateLimit-Limit-Requests"@);
    lemma_limit_header(decision, headers, limits, "X-RateLimit-Limit-Tokens"@);
    lemma_room_header(decision, headers, limits, "tokens"@);
    lemma_room_header(decision, headers, limits, "requests"@);
    lemma_room_header(decision, headers, limits, "cost"@);
    assert forall|header: Seq<char>| #[trigger] headers@.contains_key(header) implies header
        == "Retry-After"@ || header == "X-RateLimit-Limit-Requests"@ || header
        == "X-RateLimit-Limit-Tokens"@ || header == "X-RateLimit-Remaining-Tokens"@ || header
        == "X-RateLimit-Remaining-Requests"@ || header == "X-RateLimit-Remaining-Cost"@ by {
        let names = decision.remaining.order();
        lemma_with_remaining(
            limits,
            names,
            decision.remaining@,
            names.len() as int,
            header,
        );
        assert(texts(headers@).contains_key(header));
        if !limits.contains_key(header) {
            let i = choose|i: int|
                0 <= i < names.len() && header == room_header(#[trigger] names[i]);
            assert(names.contains(names[i]));
        }
    }
}

/// The headers of limits and waits stand as they were made.
proof fn lemma_limit_header(
    decision: &Decision,
    headers: Listing<String>,
    limits: Map<Seq<char>, Seq<char>>,
    header: Seq<char>,
)
    requires
        decision.remaining.wf(),
        forall|name: Seq<char>| #[trigger]
            decision.remaining@.contains_key(name) ==> name == "tokens"@ || name == "requests"@
                || name == "cost"@,
        texts(headers@) == with_remaining(
            limits,
            decision.remaining.order(),
            decision.remaining@,
            decision.remaining.order().len() as int,
        ),
        header == "Retry-After"@ || header == "X-RateLimit-Limit-Requests"@ || header
            == "X-RateLimit-Limit-Tokens"@,
    ensures
        headers@.contains_key(header) <==> limits.contains_key(header),
        limits.contains_key(header) ==> headers@[header]@ == limits[header],
{
    let names = decision.remaining.order();
    lemma_header_names();
    decision.remaining.lemma_order();
    lemma_with_remaining(limits, names, decision.remaining@, names.len() as int, header);
    assert forall|i: int| 0 <= i < names.len() implies header != room_header(
        #[trigger] names[i],
    ) by {
        assert(names.contains(names[i]));
    }
    assert(texts(headers@).contains_key(header) <==> headers@.contains_key(header));
    if headers@.contains_key(header) {
        assert(texts(headers@)[header] == headers@[header]@);
    }
}

/// The headers of headroom tell it.
proof fn lemma_room_header(
    decision: &Decision,
    headers: Listing<String>,
    limits: Map<Seq<char>, Seq<char>>,
    name: Seq<char>,
)
    requires
        decision.remaining.wf(),
        forall|name: Seq<char>| #[trigger]
            decision.remaining@.contains_key(name) ==> name == "tokens"@ || name == "requests"@
                || name == "cost"@,
        texts(headers@) == with_remaining(
            limits,
            decision.remaining.order(),
            decision.remaining@,
            decision.remaining.order().len() as int,
        ),
        forall|header: Seq<char>| #[trigger]
            limits.contains_key(header) ==> header == "Retry-After"@ || header
                == "X-RateLimit-Limit-Requests"@ || header == "X-RateLimit-Limit-Tokens"@,
        name == "tokens"@ || name == "requests"@ || name == "cost"@,
    ensures
        tells_room(headers, room_header(name), *decision, name),
{
    let names = decision.remaining.order();
    let header = room_header(name);
    let rooms = decision.remaining@;
    lemma_header_names();
    decision.remaining.lemma_order();
    lemma_with_remaining(limits, names, rooms, names.len() as int, header);
    assert(!limits.contains_key(header));
    assert(texts(headers@).contains_key(header) <==> headers@.contains_key(header));
    assert forall|i: int|
        0 <= i < names.len() && header == room_header(#[trigger] names[i]) implies names[i]
        == name by {
        assert(names.contains(names[i]));
        assert(rooms.contains_key(names[i]));
    }
    if rooms.contains_key(name) {
        assert(names.contains(name));
        let j = choose|j: int| 0 <= j < names.len() && names[j] == name;
        assert forall|i: int| 0 <= i < names.len() && i != j implies header != room_header(
            #[trigger] names[i],
        ) by {
            assert(names[i] != names[j]);
        }
        assert(header == room_header(names[j]));
        lemma_tells_whole(rooms[name] as int);
        assert(texts(headers@)[header] == headers@[header]@);
    } else if headers@.contains_key(header) {
        let i = choose|i: int| 0 <= i < names.len() && header == room_header(#[trigger] names[i]);
        assert(names.contains(names[i]));
    }
}

/// A rule is labelled by its name or, without one, by its model, its scope and the whole
/// seconds of its window.
pub proof fn a_label_tells_the_rule(rule: &LimitRule, label: String)
    requires
        call_ensures(LimitRule::label, (rule,), label),
    ensures
        rule.name is Some ==> label@ == rule.name->0@,
        rule.name is None ==> exists|k: int, seconds: Seq<char>|
            {
                &&& #[trigger] reads_as(seconds, k)
                &&& whole_units(rule.window_seconds as int, k)
                &&& label@ == rule.model@ + ":"@ + (match rule.scope {
                    Scope::Global => "global"@,
                    Scope::Tenant => "tenant"@,
                    Scope::User => "user"@,
                }) + ":"@ + seconds + "s"@
            },
{
    if rule.name is None {
        let unit = SECOND as int;
        let span = rule.window_seconds as int;
        let k = crate::rules::trunc_div(span, unit);
        vstd::arithmetic::div_mod::lemma_fundamental_div_mod(span, unit);
        vstd::arithmetic::div_mod::lemma_fundamental_div_mod(-span, unit);
        assert(whole_units(span, k));
        lemma_reads_as(k);
        assert(reads_as(integer_text(k), k));
    }
}

/// Where a model stands in a price table, it is the first row with its name.
proof fn lemma_listed(table: Seq<(&'static str, u32, u32)>, model: Seq<char>)
    ensures
        match listed(table, model) {
            Some(at) => 0 <= at < table.len() && table[at].0@ == model && forall|j: int|
                0 <= j < at ==> (#[trigger] table[j]).0@ != model,
            None => forall|j: int| 0 <= j < table.len() ==> (#[trigger] table[j]).0@ != model,
        },
    decreases table.len(),
{
    if table.len() > 0 {
        let shorter = table.drop_last();
        lemma_listed(shorter, model);
        assert forall|j: int| 0 <= j < table.len() - 1 implies (#[trigger] table[j])
            == shorter[j] by {}
    }
}

/// Whether a cost is what some tokens come to at a price, to the nearest millionth of a
/// dollar and away from zero where two are as near.
pub open spec fn priced(
    cost: int,
    input_tokens: i64,
    output_tokens: i64,
    row: (&'static str, u32, u32),
) -> bool {
    let exact = input_tokens * row.1 + output_tokens * row.2;
    &&& cost % 1000 == 0
    &&& -500 <= cost - exact <= 500
    &&& cost - exact == 500 ==> exact > 0
    &&& cost - exact == -500 ==> exact < 0
}

proof fn lemma_priced(x: int)
    ensures
        rounded(x, 1000) % 1000 == 0,
        -500 <= rounded(x, 1000) - x <= 500,
        rounded(x, 1000) - x == 500 ==> x > 0,
        rounded(x, 1000) - x == -500 ==> x < 0,
{
    super::figures::a_cost_is_rounded_to_the_nearest(x, 1000);
}

/// Tokens cost what the first row of a table with the name of their model says, and a model
/// without a row is unknown.
pub proof fn tokens_cost_what_their_row_says(
    prices: &[(&'static str, u32, u32)],
    model: &str,
    input_tokens: i64,
    output_tokens: i64,
    result: Result<i128, UnknownModel>,
)
    requires
        call_ensures(estimate_cost_with, (prices, model, input_tokens, output_tokens), result),
    ensures
        match result {
            Ok(cost) => exists|at: int|
                {
                    &&& 0 <= at < prices@.len()
                    &&& (#[trigger] prices@[at]).0@ == model@
                    &&& forall|j: int| 0 <= j < at ==> (#[trigger] prices@[j]).0@ != model@
                    &&& priced(cost as int, input_tokens, output_tokens, prices@[at])
                },
            Err(unknown) => unknown.0@ == model@ && forall|j: int|
                0 <= j < prices@.len() ==> (#[trigger] prices@[j]).0@ != model@,
        },
{
    lemma_listed(prices@, model@);
    if let Some(at) = listed(prices@, model@) {
        lemma_priced(input_tokens * prices@[at].1 + output_tokens * prices@[at].2);
        assert(prices@[at].0@ == model@);
    }
}

/// Whether the list prices hold a row for a model, in thousandths of a dollar per million
/// tokens.
pub open spec fn lists(model: Seq<char>, input: u32, output: u32) -> bool {
    exists|at: int|
        0 <= at < PRICES@.len() && (#[trigger] PRICES@[at]).0@ == model && PRICES@[at].1 == input
            && PRICES@[at].2 == output
}

/// The list prices of the models that have one, and of no others.
pub proof fn the_list_prices()
    ensures
        PRICES@.len() == 21,
        lists("gpt-4o"@, 2500, 10000),
        lists("gpt-4o-mini"@, 150, 600),
        lists("gpt-4.1"@, 2000, 8000),
        lists("gpt-4.1-mini"@, 400, 1600),
        lists("gpt-4.1-nano"@, 100, 400),
        lists("o3"@, 2000, 8000),
        lists("o3-mini"@, 1100, 4400),
        lists("o4-mini"@, 1100, 4400),
        lists("gemini-2.5-pro"@, 1250, 10000),
        lists("gemini-2.5-flash"@, 300, 2500),
        lists("gemini-2.0-flash"@, 100, 400),
        lists("gemini-1.5-pro"@, 1250, 5000),
        lists("gemini-1.5-flash"@, 75, 300),
        lists("llama-3.3-70b"@, 200, 200),
        lists("llama-3.1-405b"@, 3500, 3500),
        lists("llama-3.1-8b"@, 50, 50),
        lists("mistral-large"@, 2000, 6000),
        lists("mistral-small"@, 200, 600),
        lists("deepseek-chat"@, 270, 1100),
        lists("deepseek-reasoner"@, 550, 2190),
        lists("grok-2"@, 2000, 10000),
{
    assert(PRICES@[0].0@ == "gpt-4o"@);
    assert(PRICES@[1].0@ == "gpt-4o-mini"@);
    assert(PRICES@[2].0@ == "gpt-4.1"@);
    assert(PRICES@[3].0@ == "gpt-4.1-mini"@);
    assert(PRICES@[4].0@ == "gpt-4.1-nano"@);
    assert(PRICES@[5].0@ == "o3"@);
    assert(PRICES@[6].0@ == "o3-mini"@);
    assert(PRICES@[7].0@ == "o4-mini"@);
    assert(PRICES@[8].0@ == "gemini-2.5-pro"@);
    assert(PRICES@[9].0@ == "gemini-2.5-flash"@);
    assert(PRICES@[10].0@ == "gemini-2.0-flash"@);
    assert(PRICES@[11].0@ == "gemini-1.5-pro"@);
    assert(PRICES@[12].0@ == "gemini-1.5-flash"@);
    assert(PRICES@[13].0@ == "llama-3.3-70b"@);
    assert(PRICES@[14].0@ == "llama-3.1-405b"@);
    assert(PRICES@[15].0@ == "llama-3.1-8b"@);
    assert(PRICES@[16].0@ == "mistral-large"@);
    assert(PRICES@[17].0@ == "mistral-small"@);
    assert(PRICES@[18].0@ == "deepseek-chat"@);
    assert(PRICES@[19].0@ == "deepseek-reasoner"@);
    assert(PRICES@[20].0@ == "grok-2"@);
}

/// Tokens cost what the list prices say.
pub proof fn tokens_cost_the_list_price(
    model: &str,
    input_tokens: i64,
    output_tokens: i64,
    result: Result<i128, UnknownModel>,
)
    requires
        call_ensures(estimate_cost, (model, input_tokens, output_tokens), result),
    ensures
        match result {
            Ok(cost) => exists|at: int|
                {
                    &&& 0 <= at < PRICES@.len()
                    &&& (#[trigger] PRICES@[at]).0@ == model@
                    &&& forall|j: int| 0 <= j < at ==> (#[trigger] PRICES@[j]).0@ != model@
                    &&& priced(cost as int, input_tokens, output_tokens, PRICES@[at])
                },
            Err(unknown) => unknown.0@ == model@ && forall|j: int|
                0 <= j < PRICES@.len() ==> (#[trigger] PRICES@[j]).0@ != model@,
        },
{
    lemma_listed(PRICES@, model@);
    if let Some(at) = listed(PRICES@, model@) {
        lemma_priced(input_tokens * PRICES@[at].1 + output_tokens * PRICES@[at].2);
        assert(PRICES@[at].0@ == model@);
    }
}

/// A clock reading is kept as it is, as far as a time can hold it, and later readings are
/// no earlier times.
pub proof fn a_clock_reading_is_kept(
    reading: Option<u128>,
    time: i64,
    other: Option<u128>,
    other_time: i64,
)
    requires
        call_ensures(clock_time, (reading,), time),
        call_ensures(clock_time, (other,), other_time),
    ensures
        reading matches Some(nanos) ==> (nanos <= i64::MAX ==> time == nanos) && (nanos
            > i64::MAX ==> time == i64::MAX),
        reading is None ==> time == 0,
        reading is Some && other is Some && reading->0 <= other->0 ==> time <= other_time,
{
}

} // verus!
