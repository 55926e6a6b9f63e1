//! Token-count to dollar-cost estimation using published list prices.

use crate::text::same_text;
use vstd::prelude::*;
use vstd::string::*;

verus! {

/// Illustrative published list prices as `(model, input, output)`, in billionths of a
/// dollar per token. They drift as vendors change them - a starting default, not a
/// source of truth. Anthropic's models are not in the table: [`estimate_cost_with`] prices
/// them, and any others, from a table of the caller's.
pub const PRICES: [(&'static str, u32, u32); 21] = [
    // OpenAI
    ("gpt-4o", 2500, 10000),
    ("gpt-4o-mini", 150, 600),
    ("gpt-4.1", 2000, 8000),
    ("gpt-4.1-mini", 400, 1600),
    ("gpt-4.1-nano", 100, 400),
    ("o3", 2000, 8000),
    ("o3-mini", 1100, 4400),
    ("o4-mini", 1100, 4400),
    // Google
    ("gemini-2.5-pro", 1250, 10000),
    ("gemini-2.5-flash", 300, 2500),
    ("gemini-2.0-flash", 100, 400),
    ("gemini-1.5-pro", 1250, 5000),
    ("gemini-1.5-flash", 75, 300),
    // Meta Llama
    ("llama-3.3-70b", 200, 200),
    ("llama-3.1-405b", 3500, 3500),
    ("llama-3.1-8b", 50, 50),
    // Mistral
    ("mistral-large", 2000, 6000),
    ("mistral-small", 200, 600),
    // DeepSeek
    ("deepseek-chat", 270, 1100),
    ("deepseek-reasoner", 550, 2190),
    // xAI
    ("grok-2", 2000, 10000),
];

/// Returned by [`estimate_cost`] when a model is absent from [`PRICES`].
#[derive(Debug, Clone, PartialEq, Eq)]
pub struct UnknownModel(pub String);

impl UnknownModel {
    /// The message of the error.
    pub fn message(&self) -> (message: String)
        ensures
            message@ == "unknown model \""@ + self.0@ + "\""@,
    {
        let mut message: String = "unknown model \"".to_owned();
        message.append(self.0.as_str());
        message.append("\"");
        message
    }
}

/// Where a model stands in a price table, counting from the start.
pub open spec fn listed(table: Seq<(&'static str, u32, u32)>, model: Seq<char>) -> Option<int>
    decreases table.len(),
{
    if table.len() == 0 {
        None
    } else {
        match listed(table.drop_last(), model) {
            Some(at) => Some(at),
            None => if table.last().0@ == model {
                Some(table.len() - 1)
            } else {
                None
            },
        }
    }
}

/// The multiple of `unit` that is nearest to a number, and the one further from zero
/// where two are.
pub open spec fn rounded(x: int, unit: int) -> int {
    if x >= 0 {
        (x + unit / 2) / unit * unit
    } else {
        -((-x + unit / 2) / unit * unit)
    }
}

/// A model that stands in a part of a price table stands there in the whole table.
proof fn lemma_listed(table: Seq<(&'static str, u32, u32)>, model: Seq<char>, n: int)
    requires
        0 <= n <= table.len(),
        listed(table.take(n), model) is Some,
    ensures
        listed(table, model) == listed(table.take(n), model),
    decreases table.len() - n,
{
    if n < table.len() {
        assert(table.take(n + 1).drop_last() =~= table.take(n));
        lemma_listed(table, model, n + 1);
    } else {
        assert(table.take(n) =~= table);
    }
}

/// The cost of some tokens at a price.
fn charge(tokens: i64, price: u32) -> (cost: i128)
    ensures
        cost == tokens * price,
        -0x8000_0000_0000_0000_0000_0000 <= cost <= 0x8000_0000_0000_0000_0000_0000,
{
    assert(-0x8000_0000_0000_0000_0000_0000 <= tokens * price
        <= 0x8000_0000_0000_0000_0000_0000) by (nonlinear_arith)
        requires
            -0x8000_0000_0000_0000 <= tokens <= 0x8000_0000_0000_0000,
            0 <= price <= 0x1_0000_0000,
    ;
    tokens as i128 * price as i128
}

/// Rounds to a multiple of a unit.
fn round(x: i128, unit: i128) -> (nearest: i128)
    requires
        0 < unit,
        -i128::MAX / 2 <= x <= i128::MAX / 2,
        unit <= i128::MAX / 2,
    ensures
        nearest == rounded(x as int, unit as int),
{
    let size: i128 = if x >= 0 {
        x
    } else {
        -x
    };
    let count: i128 = (size + unit / 2) / unit;
    assert(0 <= (size + unit / 2) / (unit as int) * unit <= size + unit / 2) by (nonlinear_arith)
        requires
            0 <= size,
            0 < unit,
    ;
    if x >= 0 {
        count * unit
    } else {
        -(count * unit)
    }
}

/// Turns token counts into a dollar cost using a price table, rounded to six decimal
/// places. Returns an [`UnknownModel`] error for a model that is not in the table; of a
/// model that is there twice, the first price counts.
pub fn estimate_cost_with(
    prices: &[(&'static str, u32, u32)],
    model: &str,
    input_tokens: i64,
    output_tokens: i64,
) -> (result: Result<i128, UnknownModel>)
    ensures
        match listed(prices@, model@) {
            Some(at) => result is Ok && result->Ok_0 == rounded(
                input_tokens * prices@[at].1 + output_tokens * prices@[at].2,
                1000,
            ),
            None => result is Err && result->Err_0.0@ == model@,
        },
{
    let mut at: usize = 0;
    while at < prices.len()
        invariant
            0 <= at <= prices.len(),
            listed(prices@.take(at as int), model@) is None,
        decreases prices.len() - at,
    {
        assert(prices@.take(at + 1).drop_last() =~= prices@.take(at as int));
        if same_text(prices[at].0, model) {
            proof {
                lemma_listed(prices@, model@, at + 1);
            }
            let input: i128 = charge(input_tokens, prices[at].1);
            let output: i128 = charge(output_tokens, prices[at].2);
            return Ok(round(input + output, 1000));
        }
        at += 1;
    }
    assert(prices@.take(at as int) =~= prices@);
    Err(UnknownModel(model.to_owned()))
}

/// Turns token counts into a dollar cost using [`PRICES`], rounded to six decimal
/// places. Returns an [`UnknownModel`] error for a model that is not in the table.
pub fn estimate_cost(model: &str, input_tokens: i64, output_tokens: i64) -> (result: Result<
    i128,
    UnknownModel,
>)
    ensures
        match listed(PRICES@, model@) {
            Some(at) => result is Ok && result->Ok_0 == rounded(
                input_tokens * PRICES@[at].1 + output_tokens * PRICES@[at].2,
                1000,
            ),
            None => result is Err && result->Err_0.0@ == model@,
        },
{
    let prices: [(&'static str, u32, u32); 21] = PRICES;
    estimate_cost_with(prices.as_slice(), model, input_tokens, output_tokens)
}

} // verus!
