//! Laws of what is shown: figures are rounded the way a caller needs, and the name of a
//! scope reads back.

use crate::fixed::UNIT;
use crate::headers::{full_seconds, whole};
use crate::pricing::rounded;
use crate::rules::{lowered, Scope};
use vstd::prelude::*;

verus! {

/// The name of a scope reads back as that scope, and needs no lowercasing.
pub proof fn a_scope_reads_back(scope: Scope)
    ensures
        lowered(scope.text()) == scope.text(),
        Scope::named(lowered(scope.text())) == Some(scope),
{
    reveal_strlit("global");
    reveal_strlit("tenant");
    reveal_strlit("user");
    assert(lowered(scope.text()) =~= scope.text());
    assert("global"@[0] != "tenant"@[0]);
    assert("user"@.len() == 4);
}

/// Waiting for the full seconds that a header tells is long enough, and less than a
/// second too long.
pub proof fn told_seconds_are_long_enough(wait: int)
    requires
        0 <= wait,
        wait <= i64::MAX,
    ensures
        wait <= full_seconds(wait) * UNIT < wait + UNIT,
{
    let unit = UNIT as int;
    vstd::arithmetic::div_mod::lemma_fundamental_div_mod(wait + unit - 1, unit);
}

/// The headroom that a header tells is there, and less than one whole unit is left out.
pub proof fn told_headroom_is_there(room: int)
    requires
        0 <= room,
        room < i64::MAX * UNIT,
    ensures
        whole(room) * UNIT <= room < whole(room) * UNIT + UNIT,
{
    let unit = UNIT as int;
    vstd::arithmetic::div_mod::lemma_fundamental_div_mod(room, unit);
}

/// A cost is rounded to a multiple of the unit that is no further off than half of it.
pub proof fn a_cost_is_rounded_to_the_nearest(x: int, unit: int)
    requires
        0 < unit,
    ensures
        rounded(x, unit) % unit == 0,
        -unit <= 2 * (rounded(x, unit) - x) <= unit,
{
    let size = if x >= 0 {
        x
    } else {
        -x
    };
    let y = size + unit / 2;
    let q = y / unit;
    vstd::arithmetic::div_mod::lemma_fundamental_div_mod(y, unit);
    vstd::arithmetic::div_mod::lemma_mod_bound(y, unit);
    assert(unit * q == q * unit) by (nonlinear_arith);
    vstd::arithmetic::div_mod::lemma_mod_multiples_basic(q, unit);
    vstd::arithmetic::div_mod::lemma_mod_multiples_basic(-q, unit);
    assert((-q) * unit == -(q * unit)) by (nonlinear_arith);
}

/// More tokens never cost less.
pub proof fn more_tokens_never_cost_less(
    input: i64,
    output: i64,
    more_input: i64,
    more_output: i64,
    input_price: u32,
    output_price: u32,
    unit: int,
)
    requires
        input <= more_input,
        output <= more_output,
        0 < unit,
    ensures
        rounded(input * input_price + output * output_price, unit) <= rounded(
            more_input * input_price + more_output * output_price,
            unit,
        ),
{
    assert(input * input_price <= more_input * input_price) by (nonlinear_arith)
        requires
            input <= more_input,
            0 <= input_price,
    ;
    assert(output * output_price <= more_output * output_price) by (nonlinear_arith)
        requires
            output <= more_output,
            0 <= output_price,
    ;
    lemma_rounding_keeps_the_order(
        input * input_price + output * output_price,
        more_input * input_price + more_output * output_price,
        unit,
    );
}

/// Rounding keeps the order.
proof fn lemma_rounding_keeps_the_order(x: int, y: int, unit: int)
    requires
        0 < unit,
        x <= y,
    ensures
        rounded(x, unit) <= rounded(y, unit),
{
    let half = unit / 2;
    if x >= 0 {
        vstd::arithmetic::div_mod::lemma_div_is_ordered(x + half, y + half, unit);
        let (a, b) = ((x + half) / unit, (y + half) / unit);
        assert(a * unit <= b * unit) by (nonlinear_arith)
            requires
                a <= b,
                0 < unit,
        ;
    } else if y < 0 {
        vstd::arithmetic::div_mod::lemma_div_is_ordered(-y + half, -x + half, unit);
        let (a, b) = ((-y + half) / unit, (-x + half) / unit);
        assert(a * unit <= b * unit) by (nonlinear_arith)
            requires
                a <= b,
                0 < unit,
        ;
    } else {
        let (a, b) = ((-x + half) / unit, (y + half) / unit);
        vstd::arithmetic::div_mod::lemma_div_pos_is_pos(-x + half, unit);
        vstd::arithmetic::div_mod::lemma_div_pos_is_pos(y + half, unit);
        assert(0 <= a * unit && 0 <= b * unit) by (nonlinear_arith)
            requires
                0 <= a,
                0 <= b,
                0 < unit,
        ;
    }
}

} // verus!
