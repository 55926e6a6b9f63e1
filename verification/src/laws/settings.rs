//! Laws of settings: each is what it was set to, and setting one leaves the others.

use crate::limiter::Acquire;
use crate::listing::Listing;
use crate::rules::{LimitRule, Scope};
use vstd::prelude::*;

verus! {

/// A new rule is for its model and its window, in 60 buckets and for everyone together, and
/// caps nothing.
pub proof fn a_new_rule_caps_nothing(model: &str, window_seconds: i64, rule: LimitRule)
    requires
        call_ensures(LimitRule::new, (model, window_seconds), rule),
    ensures
        rule.model@ == model@,
        rule.window_seconds == window_seconds,
        rule.max_tokens is None,
        rule.max_requests is None,
        rule.max_cost is None,
        rule.max_concurrent is None,
        rule.scope == Scope::Global,
        rule.buckets_per_window == 60,
        !rule.precise,
        rule.name is None,
{
}

/// Whether two rules agree in their model, their window, their scope, their buckets and
/// their name.
pub open spec fn same_frame(a: LimitRule, b: LimitRule) -> bool {
    &&& a.model == b.model
    &&& a.window_seconds == b.window_seconds
    &&& a.scope == b.scope
    &&& a.buckets_per_window == b.buckets_per_window
    &&& a.precise == b.precise
    &&& a.name == b.name
}

/// Whether two rules cap the same.
pub open spec fn same_caps(a: LimitRule, b: LimitRule) -> bool {
    &&& a.max_tokens == b.max_tokens
    &&& a.max_requests == b.max_requests
    &&& a.max_cost == b.max_cost
    &&& a.max_concurrent == b.max_concurrent
}

/// Setting the four caps of a rule sets each of them, whatever they are, and nothing else.
pub proof fn every_cap_is_kept(
    rule: LimitRule,
    tokens: i128,
    one: LimitRule,
    requests: i128,
    two: LimitRule,
    cost: i128,
    three: LimitRule,
    concurrent: i64,
    four: LimitRule,
)
    requires
        call_ensures(LimitRule::max_tokens, (rule, tokens), one),
        call_ensures(LimitRule::max_requests, (one, requests), two),
        call_ensures(LimitRule::max_cost, (two, cost), three),
        call_ensures(LimitRule::max_concurrent, (three, concurrent), four),
    ensures
        four.max_tokens == Some(tokens),
        four.max_requests == Some(requests),
        four.max_cost == Some(cost),
        four.max_concurrent == Some(concurrent),
        same_frame(four, rule),
{
}

/// Setting the scope, the buckets, the log and the name of a rule sets each of them,
/// whatever they are, and nothing else.
pub proof fn every_option_is_kept(
    rule: LimitRule,
    scope: Scope,
    one: LimitRule,
    buckets: i64,
    two: LimitRule,
    precise: bool,
    three: LimitRule,
    name: &str,
    four: LimitRule,
)
    requires
        call_ensures(LimitRule::scope, (rule, scope), one),
        call_ensures(LimitRule::buckets_per_window, (one, buckets), two),
        call_ensures(LimitRule::precise, (two, precise), three),
        call_ensures(LimitRule::name, (three, name), four),
    ensures
        four.scope == scope,
        four.buckets_per_window == buckets,
        four.precise == precise,
        four.name is Some,
        four.name->0@ == name@,
        four.model == rule.model,
        four.window_seconds == rule.window_seconds,
        same_caps(four, rule),
{
}

/// A rule limits usage if and only if it caps tokens, requests or cost.
pub proof fn a_rule_limits_usage_by_a_cap(rule: &LimitRule, limited: bool)
    requires
        call_ensures(LimitRule::has_usage_limit, (rule,), limited),
    ensures
        limited <==> rule.max_tokens is Some || rule.max_requests is Some || rule.max_cost is Some,
{
}

/// A call asks for nothing, for no one in particular and at no time in particular until it
/// is said otherwise, and every part that is said is kept.
pub proof fn every_part_of_a_call_is_kept(
    new: Acquire,
    tokens: i128,
    one: Acquire,
    cost: i128,
    two: Acquire,
    tenant: &str,
    three: Acquire,
    user: &str,
    four: Acquire,
    now: i64,
    five: Acquire,
)
    requires
        call_ensures(Acquire::new, (), new),
        call_ensures(Acquire::tokens, (new, tokens), one),
        call_ensures(Acquire::cost, (one, cost), two),
        call_ensures(Acquire::tenant, (two, tenant), three),
        call_ensures(Acquire::user, (three, user), four),
        call_ensures(Acquire::now, (four, now), five),
    ensures
        new.tokens == 0,
        new.cost == 0,
        new.tenant@.len() == 0,
        new.user@.len() == 0,
        new.now is None,
        one.cost == 0,
        one.tenant == new.tenant,
        two.tenant == new.tenant,
        three.user == new.user,
        four.now is None,
        five.tokens == tokens,
        five.cost == cost,
        five.tenant@ == tenant@,
        five.user@ == user@,
        five.now == Some(now),
{
}

/// What is put into a listing under a name is found there, what is under other names stays,
/// and a new name comes last.
pub proof fn what_is_listed_is_found<V>(
    listing: &mut Listing<V>,
    name: String,
    value: V,
    other: &str,
    found: Option<&V>,
)
    requires
        call_ensures(Listing::<V>::insert, (listing, name, value), ()),
        call_ensures(Listing::<V>::get, (&*final(listing), other), found),
    ensures
        other@ == name@ ==> found is Some && *found->0 == value,
        other@ != name@ ==> match found {
            Some(found) => old(listing)@.contains_key(other@) && *found == old(listing)@[other@],
            None => !old(listing)@.contains_key(other@),
        },
        !old(listing)@.contains_key(name@) ==> final(listing).order() == old(
            listing,
        ).order().push(name@),
        old(listing)@.contains_key(name@) ==> final(listing).order() == old(listing).order(),
{
}

} // verus!
