//! Laws of coverage: every rule made for a model, or for every model, has its say in every
//! decision on it, and no other rule has.

use super::admissions::{cap_along, lemma_recorded_once};
use super::decisions::refuses;
use crate::admission::{
    applicable, ask_key, ask_window, breaches, examined, places_among, recorded, rule_wait,
    surveyed, Ask,
};
use crate::fixed::sat;
use crate::rules::{LimitRule, Scope};
use crate::store::StoreModel;
use crate::window::{COST, REQUESTS, TOKENS};
use vstd::prelude::*;

verus! {

/// Whether a rule is for a model: by its name, or as one for every model.
pub open spec fn covers(rule: LimitRule, model: Seq<char>) -> bool {
    rule.model@ == model || rule.model@ == "*"@
}

/// Whether one rule comes before another in the examination of a model: those made for it
/// come first, and otherwise the order is that of the list.
pub open spec fn comes_before(rules: Seq<LimitRule>, model: Seq<char>, i: int, j: int) -> bool {
    let (first, second) = (rules[i].model@ == model, rules[j].model@ == model);
    (first && !second) || (first == second && i < j)
}

/// The places of the rules with a name are all of them, in their order.
proof fn lemma_places_among(rules: Seq<LimitRule>, name: Seq<char>, n: int)
    requires
        0 <= n <= rules.len() <= usize::MAX,
    ensures
        forall|i: int|
            0 <= i < n && (#[trigger] rules[i]).model@ == name ==> places_among(
                rules,
                name,
                n,
            ).contains(i as usize),
        forall|p: int, q: int|
            0 <= p < q < places_among(rules, name, n).len() ==> (#[trigger] places_among(
                rules,
                name,
                n,
            )[p]) < (#[trigger] places_among(rules, name, n)[q]),
    decreases n,
{
    if n > 0 {
        lemma_places_among(rules, name, n - 1);
        crate::admission::lemma_places_in_range(rules, name, n - 1);
        let fewer = places_among(rules, name, n - 1);
        let places = places_among(rules, name, n);
        assert forall|i: int| 0 <= i < n && (#[trigger] rules[i]).model@ == name implies
            places.contains(i as usize) by {
            if i == n - 1 {
                assert(places[places.len() - 1] == i as usize);
            } else {
                let p = choose|p: int| 0 <= p < fewer.len() && fewer[p] == i as usize;
                assert(places[p] == i as usize);
            }
        }
    }
}

/// The rules that apply to a model are those made for it and those made for every model,
/// and no others.
pub proof fn the_rules_that_apply_are_those_that_cover(rules: Seq<LimitRule>, model: Seq<char>)
    requires
        rules.len() <= usize::MAX,
    ensures
        forall|i: int|
            0 <= i < rules.len() ==> (applicable(rules, model).contains(i as usize) <==> covers(
                #[trigger] rules[i],
                model,
            )),
        forall|p: int|
            0 <= p < applicable(rules, model).len() ==> (#[trigger] applicable(rules, model)[p])
                < rules.len() && covers(rules[applicable(rules, model)[p] as int], model),
{
    let n = rules.len() as int;
    let (own, every) = (places_among(rules, model, n), places_among(rules, "*"@, n));
    let all = applicable(rules, model);
    crate::admission::lemma_places_in_range(rules, model, n);
    crate::admission::lemma_places_in_range(rules, "*"@, n);
    lemma_places_among(rules, model, n);
    lemma_places_among(rules, "*"@, n);
    assert forall|p: int| 0 <= p < all.len() implies (#[trigger] all[p]) < rules.len() && covers(
        rules[all[p] as int],
        model,
    ) by {
        if p < own.len() {
            assert(all[p] == own[p]);
        } else {
            assert(all[p] == every[p - own.len()]);
        }
    }
    assert forall|i: int| 0 <= i < rules.len() implies (all.contains(i as usize) <==> covers(
        #[trigger] rules[i],
        model,
    )) by {
        if rules[i].model@ == model {
            let p = choose|p: int| 0 <= p < own.len() && own[p] == i as usize;
            assert(all[p] == i as usize);
        } else if rules[i].model@ == "*"@ {
            let p = choose|p: int| 0 <= p < every.len() && every[p] == i as usize;
            assert(all[own.len() + p] == i as usize);
        }
        if all.contains(i as usize) {
            let p = choose|p: int| 0 <= p < all.len() && all[p] == i as usize;
            assert(covers(rules[all[p] as int], model));
        }
    }
}

/// The rules of a model are examined in the order that `comes_before` lays down.
pub proof fn rules_are_examined_in_order(rules: Seq<LimitRule>, model: Seq<char>)
    requires
        rules.len() <= usize::MAX,
    ensures
        forall|p: int, q: int|
            0 <= p < applicable(rules, model).len() && 0 <= q < applicable(rules, model).len()
                ==> (p < q <==> comes_before(
                rules,
                model,
                #[trigger] applicable(rules, model)[p] as int,
                #[trigger] applicable(rules, model)[q] as int,
            )),
{
    let n = rules.len() as int;
    let (own, every) = (places_among(rules, model, n), places_among(rules, "*"@, n));
    let all = applicable(rules, model);
    crate::admission::lemma_places_in_range(rules, model, n);
    crate::admission::lemma_places_in_range(rules, "*"@, n);
    lemma_places_among(rules, model, n);
    lemma_places_among(rules, "*"@, n);
    assert forall|p: int, q: int| 0 <= p < all.len() && 0 <= q < all.len() implies (p < q
        <==> comes_before(
        rules,
        model,
        #[trigger] all[p] as int,
        #[trigger] all[q] as int,
    )) by {
        if p < own.len() {
            assert(all[p] == own[p]);
        } else {
            assert(all[p] == every[p - own.len()]);
        }
        if q < own.len() {
            assert(all[q] == own[q]);
        } else {
            assert(all[q] == every[q - own.len()]);
        }
    }
}

/// What a rule counts for a caller in one dimension, in a store and at a time.
pub open spec fn counted(
    rules: Seq<LimitRule>,
    i: int,
    store: StoreModel,
    ask: Ask,
    dim: usize,
) -> i128 {
    let used = ask_window(rules, i as usize, store, ask).totals(ask.now);
    if dim == TOKENS {
        used.tokens
    } else if dim == REQUESTS {
        used.requests
    } else {
        used.cost
    }
}

/// What a call asks for in one dimension: its estimates, and one request.
pub open spec fn asked(ask: Ask, dim: usize) -> i128 {
    if dim == TOKENS {
        ask.tokens
    } else if dim == REQUESTS {
        1_000_000_000
    } else {
        ask.cost
    }
}

/// Whether a call stays, in one dimension, within the cap of a rule and a slack of one
/// billionth, given what the rule counts already. Sums saturate.
pub open spec fn fits(
    rules: Seq<LimitRule>,
    i: int,
    store: StoreModel,
    ask: Ask,
    dim: usize,
) -> bool {
    cap_along(rules[i], dim) matches Some(cap) ==> sat(
        counted(rules, i, store, ask, dim) + asked(ask, dim),
    ) <= sat(cap + 1)
}

/// Whether a call stays within every cap of a rule.
pub open spec fn fits_under(rules: Seq<LimitRule>, i: int, store: StoreModel, ask: Ask) -> bool {
    &&& fits(rules, i, store, ask, TOKENS)
    &&& fits(rules, i, store, ask, REQUESTS)
    &&& fits(rules, i, store, ask, COST)
}

/// Whether a call stays within every cap of every rule for its model.
pub open spec fn fits_under_all(
    rules: Seq<LimitRule>,
    model: Seq<char>,
    store: StoreModel,
    ask: Ask,
) -> bool {
    forall|i: int|
        0 <= i < rules.len() && covers(#[trigger] rules[i], model) ==> fits_under(
            rules,
            i,
            store,
            ask,
        )
}

/// A rule refuses what does not fit.
proof fn lemma_refuses(rules: Seq<LimitRule>, place: usize, store: StoreModel, ask: Ask)
    ensures
        refuses(rules, place, store, ask) <==> !fits_under(rules, place as int, store, ask),
{
}

/// A call is admitted if and only if it fits under every rule for its model.
pub proof fn what_fits_under_every_rule_is_admitted(
    rules: Seq<LimitRule>,
    model: Seq<char>,
    store: StoreModel,
    ask: Ask,
)
    requires
        rules.len() <= usize::MAX,
    ensures
        examined(
            rules,
            applicable(rules, model),
            store,
            ask,
            applicable(rules, model).len() as int,
        ).worst is None <==> fits_under_all(rules, model, store, ask),
{
    let places = applicable(rules, model);
    the_rules_that_apply_are_those_that_cover(rules, model);
    super::decisions::a_call_must_clear_every_rule(rules, places, store, ask);
    if fits_under_all(rules, model, store, ask) {
        assert forall|p: int| 0 <= p < places.len() implies !refuses(
            rules,
            #[trigger] places[p],
            store,
            ask,
        ) by {
            assert(covers(rules[places[p] as int], model));
            lemma_refuses(rules, places[p], store, ask);
        }
    } else {
        let i = choose|i: int|
            0 <= i < rules.len() && covers(#[trigger] rules[i], model) && !fits_under(
                rules,
                i,
                store,
                ask,
            );
        assert(places.contains(i as usize));
        let p = choose|p: int| 0 <= p < places.len() && places[p] == i as usize;
        lemma_refuses(rules, places[p], store, ask);
        assert(refuses(rules, places[p], store, ask));
    }
}

/// By how much a call goes beyond the cap of a rule in one dimension. Sums saturate.
pub open spec fn beyond(
    rules: Seq<LimitRule>,
    i: int,
    store: StoreModel,
    ask: Ask,
    dim: usize,
) -> int {
    sat(sat(counted(rules, i, store, ask, dim) + asked(ask, dim)) - cap_along(rules[i], dim)->0)
}

/// How long a rule has to be waited for in one dimension that a call does not fit in.
pub open spec fn wait_in(
    rules: Seq<LimitRule>,
    i: int,
    store: StoreModel,
    ask: Ask,
    dim: usize,
) -> int {
    ask_window(rules, i as usize, store, ask).wait(
        ask.now,
        beyond(rules, i, store, ask, dim),
        dim,
    )
}

/// Whether a time is as long as a rule has to be waited for in every dimension that a call
/// does not fit in.
pub open spec fn outlasts(
    rules: Seq<LimitRule>,
    i: int,
    store: StoreModel,
    ask: Ask,
    wait: int,
) -> bool {
    forall|dim: usize|
        dim < 3 && !(#[trigger] fits(rules, i, store, ask, dim)) ==> wait_in(
            rules,
            i,
            store,
            ask,
            dim,
        ) <= wait
}

/// What a rule asks to wait is the longest of what its dimensions ask, and not negative.
proof fn lemma_rule_wait(rules: Seq<LimitRule>, place: usize, store: StoreModel, ask: Ask)
    requires
        !fits_under(rules, place as int, store, ask),
    ensures
        ({
            let wait = rule_wait(
                &rules[place as int],
                ask_window(rules, place, store, ask),
                ask,
            );
            &&& wait is Some
            &&& wait->0 >= 0
            &&& forall|time: int|
                0 <= time ==> (wait->0 <= time <==> #[trigger] outlasts(
                    rules,
                    place as int,
                    store,
                    ask,
                    time,
                ))
        }),
{
    let i = place as int;
    let window = ask_window(rules, place, store, ask);
    let wait = rule_wait(&rules[i], window, ask)->0;
    let found = breaches(&rules[i], window.totals(ask.now), ask.tokens, ask.cost);
    assert(found.tokens is Some <==> !fits(rules, i, store, ask, TOKENS));
    assert(found.requests is Some <==> !fits(rules, i, store, ask, REQUESTS));
    assert(found.cost is Some <==> !fits(rules, i, store, ask, COST));
    assert forall|time: int| 0 <= time implies (wait <= time <==> #[trigger] outlasts(
        rules,
        i,
        store,
        ask,
        time,
    )) by {
        if outlasts(rules, i, store, ask, time) {
            assert(!fits(rules, i, store, ask, TOKENS) ==> wait_in(rules, i, store, ask, TOKENS)
                <= time);
            assert(!fits(rules, i, store, ask, REQUESTS) ==> wait_in(
                rules,
                i,
                store,
                ask,
                REQUESTS,
            ) <= time);
            assert(!fits(rules, i, store, ask, COST) ==> wait_in(rules, i, store, ask, COST)
                <= time);
        } else {
            let dim = choose|dim: usize|
                dim < 3 && !(#[trigger] fits(rules, i, store, ask, dim)) && wait_in(
                    rules,
                    i,
                    store,
                    ask,
                    dim,
                ) > time;
            assert(dim == TOKENS || dim == REQUESTS || dim == COST);
        }
    }
}

/// A refusal names a rule for the model that the call does not fit under, and tells the
/// shortest wait that is long enough for every rule that the call does not fit under. Of
/// several such rules that ask for that long a wait it names the first.
pub open spec fn toughest(
    rules: Seq<LimitRule>,
    model: Seq<char>,
    store: StoreModel,
    ask: Ask,
    i: int,
    wait: int,
) -> bool {
    &&& 0 <= i < rules.len()
    &&& covers(rules[i], model)
    &&& !fits_under(rules, i, store, ask)
    &&& 0 <= wait
    &&& forall|time: int|
        0 <= time < wait ==> !(#[trigger] outlasts(rules, i, store, ask, time))
    &&& forall|j: int|
        0 <= j < rules.len() && covers(#[trigger] rules[j], model) ==> outlasts(
            rules,
            j,
            store,
            ask,
            wait,
        )
    &&& forall|j: int|
        0 <= j < rules.len() && covers(#[trigger] rules[j], model) && comes_before(
            rules,
            model,
            j,
            i,
        ) && !fits_under(rules, j, store, ask) ==> 0 < wait && outlasts(
            rules,
            j,
            store,
            ask,
            wait - 1,
        )
}

/// A refusal tells the toughest of the rules for the model, and its wait.
pub proof fn a_refusal_tells_the_toughest_rule(
    rules: Seq<LimitRule>,
    model: Seq<char>,
    store: StoreModel,
    ask: Ask,
)
    requires
        rules.len() <= usize::MAX,
    ensures
        examined(
            rules,
            applicable(rules, model),
            store,
            ask,
            applicable(rules, model).len() as int,
        ).worst matches Some(worst) ==> toughest(
            rules,
            model,
            store,
            ask,
            worst.place as int,
            worst.wait,
        ),
{
    let places = applicable(rules, model);
    let n = places.len() as int;
    if let Some(worst) = examined(rules, places, store, ask, n).worst {
        the_rules_that_apply_are_those_that_cover(rules, model);
        rules_are_examined_in_order(rules, model);
        super::decisions::the_toughest_rule_wins(rules, places, store, ask);
        let p = choose|p: int|
            {
                &&& 0 <= p < places.len()
                &&& #[trigger] places[p] == worst.place
                &&& refuses(rules, places[p], store, ask)
                &&& rule_wait(
                    &rules[places[p] as int],
                    ask_window(rules, places[p], store, ask),
                    ask,
                ) == Some(worst.wait)
                &&& forall|q: int|
                    0 <= q < p && refuses(rules, #[trigger] places[q], store, ask) ==> rule_wait(
                        &rules[places[q] as int],
                        ask_window(rules, places[q], store, ask),
                        ask,
                    )->0 < worst.wait
            };
        let i = worst.place as int;
        lemma_refuses(rules, worst.place, store, ask);
        lemma_rule_wait(rules, worst.place, store, ask);
        assert forall|time: int| 0 <= time < worst.wait implies !(#[trigger] outlasts(
            rules,
            i,
            store,
            ask,
            time,
        )) by {}
        assert forall|j: int| 0 <= j < rules.len() && covers(#[trigger] rules[j], model) implies
            outlasts(rules, j, store, ask, worst.wait) by {
            assert(places.contains(j as usize));
            let q = choose|q: int| 0 <= q < places.len() && places[q] == j as usize;
            if !fits_under(rules, j, store, ask) {
                lemma_refuses(rules, places[q], store, ask);
                lemma_rule_wait(rules, places[q], store, ask);
                assert(outlasts(rules, places[q] as int, store, ask, worst.wait));
            } else {
                assert forall|dim: usize| dim < 3 implies #[trigger] fits(
                    rules,
                    j,
                    store,
                    ask,
                    dim,
                ) by {
                    assert(dim == TOKENS || dim == REQUESTS || dim == COST);
                }
            }
        }
        assert forall|j: int|
            0 <= j < rules.len() && covers(#[trigger] rules[j], model) && comes_before(
                rules,
                model,
                j,
                i,
            ) && !fits_under(rules, j, store, ask) implies 0 < worst.wait && outlasts(
            rules,
            j,
            store,
            ask,
            worst.wait - 1,
        ) by {
            assert(places.contains(j as usize));
            let q = choose|q: int| 0 <= q < places.len() && places[q] == j as usize;
            assert(places[q] as int == j && places[p] as int == i);
            assert(q < p);
            lemma_refuses(rules, places[q], store, ask);
            lemma_rule_wait(rules, places[q], store, ask);
            assert(outlasts(rules, places[q] as int, store, ask, worst.wait - 1));
        }
    }
}

/// Whether a rule counts two calls together: a global one any two, a tenant one those of
/// one tenant, and a user one those of one user of one tenant.
pub open spec fn counted_together(scope: Scope, a: Ask, b: Ask) -> bool {
    match scope {
        Scope::Global => true,
        Scope::Tenant => a.tenant == b.tenant,
        Scope::User => a.tenant == b.tenant && a.user == b.user,
    }
}

/// Calls have one key of a rule if and only if the rule counts them together.
pub proof fn keys_tell_budgets_apart(rules: Seq<LimitRule>, place: usize, a: Ask, b: Ask)
    ensures
        ask_key(rules, place, a) == ask_key(rules, place, b) <==> counted_together(
            rules[place as int].scope,
            a,
            b,
        ),
{
    match rules[place as int].scope {
        Scope::Global => {},
        Scope::Tenant => {
            super::keys::a_tenant_rule_tells_tenants_apart(
                place as nat,
                a.tenant,
                a.user,
                b.tenant,
                b.user,
            );
        },
        Scope::User => {
            super::keys::a_user_rule_tells_users_apart(
                place as nat,
                a.tenant,
                a.user,
                place as nat,
                b.tenant,
                b.user,
            );
        },
    }
}

/// Whether a rule caps anything that is recorded.
pub open spec fn caps_anything(rule: LimitRule) -> bool {
    rule.max_tokens is Some || rule.max_requests is Some || rule.max_cost is Some
}

/// Recording a call counts it once under every rule for its model that caps usage, for the
/// callers that the rule counts together with it, and changes nothing else that any rule
/// reads.
pub proof fn a_recorded_call_counts_once_under_every_rule_for_it(
    rules: Seq<LimitRule>,
    model: Seq<char>,
    store: StoreModel,
    ask: Ask,
    place: usize,
    caller: Ask,
)
    requires
        place < rules.len() <= usize::MAX,
    ensures
        ({
            let places = applicable(rules, model);
            let after = recorded(rules, places, store, ask, places.len() as int);
            let rule = rules[place as int];
            ask_window(rules, place, after, caller) == if covers(rule, model) && caps_anything(
                rule,
            ) && counted_together(rule.scope, ask, caller) {
                ask_window(rules, place, store, caller).added(ask.now, ask.used())
            } else {
                ask_window(rules, place, store, caller)
            }
        }),
{
    let places = applicable(rules, model);
    let n = places.len() as int;
    let key = ask_key(rules, place, caller);
    the_rules_that_apply_are_those_that_cover(rules, model);
    keys_tell_budgets_apart(rules, place, ask, caller);
    assert(rules[place as int].caps_usage() == caps_anything(rules[place as int]));
    assert(places.contains(place) <==> covers(rules[place as int], model)) by {
        let i = place as int;
        assert(places.contains(i as usize) <==> covers(rules[i], model));
    }
    if covers(rules[place as int], model) && counted_together(
        rules[place as int].scope,
        ask,
        caller,
    ) && caps_anything(rules[place as int]) {
        let p = choose|p: int| 0 <= p < places.len() && places[p] == place;
        super::admissions::no_rule_applies_twice(rules, model);
        lemma_recorded_once(rules, places, store, ask, n, p);
    } else {
        lemma_unrecorded(rules, places, store, ask, n, place, caller);
    }
}

/// A rule that records nothing of a call for a caller reads what it did.
proof fn lemma_unrecorded(
    rules: Seq<LimitRule>,
    places: Seq<usize>,
    store: StoreModel,
    ask: Ask,
    n: int,
    place: usize,
    caller: Ask,
)
    requires
        0 <= n <= places.len(),
        places.contains(place) && rules[place as int].caps_usage() ==> ask_key(
            rules,
            place,
            ask,
        ) != ask_key(rules, place, caller),
    ensures
        ask_window(rules, place, recorded(rules, places, store, ask, n), caller) == ask_window(
            rules,
            place,
            store,
            caller,
        ),
    decreases n,
{
    if n > 0 {
        lemma_unrecorded(rules, places, store, ask, n - 1, place, caller);
        let other = places[n - 1];
        if other == place {
            assert(places.contains(place));
        } else {
            super::keys::rules_do_not_share_keys(
                other as nat,
                rules[other as int].scope,
                ask.tenant,
                ask.user,
                place as nat,
                rules[place as int].scope,
                caller.tenant,
                caller.user,
            );
        }
    }
}

/// Looking windows up, as examining a call and surveying the headroom do, does not change
/// what any rule reads for anyone.
pub proof fn looking_changes_nothing(
    rules: Seq<LimitRule>,
    places: Seq<usize>,
    store: StoreModel,
    ask: Ask,
    place: usize,
    caller: Ask,
)
    ensures
        ask_window(
            rules,
            place,
            examined(rules, places, store, ask, places.len() as int).store,
            caller,
        ) == ask_window(rules, place, store, caller),
        ask_window(
            rules,
            place,
            surveyed(rules, places, store, ask, places.len() as int).store,
            caller,
        ) == ask_window(rules, place, store, caller),
{
    super::decisions::lemma_reading(
        rules,
        places,
        store,
        ask,
        places.len() as int,
        place,
        caller,
    );
    super::admissions::lemma_survey_reading(
        rules,
        places,
        store,
        ask,
        places.len() as int,
        place,
        caller,
    );
}

} // verus!
