//! Laws of decisions: who is admitted, who is refused, and what a refusal says.

use crate::admission::{
    applicable, ask_key, ask_window, breaches, examined, places_among, recorded, rule_wait, Ask,
};
use crate::rules::{LimitRule, Scope};
use crate::store::StoreModel;
use crate::window::{Usage, WindowModel};
use vstd::prelude::*;

verus! {

/// Whether the rule at a place refuses a call, by what the store holds.
pub open spec fn refuses(
    rules: Seq<LimitRule>,
    place: usize,
    store: StoreModel,
    ask: Ask,
) -> bool {
    !breaches(
        &rules[place as int],
        ask_window(rules, place, store, ask).totals(ask.now),
        ask.tokens,
        ask.cost,
    ).none()
}

/// Whether two calls are counted under the same keys.
pub open spec fn same_caller(a: Ask, b: Ask) -> bool {
    a.tenant == b.tenant && a.user == b.user
}

/// Looking windows up does not change what any rule reads.
pub proof fn lemma_reading(
    rules: Seq<LimitRule>,
    places: Seq<usize>,
    store: StoreModel,
    ask: Ask,
    n: int,
    place: usize,
    other: Ask,
)
    ensures
        ask_window(rules, place, examined(rules, places, store, ask, n).store, other)
            == ask_window(rules, place, store, other),
    decreases n,
{
    if n > 0 {
        lemma_reading(rules, places, store, ask, n - 1, place, other);
        let looked = places[n - 1];
        if looked != place {
            super::keys::rules_do_not_share_keys(
                looked as nat,
                rules[looked as int].scope,
                ask.tenant,
                ask.user,
                place as nat,
                rules[place as int].scope,
                other.tenant,
                other.user,
            );
        }
    }
}

/// A cap that a call does not exceed asks for no wait, and one that it does for one that
/// is not negative.
proof fn lemma_rule_wait(rule: LimitRule, window: WindowModel, ask: Ask)
    ensures
        rule_wait(&rule, window, ask) is Some <==> !breaches(
            &rule,
            window.totals(ask.now),
            ask.tokens,
            ask.cost,
        ).none(),
        rule_wait(&rule, window, ask) is Some ==> rule_wait(&rule, window, ask)->0 >= 0,
        !breaches(&rule, window.totals(ask.now), ask.tokens, ask.cost).none()
            ==> rule.caps_usage(),
{
}

/// What examining a call against the first `n` of some rules finds, in terms of what the
/// store held before.
proof fn lemma_examined(
    rules: Seq<LimitRule>,
    places: Seq<usize>,
    store: StoreModel,
    ask: Ask,
    n: int,
)
    requires
        0 <= n <= places.len(),
    ensures
        match examined(rules, places, store, ask, n).worst {
            Some(worst) => {
                &&& exists|p: int|
                    {
                        &&& 0 <= p < n
                        &&& #[trigger] places[p] == worst.place
                        &&& refuses(rules, places[p], store, ask)
                        &&& rule_wait(
                            &rules[places[p] as int],
                            ask_window(rules, places[p], store, ask),
                            ask,
                        ) == Some(worst.wait)
                        &&& forall|q: int|
                            0 <= q < p && refuses(rules, #[trigger] places[q], store, ask)
                                ==> rule_wait(
                                &rules[places[q] as int],
                                ask_window(rules, places[q], store, ask),
                                ask,
                            )->0 < worst.wait
                    }
                &&& forall|q: int|
                    0 <= q < n && refuses(rules, #[trigger] places[q], store, ask) ==> rule_wait(
                        &rules[places[q] as int],
                        ask_window(rules, places[q], store, ask),
                        ask,
                    )->0 <= worst.wait
            },
            None => forall|q: int|
                0 <= q < n ==> !refuses(rules, #[trigger] places[q], store, ask),
        },
    decreases n,
{
    if n > 0 {
        lemma_examined(rules, places, store, ask, n - 1);
        let place = places[n - 1];
        let before = examined(rules, places, store, ask, n - 1);
        let window = ask_window(rules, place, store, ask);
        lemma_reading(rules, places, store, ask, n - 1, place, ask);
        lemma_rule_wait(rules[place as int], window, ask);
        let now = examined(rules, places, store, ask, n);
        if rules[place as int].caps_usage() {
            match rule_wait(&rules[place as int], window, ask) {
                Some(wait) => {
                    if before.worst is None || wait > before.worst->0.wait {
                        assert(now.worst->0.place == place && now.worst->0.wait == wait);
                        assert(places[n - 1] == place);
                    } else {
                        assert(now.worst == before.worst);
                    }
                },
                None => {
                    assert(now.worst == before.worst);
                },
            }
        } else {
            assert(now == before);
        }
    }
}

/// A call is refused if and only if some applicable rule refuses it.
pub proof fn a_call_must_clear_every_rule(
    rules: Seq<LimitRule>,
    places: Seq<usize>,
    store: StoreModel,
    ask: Ask,
)
    ensures
        examined(rules, places, store, ask, places.len() as int).worst is Some <==> exists|p: int|
            0 <= p < places.len() && refuses(rules, #[trigger] places[p], store, ask),
{
    lemma_examined(rules, places, store, ask, places.len() as int);
}

/// The toughest rule wins: a refusal names a rule that refuses, none that refuses asks
/// for a longer wait, and none before it asks for as long a one.
pub proof fn the_toughest_rule_wins(
    rules: Seq<LimitRule>,
    places: Seq<usize>,
    store: StoreModel,
    ask: Ask,
)
    requires
        examined(rules, places, store, ask, places.len() as int).worst is Some,
    ensures
        ({
            let worst = examined(rules, places, store, ask, places.len() as int).worst->0;
            &&& exists|p: int|
                {
                    &&& 0 <= p < places.len()
                    &&& #[trigger] places[p] == worst.place
                    &&& refuses(rules, places[p], store, ask)
                    &&& rule_wait(
                        &rules[places[p] as int],
                        ask_window(rules, places[p], store, ask),
                        ask,
                    ) == Some(worst.wait)
                    &&& forall|q: int|
                        0 <= q < p && refuses(rules, #[trigger] places[q], store, ask)
                            ==> rule_wait(
                            &rules[places[q] as int],
                            ask_window(rules, places[q], store, ask),
                            ask,
                        )->0 < worst.wait
                }
            &&& forall|q: int|
                0 <= q < places.len() && refuses(rules, #[trigger] places[q], store, ask)
                    ==> rule_wait(
                    &rules[places[q] as int],
                    ask_window(rules, places[q], store, ask),
                    ask,
                )->0 <= worst.wait
        }),
{
    lemma_examined(rules, places, store, ask, places.len() as int);
}

/// Looking a window up changes no total, whoever reads it and when.
pub proof fn lemma_touched_total(
    store: StoreModel,
    key: Seq<char>,
    window: i64,
    bucket: i64,
    other: Seq<char>,
    other_window: i64,
    other_bucket: i64,
    now: i64,
)
    ensures
        store.touched(key, window, bucket).window_for(other, other_window, other_bucket).totals(
            now,
        ) == store.window_for(other, other_window, other_bucket).totals(now),
{
    if other == key && !store.windows.contains_key(key) {
        assert(WindowModel::fresh(window, bucket).totals(now) == Usage::none());
        assert(WindowModel::fresh(other_window, other_bucket).totals(now) == Usage::none());
    }
}

/// A call that is examined, and refused, leaves every total and every count of calls in
/// flight as it was.
pub proof fn a_refusal_uses_nothing(
    rules: Seq<LimitRule>,
    places: Seq<usize>,
    store: StoreModel,
    ask: Ask,
    n: int,
    key: Seq<char>,
    window: i64,
    bucket: i64,
    now: i64,
)
    ensures
        examined(rules, places, store, ask, n).store.window_for(key, window, bucket).totals(now)
            == store.window_for(key, window, bucket).totals(now),
        examined(rules, places, store, ask, n).store.in_flight == store.in_flight,
    decreases n,
{
    if n > 0 {
        a_refusal_uses_nothing(
            rules,
            places,
            store,
            ask,
            n - 1,
            key,
            window,
            bucket,
            now,
        );
        let place = places[n - 1];
        let before = examined(rules, places, store, ask, n - 1).store;
        lemma_touched_total(
            before,
            ask_key(rules, place, ask),
            rules[place as int].window_seconds,
            rules[place as int].width() as i64,
            key,
            window,
            bucket,
            now,
        );
    }
}

/// Recording a call changes the windows of its own keys only.
pub proof fn a_call_counts_under_its_own_keys_only(
    rules: Seq<LimitRule>,
    places: Seq<usize>,
    store: StoreModel,
    ask: Ask,
    n: int,
    key: Seq<char>,
)
    requires
        forall|p: int| 0 <= p < n ==> ask_key(rules, #[trigger] places[p], ask) != key,
    ensures
        recorded(rules, places, store, ask, n).windows.contains_key(key)
            == store.windows.contains_key(key),
        recorded(rules, places, store, ask, n).windows.contains_key(key) ==> recorded(
            rules,
            places,
            store,
            ask,
            n,
        ).windows[key] == store.windows[key],
        recorded(rules, places, store, ask, n).in_flight == store.in_flight,
    decreases n,
{
    if n > 0 {
        assert(ask_key(rules, places[n - 1], ask) != key);
        a_call_counts_under_its_own_keys_only(rules, places, store, ask, n - 1, key);
    }
}

/// Whether a rule counts two calls under different keys: by tenant, or by tenant and
/// user.
pub open spec fn kept_apart(scope: Scope, a: Ask, b: Ask) -> bool {
    match scope {
        Scope::Global => false,
        Scope::Tenant => a.tenant != b.tenant,
        Scope::User => a.tenant != b.tenant || a.user != b.user,
    }
}

/// A call that is recorded leaves what a rule reads for another caller as it was, where
/// the rule keeps the two apart.
pub proof fn callers_do_not_use_up_each_others_budget(
    rules: Seq<LimitRule>,
    places: Seq<usize>,
    store: StoreModel,
    ask: Ask,
    other: Ask,
    place: usize,
)
    requires
        kept_apart(rules[place as int].scope, ask, other),
    ensures
        ask_window(
            rules,
            place,
            recorded(rules, places, store, ask, places.len() as int),
            other,
        ) == ask_window(rules, place, store, other),
{
    let key = ask_key(rules, place, other);
    assert forall|p: int| 0 <= p < places.len() implies ask_key(rules, #[trigger] places[p], ask)
        != key by {
        if places[p] != place {
            super::keys::rules_do_not_share_keys(
                places[p] as nat,
                rules[places[p] as int].scope,
                ask.tenant,
                ask.user,
                place as nat,
                rules[place as int].scope,
                other.tenant,
                other.user,
            );
        } else {
            match rules[place as int].scope {
                Scope::Global => {},
                Scope::Tenant => {
                    super::keys::a_tenant_rule_tells_tenants_apart(
                        place as nat,
                        ask.tenant,
                        ask.user,
                        other.tenant,
                        other.user,
                    );
                },
                Scope::User => {
                    super::keys::a_user_rule_tells_users_apart(
                        place as nat,
                        ask.tenant,
                        ask.user,
                        place as nat,
                        other.tenant,
                        other.user,
                    );
                },
            }
        }
    }
    a_call_counts_under_its_own_keys_only(
        rules,
        places,
        store,
        ask,
        places.len() as int,
        key,
    );
}

/// A call for a model that no rule is made for, and that no rule for every model covers,
/// is admitted and recorded nowhere.
pub proof fn a_model_without_rules_is_admitted(
    rules: Seq<LimitRule>,
    model: Seq<char>,
    store: StoreModel,
    ask: Ask,
)
    requires
        forall|i: int|
            0 <= i < rules.len() ==> (#[trigger] rules[i]).model@ != model && rules[i].model@
                != "*"@,
    ensures
        applicable(rules, model) == Seq::<usize>::empty(),
        examined(rules, applicable(rules, model), store, ask, 0).worst is None,
        recorded(rules, applicable(rules, model), store, ask, 0) == store,
{
    lemma_no_places(rules, model, rules.len() as int);
    lemma_no_places(rules, "*"@, rules.len() as int);
    assert(applicable(rules, model) =~= Seq::<usize>::empty());
}

proof fn lemma_no_places(rules: Seq<LimitRule>, name: Seq<char>, n: int)
    requires
        n <= rules.len(),
        forall|i: int| 0 <= i < rules.len() ==> (#[trigger] rules[i]).model@ != name,
    ensures
        places_among(rules, name, n) == Seq::<usize>::empty(),
    decreases n,
{
    if n > 0 {
        assert(rules[n - 1].model@ != name);
        lemma_no_places(rules, name, n - 1);
    }
}

} // verus!
