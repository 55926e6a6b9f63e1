//! Laws of admission: an admitted call keeps every cap, and the headroom told is what is
//! left.

use super::counting::{counts_in_full, room_for};
use super::decisions::refuses;
use crate::admission::{
    applicable, ask_key, ask_window, examined, places_among, recorded, surveyed, tightened, Ask,
    Headroom,
};
use crate::fixed::{sat, SLACK, UNIT};
use crate::rules::LimitRule;
use crate::store::StoreModel;
use crate::window::{Usage, COST, REQUESTS, TOKENS};
use vstd::prelude::*;

verus! {

/// The cap of a rule in one dimension.
pub open spec fn cap_along(rule: LimitRule, dim: usize) -> Option<i128> {
    if dim == TOKENS {
        rule.max_tokens
    } else if dim == REQUESTS {
        rule.max_requests
    } else {
        rule.max_cost
    }
}

/// No rule applies twice to a model.
pub proof fn no_rule_applies_twice(rules: Seq<LimitRule>, model: Seq<char>)
    requires
        rules.len() <= usize::MAX,
    ensures
        applicable(rules, model).no_duplicates(),
{
    let n = rules.len() as int;
    let (own, every) = (places_among(rules, model, n), places_among(rules, "*"@, n));
    lemma_places(rules, model, n);
    lemma_places(rules, "*"@, n);
    crate::admission::lemma_places_in_range(rules, model, n);
    crate::admission::lemma_places_in_range(rules, "*"@, n);
    let all = applicable(rules, model);
    assert forall|i: int, j: int| 0 <= i < all.len() && 0 <= j < all.len() && i != j implies all[i]
        != all[j] by {
        if i < own.len() && j >= own.len() {
            assert(rules[own[i] as int].model@ == model);
            assert(rules[every[j - own.len()] as int].model@ == "*"@);
        } else if j < own.len() && i >= own.len() {
            assert(rules[own[j] as int].model@ == model);
            assert(rules[every[i - own.len()] as int].model@ == "*"@);
        } else if i < own.len() {
            assert(own[i] != own[j]);
        } else {
            assert(every[i - own.len()] != every[j - own.len()]);
        }
    }
}

proof fn lemma_places(rules: Seq<LimitRule>, name: Seq<char>, n: int)
    requires
        0 <= n <= rules.len() <= usize::MAX,
    ensures
        places_among(rules, name, n).no_duplicates(),
    decreases n,
{
    if n > 0 {
        lemma_places(rules, name, n - 1);
        crate::admission::lemma_places_in_range(rules, name, n - 1);
    }
}

/// A rule that applies once records a call once.
pub proof fn lemma_recorded_once(
    rules: Seq<LimitRule>,
    places: Seq<usize>,
    store: StoreModel,
    ask: Ask,
    n: int,
    p: int,
)
    requires
        places.no_duplicates(),
        0 <= p < n <= places.len(),
        rules[places[p] as int].caps_usage(),
    ensures
        ask_window(rules, places[p], recorded(rules, places, store, ask, n), ask) == ask_window(
            rules,
            places[p],
            store,
            ask,
        ).added(ask.now, ask.used()),
    decreases n,
{
    let place = places[p];
    let key = ask_key(rules, place, ask);
    if p == n - 1 {
        assert forall|q: int| 0 <= q < n - 1 implies ask_key(rules, #[trigger] places[q], ask)
            != key by {
            lemma_other_key(rules, places[q], place, ask);
        }
        super::decisions::a_call_counts_under_its_own_keys_only(
            rules,
            places,
            store,
            ask,
            n - 1,
            key,
        );
    } else {
        lemma_recorded_once(rules, places, store, ask, n - 1, p);
        lemma_other_key(rules, places[n - 1], place, ask);
    }
}

pub proof fn lemma_other_key(rules: Seq<LimitRule>, p: usize, q: usize, ask: Ask)
    requires
        p != q,
    ensures
        ask_key(rules, p, ask) != ask_key(rules, q, ask),
{
    super::keys::rules_do_not_share_keys(
        p as nat,
        rules[p as int].scope,
        ask.tenant,
        ask.user,
        q as nat,
        rules[q as int].scope,
        ask.tenant,
        ask.user,
    );
}

/// Once an admitted call is recorded, what every applicable rule counts is still within
/// every one of its caps, up to the slack of comparisons: provided that no rule applies
/// twice, that what is recorded counts in full at once, and that nothing saturates.
pub proof fn an_admitted_call_keeps_every_cap(
    rules: Seq<LimitRule>,
    places: Seq<usize>,
    store: StoreModel,
    ask: Ask,
    p: int,
    dim: usize,
)
    requires
        store.wf(),
        places.no_duplicates(),
        0 <= p < places.len(),
        examined(rules, places, store, ask, places.len() as int).worst is None,
        counts_in_full(ask_window(rules, places[p], store, ask), ask.now, ask.now),
        room_for(ask_window(rules, places[p], store, ask), ask.used(), Usage::none()),
        cap_along(rules[places[p] as int], dim) is Some,
    ensures
        ask_window(
            rules,
            places[p],
            recorded(
                rules,
                places,
                examined(rules, places, store, ask, places.len() as int).store,
                ask,
                places.len() as int,
            ),
            ask,
        ).totals(ask.now).along(dim) <= cap_along(rules[places[p] as int], dim)->0 + SLACK,
{
    let n = places.len() as int;
    let rule = rules[places[p] as int];
    let window = ask_window(rules, places[p], store, ask);
    let looked = examined(rules, places, store, ask, n).store;
    super::decisions::a_call_must_clear_every_rule(rules, places, store, ask);
    assert(!refuses(rules, places[p], store, ask));
    super::decisions::lemma_reading(rules, places, store, ask, n, places[p], ask);
    lemma_recorded_once(rules, places, looked, ask, n, p);
    let after = window.added(ask.now, ask.used());
    super::windows::recording_keeps_windows_well_formed(window, ask.now, ask.used());
    assert(super::waiting::weight(window, dim) + super::events::size(
        ask.used().along(dim) as int,
    ) + super::events::size(Usage::none().along(dim) as int) <= i128::MAX);
    super::counting::what_is_recorded_counts_once(window, ask.now, ask.used(), ask.now, dim);
    super::waiting::lemma_totals(after, ask.now, dim);
    super::waiting::lemma_totals(window, ask.now, dim);
}

/// The headroom in one dimension.
pub open spec fn room_along(room: Headroom, dim: usize) -> Option<i128> {
    if dim == TOKENS {
        room.tokens
    } else if dim == REQUESTS {
        room.requests
    } else {
        room.cost
    }
}

/// Looking windows up for a survey does not change what any rule reads.
pub proof fn lemma_survey_reading(
    rules: Seq<LimitRule>,
    places: Seq<usize>,
    store: StoreModel,
    ask: Ask,
    n: int,
    place: usize,
    other: Ask,
)
    ensures
        ask_window(rules, place, surveyed(rules, places, store, ask, n).store, other)
            == ask_window(rules, place, store, other),
    decreases n,
{
    if n > 0 {
        lemma_survey_reading(rules, places, store, ask, n - 1, place, other);
        let looked = places[n - 1];
        if looked != place {
            super::keys::rules_do_not_share_keys(
                looked as nat,
                rules[looked as int].scope,
                ask.tenant,
                ask.user,
                place as nat,
                rules[place as int].scope,
                other.tenant,
                other.user,
            );
        }
    }
}

/// What a rule leaves in one dimension.
pub open spec fn left_by(
    rules: Seq<LimitRule>,
    place: usize,
    store: StoreModel,
    ask: Ask,
    dim: usize,
) -> int
    recommends
        cap_along(rules[place as int], dim) is Some,
{
    sat(
        cap_along(rules[place as int], dim)->0 - ask_window(rules, place, store, ask).totals(
            ask.now,
        ).along(dim),
    )
}

/// The headroom in a dimension is the least that any applicable rule leaves in it, and
/// there is one if and only if some applicable rule caps it.
pub proof fn headroom_is_the_least_that_is_left(
    rules: Seq<LimitRule>,
    places: Seq<usize>,
    store: StoreModel,
    ask: Ask,
    n: int,
    dim: usize,
)
    requires
        0 <= n <= places.len(),
    ensures
        match room_along(surveyed(rules, places, store, ask, n).room, dim) {
            Some(room) => {
                &&& forall|p: int|
                    0 <= p < n && cap_along(rules[(#[trigger] places[p]) as int], dim) is Some
                        ==> room <= left_by(rules, places[p], store, ask, dim)
                &&& exists|p: int|
                    0 <= p < n && cap_along(rules[(#[trigger] places[p]) as int], dim) is Some
                        && room == left_by(rules, places[p], store, ask, dim)
            },
            None => forall|p: int|
                0 <= p < n ==> cap_along(rules[(#[trigger] places[p]) as int], dim) is None,
        },
    decreases n,
{
    if n > 0 {
        headroom_is_the_least_that_is_left(rules, places, store, ask, n - 1, dim);
        let place = places[n - 1];
        lemma_survey_reading(rules, places, store, ask, n - 1, place, ask);
        let before = room_along(surveyed(rules, places, store, ask, n - 1).room, dim);
        let after = room_along(surveyed(rules, places, store, ask, n).room, dim);
        let used = ask_window(rules, place, store, ask).totals(ask.now).along(dim);
        assert(after == tightened(before, cap_along(rules[place as int], dim), used));
        if after is Some && after != before {
            assert(after->0 == left_by(rules, places[n - 1], store, ask, dim));
        }
        if after is Some && after == before && before is Some {
            let p = choose|p: int|
                0 <= p < n - 1 && cap_along(rules[(#[trigger] places[p]) as int], dim) is Some
                    && before->0 == left_by(rules, places[p], store, ask, dim);
            assert(cap_along(rules[places[p] as int], dim) is Some);
        }
    }
}

/// The headroom that is told is enough: a call that stays within it, and asks for
/// something in every dimension that is capped, is admitted at that time.
pub proof fn a_call_within_the_headroom_is_admitted(
    rules: Seq<LimitRule>,
    places: Seq<usize>,
    store: StoreModel,
    ask: Ask,
    next: Ask,
)
    requires
        super::decisions::same_caller(ask, next),
        ask.now == next.now,
        ({
            let told = surveyed(rules, places, store, ask, places.len() as int).room.named();
            &&& told.contains_key("tokens"@) ==> 0 < next.tokens <= told["tokens"@]
            &&& told.contains_key("requests"@) ==> UNIT <= told["requests"@]
            &&& told.contains_key("cost"@) ==> 0 < next.cost <= told["cost"@]
        }),
    ensures
        examined(
            rules,
            places,
            surveyed(rules, places, store, ask, places.len() as int).store,
            next,
            places.len() as int,
        ).worst is None,
{
    let n = places.len() as int;
    let survey = surveyed(rules, places, store, ask, n);
    lemma_named(survey.room);
    headroom_is_the_least_that_is_left(rules, places, store, ask, n, TOKENS);
    headroom_is_the_least_that_is_left(rules, places, store, ask, n, REQUESTS);
    headroom_is_the_least_that_is_left(rules, places, store, ask, n, COST);
    super::decisions::a_call_must_clear_every_rule(rules, places, survey.store, next);
    assert forall|p: int| 0 <= p < n implies !refuses(
        rules,
        #[trigger] places[p],
        survey.store,
        next,
    ) by {
        let rule = rules[places[p] as int];
        lemma_survey_reading(rules, places, store, ask, n, places[p], next);
        assert(ask_window(rules, places[p], store, ask) == ask_window(
            rules,
            places[p],
            store,
            next,
        ));
        assert(cap_along(rule, TOKENS) == rule.max_tokens);
        assert(cap_along(rule, REQUESTS) == rule.max_requests);
        assert(cap_along(rule, COST) == rule.max_cost);
    }
}

/// The headroom by name is the headroom by dimension, never below zero.
pub proof fn lemma_named(room: Headroom)
    ensures
        room.named().contains_key("tokens"@) <==> room.tokens is Some,
        room.named().contains_key("requests"@) <==> room.requests is Some,
        room.named().contains_key("cost"@) <==> room.cost is Some,
        room.tokens is Some ==> room.named()["tokens"@] == if room.tokens->0 < 0 {
            0
        } else {
            room.tokens->0
        },
        room.requests is Some ==> room.named()["requests"@] == if room.requests->0 < 0 {
            0
        } else {
            room.requests->0
        },
        room.cost is Some ==> room.named()["cost"@] == if room.cost->0 < 0 {
            0
        } else {
            room.cost->0
        },
{
    reveal_strlit("tokens");
    reveal_strlit("requests");
    reveal_strlit("cost");
    assert("tokens"@.len() == 6);
    assert("requests"@.len() == 8);
    assert("cost"@.len() == 4);
}

/// The headroom that is told is all there is: a call that asks for more than it in some
/// dimension, by more than the slack, is refused at that time.
pub proof fn a_call_beyond_the_headroom_is_refused(
    rules: Seq<LimitRule>,
    places: Seq<usize>,
    store: StoreModel,
    ask: Ask,
    next: Ask,
)
    requires
        super::decisions::same_caller(ask, next),
        ask.now == next.now,
        forall|p: int, dim: usize|
            0 <= p < places.len() && #[trigger] cap_along(
                rules[(#[trigger] places[p]) as int],
                dim,
            ) is Some ==> cap_along(rules[places[p] as int], dim)->0 + SLACK < i128::MAX,
        ({
            let told = surveyed(rules, places, store, ask, places.len() as int).room.named();
            ||| told.contains_key("tokens"@) && next.tokens > told["tokens"@] + SLACK
            ||| told.contains_key("requests"@) && UNIT > told["requests"@] + SLACK
            ||| told.contains_key("cost"@) && next.cost > told["cost"@] + SLACK
        }),
    ensures
        examined(
            rules,
            places,
            surveyed(rules, places, store, ask, places.len() as int).store,
            next,
            places.len() as int,
        ).worst is Some,
{
    let n = places.len() as int;
    let survey = surveyed(rules, places, store, ask, n);
    let told = survey.room.named();
    lemma_named(survey.room);
    super::decisions::a_call_must_clear_every_rule(rules, places, survey.store, next);
    let dim = if told.contains_key("tokens"@) && next.tokens > told["tokens"@] + SLACK {
        TOKENS
    } else if told.contains_key("requests"@) && UNIT > told["requests"@] + SLACK {
        REQUESTS
    } else {
        COST
    };
    headroom_is_the_least_that_is_left(rules, places, store, ask, n, dim);
    let room = room_along(survey.room, dim)->0;
    let p = choose|p: int|
        0 <= p < n && cap_along(rules[(#[trigger] places[p]) as int], dim) is Some && room
            == left_by(rules, places[p], store, ask, dim);
    lemma_survey_reading(rules, places, store, ask, n, places[p], next);
    assert(ask_window(rules, places[p], store, ask) == ask_window(
        rules,
        places[p],
        store,
        next,
    ));
    assert(cap_along(rules[places[p] as int], dim)->0 + SLACK < i128::MAX);
    assert(refuses(rules, places[p], survey.store, next));
}

} // verus!
