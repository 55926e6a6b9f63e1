//! The limiter itself: multi-window admission, reserve/commit/refund token
//! accounting, concurrency slots, graceful fallback, and back-pressure headers.

use crate::admission::{
    applicable, ask_touched, ask_window, examined, find_breaches, longer_wait, places_among,
    recorded, recorded_entries, reconciled, render_key, rule_wait, slot_free, slot_key, slot_keys,
    slots_held, slots_returned, surveyed, tighten, with_room, Ask, Breaches, Denial, Findings,
    Headroom, Survey,
};
use crate::clock::{Clock, WallClock};
use crate::fixed::{minus, plus, sat, UNIT};
use crate::listing::Listing;
use crate::rules::{LimitRule, Scope};
use crate::store::{InMemoryStore, Store, StoreModel};
use crate::table::Table;
use crate::text::same_text;
use crate::window::{usage_of, Handle, Usage, COST, REQUESTS, TOKENS};
use vstd::prelude::*;
use vstd::string::*;

verus! {

/// The result of an admission check.
#[derive(Debug, Clone)]
pub struct Decision {
    /// Whether the call is admitted.
    pub allowed: bool,
    /// The model the decision is about.
    pub model: String,
    /// Seconds to wait before retrying (only meaningful on denial).
    pub retry_after: i128,
    /// The rule that tripped, when denied.
    pub tripped_rule: Option<LimitRule>,
    /// The scope of the tripped rule, when denied.
    pub scope: Option<Scope>,
    /// Remaining headroom per dimension, when allowed.
    pub remaining: Listing<i128>,
    /// A cheaper model to fall back to, when configured and denied.
    pub suggested_fallback: Option<String>,
}

/// Optional arguments for an admission call, built fluently.
#[derive(Debug, Clone)]
pub struct Acquire {
    /// Token estimate for the call.
    pub tokens: i128,
    /// Dollar-cost estimate for the call.
    pub cost: i128,
    /// Tenant the call belongs to.
    pub tenant: String,
    /// User the call belongs to (within a tenant).
    pub user: String,
    /// Explicit timestamp; falls back to the limiter clock when `None`.
    pub now: Option<i64>,
}

impl Acquire {
    /// A fresh set of default arguments.
    pub fn new() -> (a: Acquire)
        ensures
            a.tokens == 0,
            a.cost == 0,
            a.tenant@ == Seq::<char>::empty(),
            a.user@ == Seq::<char>::empty(),
            a.now is None,
    {
        Acquire { tokens: 0, cost: 0, tenant: String::new(), user: String::new(), now: None }
    }

    /// Sets the token estimate.
    pub fn tokens(self, v: i128) -> (a: Acquire)
        ensures
            a == (Acquire { tokens: v, ..self }),
    {
        Acquire { tokens: v, ..self }
    }

    /// Sets the cost estimate.
    pub fn cost(self, v: i128) -> (a: Acquire)
        ensures
            a == (Acquire { cost: v, ..self }),
    {
        Acquire { cost: v, ..self }
    }

    /// Scopes the call to a tenant.
    pub fn tenant(self, v: &str) -> (a: Acquire)
        ensures
            a.tenant@ == v@,
            a == (Acquire { tenant: a.tenant, ..self }),
    {
        Acquire { tenant: v.to_owned(), ..self }
    }

    /// Scopes the call to a user.
    pub fn user(self, v: &str) -> (a: Acquire)
        ensures
            a.user@ == v@,
            a == (Acquire { user: a.user, ..self }),
    {
        Acquire { user: v.to_owned(), ..self }
    }

    /// Pins the call to an explicit timestamp.
    pub fn now(self, v: i64) -> (a: Acquire)
        ensures
            a == (Acquire { now: Some(v), ..self }),
    {
        Acquire { now: Some(v), ..self }
    }

    /// The call at a given time, as a mathematical value.
    pub open spec fn at(&self, now: i64) -> Ask {
        Ask {
            tokens: self.tokens,
            cost: self.cost,
            tenant: self.tenant@,
            user: self.user@,
            now,
        }
    }
}

impl Default for Acquire {
    fn default() -> (a: Acquire)
        ensures
            a.tokens == 0,
            a.cost == 0,
            a.tenant@ == Seq::<char>::empty(),
            a.user@ == Seq::<char>::empty(),
            a.now is None,
    {
        Acquire::new()
    }
}

/// The entries recorded for a reservation, each with the key of its window. Only the
/// limiter makes and changes them.
#[derive(Debug)]
pub struct Entries {
    list: Vec<(String, Handle)>,
}

impl View for Entries {
    type V = Seq<(Seq<char>, Handle)>;

    closed spec fn view(&self) -> Seq<(Seq<char>, Handle)> {
        entries_of(self.list@)
    }
}

/// A reservation recorded up front, reconciled later with `commit` or released
/// with `refund`.
#[derive(Debug)]
pub struct Reservation {
    /// The model the reservation is for.
    pub model: String,
    /// The currently reserved token count.
    pub tokens: i128,
    /// The currently reserved cost.
    pub cost: i128,
    /// Whether the reservation has been finalised.
    pub committed: bool,
    /// The entries recorded for it.
    pub handles: Entries,
}

/// The entries that a list of handles names, each with its key.
spec fn entries_of(handles: Seq<(String, Handle)>) -> Seq<(Seq<char>, Handle)> {
    handles.map_values(|handle: (String, Handle)| (handle.0@, handle.1))
}

impl Reservation {
    /// The entries that the reservation made, each with its key.
    pub open spec fn entries(&self) -> Seq<(Seq<char>, Handle)> {
        self.handles@
    }
}

/// The keys under which a slot counts as in flight. Only the limiter makes and changes
/// them.
#[derive(Debug)]
pub struct SlotKeys {
    list: Vec<String>,
}

impl View for SlotKeys {
    type V = Seq<Seq<char>>;

    closed spec fn view(&self) -> Seq<Seq<char>> {
        texts_of(self.list@)
    }
}

/// A held set of concurrency slots. Return them with [`Limiter::release_slot`].
#[derive(Debug)]
pub struct Slot {
    /// Whether all required slots were acquired.
    pub ok: bool,
    /// The rule that was full, when `ok` is false.
    pub tripped_rule: Option<LimitRule>,
    /// The keys under which the slot counts as in flight.
    pub keys: SlotKeys,
}

/// The texts of a list of strings.
spec fn texts_of(strings: Seq<String>) -> Seq<Seq<char>> {
    strings.map_values(|string: String| string@)
}

impl Slot {
    /// The keys under which the slot counts as in flight.
    pub open spec fn held(&self) -> Seq<Seq<char>> {
        self.keys@
    }
}

/// By how much an estimate has to change to become an actual figure; not at all when
/// there is none.
pub open spec fn change_to(estimate: i128, actual: Option<i128>) -> i128 {
    match actual {
        Some(actual) => sat(actual - estimate) as i128,
        None => 0,
    }
}

/// A fallback, as a view of a model name, is what is configured for a model.
pub open spec fn fallback_is(
    fallbacks: Map<Seq<char>, String>,
    model: Seq<char>,
    fallback: Option<String>,
) -> bool {
    match fallback {
        Some(name) => fallbacks.contains_key(model) && name@ == fallbacks[model]@,
        None => !fallbacks.contains_key(model),
    }
}

/// Evaluates limits before a call, reserves/reconciles tokens, caps
/// concurrency, and emits standard back-pressure signals.
pub struct Limiter<S = InMemoryStore, C = WallClock> {
    rules: Vec<LimitRule>,
    store: S,
    clock: C,
    fallbacks: Listing<String>,
    by_model: Table<Vec<usize>>,
}

impl<S: Store, C: Clock> Limiter<S, C> {
    /// The rules in the order in which they were given.
    pub closed spec fn rule_list(&self) -> Seq<LimitRule> {
        self.rules@
    }

    /// The store behind the limiter.
    pub closed spec fn backing(&self) -> S {
        self.store
    }

    /// The source of time.
    pub closed spec fn time_source(&self) -> C {
        self.clock
    }

    /// The configured fallbacks.
    pub closed spec fn fallback_map(&self) -> Map<Seq<char>, String> {
        self.fallbacks@
    }

    /// The index of rules by model name is right.
    closed spec fn indexed(&self) -> bool {
        &&& self.by_model.wf()
        &&& forall|name: Seq<char>| #[trigger]
            self.by_model@.contains_key(name) ==> self.by_model@[name]@ == places_among(
                self.rules@,
                name,
                self.rules@.len() as int,
            )
        &&& forall|name: Seq<char>|
            !(#[trigger] self.by_model@.contains_key(name)) ==> places_among(
                self.rules@,
                name,
                self.rules@.len() as int,
            ).len() == 0
    }

    pub closed spec fn wf(&self) -> bool {
        &&& self.indexed()
        &&& self.fallbacks.wf()
        &&& self.store.wf()
        &&& S::obeys_model() ==> self.store.model().wf()
    }

    /// Everything but the store is the same.
    pub open spec fn same_setup(&self, other: Limiter<S, C>) -> bool {
        &&& self.rule_list() == other.rule_list()
        &&& self.fallback_map() == other.fallback_map()
        &&& self.time_source() == other.time_source()
    }

    /// The places of the rules that apply to a model.
    pub open spec fn applies(&self, model: Seq<char>) -> Seq<usize> {
        applicable(self.rule_list(), model)
    }

    /// Whether `now` is the time that a call is taken at: the one it pins, or else a
    /// reading of the limiter's clock.
    pub open spec fn taken_at(&self, pinned: Option<i64>, now: i64) -> bool {
        match pinned {
            Some(time) => now == time,
            None => call_ensures(C::now, (&self.time_source(),), now),
        }
    }

    /// The part of a decision that holds whatever the store answered: a denial names an
    /// applicable rule that caps usage, and a call that no such rule applies to is
    /// admitted.
    pub open spec fn sound(&self, model: Seq<char>, decision: Decision) -> bool {
        let rules = self.rule_list();
        let places = self.applies(model);
        &&& decision.model@ == model
        &&& decision.remaining.wf()
        &&& decision.allowed ==> {
            &&& decision.retry_after == 0
            &&& decision.tripped_rule is None
            &&& decision.scope is None
            &&& decision.suggested_fallback is None
        }
        &&& !decision.allowed ==> {
            &&& decision.retry_after >= 0
            &&& decision.tripped_rule is Some
            &&& exists|p: int|
                0 <= p < places.len() && rules[(#[trigger] places[p]) as int].caps_usage()
                    && decision.tripped_rule == Some(rules[places[p] as int])
            &&& decision.scope == Some(decision.tripped_rule->0.scope)
            &&& decision.remaining@ == Map::<Seq<char>, i128>::empty()
            &&& fallback_is(self.fallback_map(), model, decision.suggested_fallback)
        }
    }

    /// What examining a call finds, for a store that behaves as its model.
    pub open spec fn findings(&self, model: Seq<char>, ask: Ask) -> Findings {
        let places = self.applies(model);
        examined(
            self.rule_list(),
            places,
            self.backing().model(),
            ask,
            places.len() as int,
        )
    }

    /// What surveying the headroom finds once a call was admitted, and recorded if that
    /// was asked for.
    pub open spec fn survey(&self, model: Seq<char>, ask: Ask, record: bool) -> Survey {
        let places = self.applies(model);
        let n = places.len() as int;
        let found = self.findings(model, ask).store;
        surveyed(
            self.rule_list(),
            places,
            if record {
                recorded(self.rule_list(), places, found, ask, n)
            } else {
                found
            },
            ask,
            n,
        )
    }

    /// The store after a decision on a call. The examination looks every window up that
    /// a rule counts the call in. A denial records nothing; an admission records the
    /// call under every rule that caps usage, if that was asked for.
    pub open spec fn store_after(&self, model: Seq<char>, ask: Ask, record: bool) -> StoreModel {
        if self.findings(model, ask).worst is Some {
            self.findings(model, ask).store
        } else {
            self.survey(model, ask, record).store
        }
    }

    /// The decision on a call: it is denied if and only if it breaches an applicable
    /// rule. A denial reports the first of the rules that ask for the longest wait; an
    /// admission reports the headroom.
    pub open spec fn answers(
        &self,
        model: Seq<char>,
        ask: Ask,
        record: bool,
        decision: Decision,
    ) -> bool {
        match self.findings(model, ask).worst {
            Some(worst) => {
                &&& !decision.allowed
                &&& decision.retry_after == worst.wait
                &&& decision.tripped_rule == Some(self.rule_list()[worst.place as int])
            },
            None => {
                &&& decision.allowed
                &&& decision.remaining@ == self.survey(model, ask, record).room.named()
            },
        }
    }

    /// A decision on a call, and what making it did to the limiter.
    pub open spec fn decided(
        &self,
        after: Limiter<S, C>,
        model: Seq<char>,
        ask: Ask,
        record: bool,
        decision: Decision,
    ) -> bool {
        &&& after.wf()
        &&& after.same_setup(*self)
        &&& self.sound(model, decision)
        &&& S::obeys_model() ==> {
            &&& self.answers(model, ask, record, decision)
            &&& after.backing().model() == self.store_after(model, ask, record)
        }
    }

    /// A reservation, the decision it rests on, and what making it did to the limiter. A
    /// denied call gets none; an admitted one is recorded, and the reservation holds the
    /// estimates and the entries made.
    pub open spec fn reserved(
        &self,
        after: Limiter<S, C>,
        model: Seq<char>,
        ask: Ask,
        decision: Decision,
        reservation: Option<Reservation>,
    ) -> bool {
        let rules = self.rule_list();
        let places = self.applies(model);
        let n = places.len() as int;
        let store = self.store_after(model, ask, false);
        &&& after.wf()
        &&& after.same_setup(*self)
        &&& self.sound(model, decision)
        &&& S::obeys_model() ==> self.answers(model, ask, false, decision)
        &&& match reservation {
            Some(reservation) => {
                &&& decision.allowed
                &&& reservation.model@ == model
                &&& reservation.tokens == ask.tokens
                &&& reservation.cost == ask.cost
                &&& !reservation.committed
                &&& S::obeys_model() ==> {
                    &&& reservation.entries() == recorded_entries(rules, places, store, ask, n)
                    &&& after.backing().model() == recorded(rules, places, store, ask, n)
                }
            },
            None => {
                &&& !decision.allowed
                &&& S::obeys_model() ==> after.backing().model() == store
            },
        }
    }

    /// A decision with a fallback, the model chosen, and what making it did to the
    /// limiter: the model itself if it is admitted, else its fallback if there is one and
    /// it is admitted, else the denial of the model.
    pub open spec fn chosen(
        &self,
        between: Limiter<S, C>,
        after: Limiter<S, C>,
        model: Seq<char>,
        ask: Ask,
        again: Ask,
        decision: Decision,
        first: Decision,
        second: Decision,
        choice: Seq<char>,
    ) -> bool {
        &&& self.decided(between, model, ask, true, first)
        &&& if first.allowed || !self.fallback_map().contains_key(model) {
            &&& decision == first
            &&& choice == model
            &&& after == between
        } else {
            let fallback = self.fallback_map()[model]@;
            &&& between.decided(after, fallback, again, true, second)
            &&& decision == if second.allowed {
                second
            } else {
                first
            }
            &&& choice == if second.allowed {
                fallback
            } else {
                model
            }
        }
    }

    /// The part of a slot that holds whatever the store answered: one that was acquired
    /// holds a key for every applicable rule that caps concurrency, and one that was not
    /// holds none and names such a rule.
    pub open spec fn slotted(&self, model: Seq<char>, a: Acquire, slot: Slot) -> bool {
        let rules = self.rule_list();
        let places = self.applies(model);
        if slot.ok {
            &&& slot.tripped_rule is None
            &&& slot.held() == slot_keys(rules, places, a.at(0), places.len() as int)
        } else {
            &&& slot.held() == Seq::<Seq<char>>::empty()
            &&& exists|p: int|
                0 <= p < places.len() && rules[(#[trigger] places[p]) as int].max_concurrent is Some
                    && slot.tripped_rule == Some(rules[places[p] as int])
        }
    }

    /// The places of the rules that apply to a model.
    fn applicable(&self, model: &str) -> (places: Vec<usize>)
        requires
            self.wf(),
        ensures
            places@ == self.applies(model@),
    {
        let mut out: Vec<usize> = Vec::new();
        if let Some(places) = self.by_model.get(model) {
            out = copy_places(places);
        }
        if !same_text(model, "*") {
            if let Some(places) = self.by_model.get("*") {
                let mut rest: Vec<usize> = copy_places(places);
                out.append(&mut rest);
            }
        }
        assert(out@ =~= self.applies(model@));
        out
    }

    /// The longer of a wait and the time until an excess under a key ages out.
    fn lengthen(
        &mut self,
        wait: i128,
        key: &str,
        place: usize,
        now: i64,
        over: Option<i128>,
        dim: usize,
    ) -> (longer: i128)
        requires
            old(self).wf(),
            place < old(self).rule_list().len(),
            dim < 3,
        ensures
            final(self).wf(),
            final(self).same_setup(*old(self)),
            longer >= wait,
            S::obeys_model() ==> {
                let rule = old(self).rule_list()[place as int];
                let width = rule.width() as i64;
                let window = old(self).backing().model().window_for(
                    key@,
                    rule.window_seconds,
                    width,
                );
                &&& longer == longer_wait(wait as int, window, now, over, dim)
                &&& final(self).backing().model() == if over is Some {
                    old(self).backing().model().touched(key@, rule.window_seconds, width)
                } else {
                    old(self).backing().model()
                }
            },
    {
        match over {
            Some(over) => {
                let window: i64 = self.rules[place].window_seconds;
                let width: i64 = self.rules[place].bucket_seconds();
                let time: i128 = self.store.time_to_free(key, now, window, width, over, dim);
                if time > wait {
                    time
                } else {
                    wait
                }
            },
            None => wait,
        }
    }

    /// How long a call has to wait for one rule that caps usage, if it breaches it.
    fn examine_rule(&mut self, place: usize, a: &Acquire, now: i64) -> (wait: Option<i128>)
        requires
            old(self).wf(),
            place < old(self).rule_list().len(),
        ensures
            final(self).wf(),
            final(self).same_setup(*old(self)),
            wait is Some ==> wait->0 >= 0,
            S::obeys_model() ==> {
                let rules = old(self).rule_list();
                let store = old(self).backing().model();
                &&& final(self).backing().model() == ask_touched(rules, place, store, a.at(now))
                &&& match rule_wait(
                    &rules[place as int],
                    ask_window(rules, place, store, a.at(now)),
                    a.at(now),
                ) {
                    Some(time) => wait is Some && wait->0 == time,
                    None => wait is None,
                }
            },
    {
        let ghost rules = self.rule_list();
        let ghost store = self.backing().model();
        let key: String = render_key(
            place,
            self.rules[place].scope,
            a.tenant.as_str(),
            a.user.as_str(),
        );
        let window: i64 = self.rules[place].window_seconds;
        let width: i64 = self.rules[place].bucket_seconds();
        let totals: (i128, i128, i128) = self.store.snapshot(key.as_str(), now, window, width);
        proof {
            crate::store::lemma_touched_again(store, key@, window, width);
        }
        let found: Breaches = find_breaches(&self.rules[place], totals, a.tokens, a.cost);
        if found.tokens.is_none() && found.requests.is_none() && found.cost.is_none() {
            return None;
        }
        let wait: i128 = self.lengthen(0, key.as_str(), place, now, found.tokens, TOKENS);
        let wait: i128 = self.lengthen(wait, key.as_str(), place, now, found.requests, REQUESTS);
        let wait: i128 = self.lengthen(wait, key.as_str(), place, now, found.cost, COST);
        Some(wait)
    }

    /// Examines a call against every applicable rule: the first of the breached rules
    /// that ask for the longest wait, with that wait.
    fn examine(&mut self, places: &Vec<usize>, a: &Acquire, now: i64) -> (worst: Option<(
        i128,
        usize,
    )>)
        requires
            old(self).wf(),
            forall|p: int|
                0 <= p < places.len() ==> (#[trigger] places@[p]) < old(self).rule_list().len(),
        ensures
            final(self).wf(),
            final(self).same_setup(*old(self)),
            match worst {
                Some((wait, place)) => {
                    &&& wait >= 0
                    &&& place < old(self).rule_list().len()
                    &&& exists|p: int|
                        0 <= p < places.len() && (#[trigger] places@[p]) == place
                            && old(self).rule_list()[place as int].caps_usage()
                },
                None => true,
            },
            S::obeys_model() ==> {
                let found = examined(
                    old(self).rule_list(),
                    places@,
                    old(self).backing().model(),
                    a.at(now),
                    places.len() as int,
                );
                &&& final(self).backing().model() == found.store
                &&& match worst {
                    Some((wait, place)) => found.worst == Some(
                        Denial { wait: wait as int, place },
                    ),
                    None => found.worst is None,
                }
            },
    {
        let mut worst_wait: i128 = -1;
        let mut worst_place: usize = 0;
        let mut i: usize = 0;
        while i < places.len()
            invariant
                0 <= i <= places.len(),
                forall|p: int|
                    0 <= p < places.len() ==> (#[trigger] places@[p]) < old(
                        self,
                    ).rule_list().len(),
                self.wf(),
                self.same_setup(*old(self)),
                worst_wait >= -1,
                worst_wait >= 0 ==> exists|p: int|
                    0 <= p < i && (#[trigger] places@[p]) == worst_place && old(
                        self,
                    ).rule_list()[worst_place as int].caps_usage(),
                S::obeys_model() ==> {
                    let found = examined(
                        old(self).rule_list(),
                        places@,
                        old(self).backing().model(),
                        a.at(now),
                        i as int,
                    );
                    &&& self.backing().model() == found.store
                    &&& if worst_wait >= 0 {
                        found.worst == Some(
                            Denial { wait: worst_wait as int, place: worst_place },
                        )
                    } else {
                        found.worst is None
                    }
                },
            decreases places.len() - i,
        {
            let place: usize = places[i];
            if self.rules[place].has_usage_limit() {
                if let Some(wait) = self.examine_rule(place, a, now) {
                    if wait > worst_wait {
                        worst_wait = wait;
                        worst_place = place;
                    }
                }
            }
            i += 1;
        }
        if worst_wait >= 0 {
            Some((worst_wait, worst_place))
        } else {
            None
        }
    }

    /// Records a call under every applicable rule that caps usage, and returns the
    /// entries this made.
    fn record(&mut self, places: &Vec<usize>, a: &Acquire, now: i64) -> (handles: Vec<(
        String,
        Handle,
    )>)
        requires
            old(self).wf(),
            forall|p: int|
                0 <= p < places.len() ==> (#[trigger] places@[p]) < old(self).rule_list().len(),
        ensures
            final(self).wf(),
            final(self).same_setup(*old(self)),
            S::obeys_model() ==> {
                &&& final(self).backing().model() == recorded(
                    old(self).rule_list(),
                    places@,
                    old(self).backing().model(),
                    a.at(now),
                    places.len() as int,
                )
                &&& entries_of(handles@) == recorded_entries(
                    old(self).rule_list(),
                    places@,
                    old(self).backing().model(),
                    a.at(now),
                    places.len() as int,
                )
            },
    {
        let mut handles: Vec<(String, Handle)> = Vec::new();
        let mut i: usize = 0;
        assert(entries_of(handles@) =~= Seq::<(Seq<char>, Handle)>::empty());
        while i < places.len()
            invariant
                0 <= i <= places.len(),
                forall|p: int|
                    0 <= p < places.len() ==> (#[trigger] places@[p]) < old(
                        self,
                    ).rule_list().len(),
                self.wf(),
                self.same_setup(*old(self)),
                S::obeys_model() ==> {
                    &&& self.backing().model() == recorded(
                        old(self).rule_list(),
                        places@,
                        old(self).backing().model(),
                        a.at(now),
                        i as int,
                    )
                    &&& entries_of(handles@) == recorded_entries(
                        old(self).rule_list(),
                        places@,
                        old(self).backing().model(),
                        a.at(now),
                        i as int,
                    )
                },
            decreases places.len() - i,
        {
            let place: usize = places[i];
            if self.rules[place].has_usage_limit() {
                let key: String = render_key(
                    place,
                    self.rules[place].scope,
                    a.tenant.as_str(),
                    a.user.as_str(),
                );
                let window: i64 = self.rules[place].window_seconds;
                let width: i64 = self.rules[place].bucket_seconds();
                let amounts: [i128; 3] = [a.tokens, UNIT, a.cost];
                assert(usage_of(amounts) == a.at(now).used());
                let handle: Handle = self.store.add(key.as_str(), now, window, width, amounts);
                let ghost before = handles@;
                handles.push((key, handle));
                assert(entries_of(handles@) =~= entries_of(before).push((key@, handle)));
            }
            i += 1;
        }
        handles
    }

    /// The headroom that the applicable rules leave, by dimension.
    fn remaining(&mut self, places: &Vec<usize>, a: &Acquire, now: i64) -> (rooms: Listing<i128>)
        requires
            old(self).wf(),
            forall|p: int|
                0 <= p < places.len() ==> (#[trigger] places@[p]) < old(self).rule_list().len(),
        ensures
            final(self).wf(),
            final(self).same_setup(*old(self)),
            rooms.wf(),
            S::obeys_model() ==> {
                let survey = surveyed(
                    old(self).rule_list(),
                    places@,
                    old(self).backing().model(),
                    a.at(now),
                    places.len() as int,
                );
                &&& final(self).backing().model() == survey.store
                &&& rooms@ == survey.room.named()
            },
    {
        let mut tokens: Option<i128> = None;
        let mut requests: Option<i128> = None;
        let mut cost: Option<i128> = None;
        let mut i: usize = 0;
        while i < places.len()
            invariant
                0 <= i <= places.len(),
                forall|p: int|
                    0 <= p < places.len() ==> (#[trigger] places@[p]) < old(
                        self,
                    ).rule_list().len(),
                self.wf(),
                self.same_setup(*old(self)),
                S::obeys_model() ==> {
                    let survey = surveyed(
                        old(self).rule_list(),
                        places@,
                        old(self).backing().model(),
                        a.at(now),
                        i as int,
                    );
                    &&& self.backing().model() == survey.store
                    &&& survey.room == (Headroom { tokens, requests, cost })
                },
            decreases places.len() - i,
        {
            let place: usize = places[i];
            let key: String = render_key(
                place,
                self.rules[place].scope,
                a.tenant.as_str(),
                a.user.as_str(),
            );
            let window: i64 = self.rules[place].window_seconds;
            let width: i64 = self.rules[place].bucket_seconds();
            let totals: (i128, i128, i128) = self.store.snapshot(
                key.as_str(),
                now,
                window,
                width,
            );
            tokens = tighten(tokens, self.rules[place].max_tokens, totals.0);
            requests = tighten(requests, self.rules[place].max_requests, totals.1);
            cost = tighten(cost, self.rules[place].max_cost, totals.2);
            i += 1;
        }
        let mut rooms: Listing<i128> = Listing::new();
        insert_room(&mut rooms, "tokens", tokens);
        insert_room(&mut rooms, "requests", requests);
        insert_room(&mut rooms, "cost", cost);
        assert(rooms@ == (Headroom { tokens, requests, cost }).named());
        rooms
    }

    /// Decides on a call at a given time and, unless denied, records it if asked to.
    fn decide(&mut self, model: &str, a: &Acquire, now: i64, record: bool) -> (decision: Decision)
        requires
            old(self).wf(),
        ensures
            old(self).decided(*final(self), model@, a.at(now), record, decision),
    {
        let places: Vec<usize> = self.applicable(model);
        proof {
            self.lemma_applies_in_range(model@);
        }
        if let Some((wait, place)) = self.examine(&places, a, now) {
            let rule: LimitRule = self.rules[place].clone();
            let scope: Scope = rule.scope;
            let suggested_fallback: Option<String> = match self.fallbacks.get(model) {
                Some(fallback) => Some(fallback.clone()),
                None => None,
            };
            return Decision {
                allowed: false,
                model: model.to_owned(),
                retry_after: wait,
                tripped_rule: Some(rule),
                scope: Some(scope),
                remaining: Listing::new(),
                suggested_fallback,
            };
        }
        if record {
            let _ = self.record(&places, a, now);
        }
        let remaining: Listing<i128> = self.remaining(&places, a, now);
        Decision {
            allowed: true,
            model: model.to_owned(),
            retry_after: 0,
            tripped_rule: None,
            scope: None,
            remaining,
            suggested_fallback: None,
        }
    }

    /// Plugs in a custom store.
    pub fn with_store<T: Store>(self, store: T) -> (limiter: Limiter<T, C>)
        requires
            self.wf(),
            store.wf(),
            T::obeys_model() ==> store.model().wf(),
        ensures
            limiter.wf(),
            limiter.rule_list() == self.rule_list(),
            limiter.fallback_map() == self.fallback_map(),
            limiter.time_source() == self.time_source(),
            limiter.backing() == store,
    {
        Limiter {
            rules: self.rules,
            store,
            clock: self.clock,
            fallbacks: self.fallbacks,
            by_model: self.by_model,
        }
    }

    /// Overrides the wall clock used when a call passes no explicit time.
    pub fn with_clock<D: Clock>(self, clock: D) -> (limiter: Limiter<S, D>)
        requires
            self.wf(),
        ensures
            limiter.wf(),
            limiter.rule_list() == self.rule_list(),
            limiter.fallback_map() == self.fallback_map(),
            limiter.time_source() == clock,
            limiter.backing() == self.backing(),
    {
        Limiter {
            rules: self.rules,
            store: self.store,
            clock,
            fallbacks: self.fallbacks,
            by_model: self.by_model,
        }
    }

    /// Configures per-model cheaper-model fallbacks for graceful degradation.
    pub fn with_fallbacks(self, fallbacks: Listing<String>) -> (limiter: Limiter<S, C>)
        requires
            self.wf(),
            fallbacks.wf(),
        ensures
            limiter.wf(),
            limiter.rule_list() == self.rule_list(),
            limiter.fallback_map() == fallbacks@,
            limiter.time_source() == self.time_source(),
            limiter.backing() == self.backing(),
    {
        Limiter {
            rules: self.rules,
            store: self.store,
            clock: self.clock,
            fallbacks,
            by_model: self.by_model,
        }
    }

    /// The rules this limiter enforces.
    pub fn rules(&self) -> (rules: &[LimitRule])
        ensures
            rules@ == self.rule_list(),
    {
        self.rules.as_slice()
    }

    /// A shared reference to the backing store.
    pub fn store(&self) -> (store: &S)
        requires
            self.wf(),
        ensures
            *store == self.backing(),
            store.wf(),
            S::obeys_model() ==> store.model().wf(),
    {
        &self.store
    }

    /// A mutable reference to the backing store.
    pub fn store_mut(&mut self) -> (store: &mut S)
        requires
            old(self).wf(),
        ensures
            *store == old(self).backing(),
            store.wf(),
            S::obeys_model() ==> store.model().wf(),
            final(self).backing() == *final(store),
            final(self).same_setup(*old(self)),
            final(store).wf() && (S::obeys_model() ==> final(store).model().wf())
                ==> final(self).wf(),
    {
        &mut self.store
    }

    /// The time that a call is taken at.
    fn resolve_now(&self, pinned: Option<i64>) -> (now: i64)
        ensures
            self.taken_at(pinned, now),
    {
        match pinned {
            Some(now) => now,
            None => self.clock.now(),
        }
    }

    /// Evaluates a call against every applicable rule and, unless denied, records
    /// it.
    pub fn try_acquire(&mut self, model: &str, a: &Acquire) -> (decision: Decision)
        requires
            old(self).wf(),
        ensures
            exists|now: i64|
                old(self).taken_at(a.now, now) && old(self).decided(
                    *final(self),
                    model@,
                    #[trigger] a.at(now),
                    true,
                    decision,
                ),
    {
        let now: i64 = self.resolve_now(a.now);
        let decision: Decision = self.decide(model, a, now, true);
        assert(old(self).decided(*self, model@, a.at(now), true, decision));
        decision
    }

    /// Records the estimate up front and returns a reservation to reconcile later.
    /// A denied call returns the denied decision and no reservation.
    pub fn reserve(&mut self, model: &str, a: &Acquire) -> (result: (
        Decision,
        Option<Reservation>,
    ))
        requires
            old(self).wf(),
        ensures
            exists|now: i64|
                old(self).taken_at(a.now, now) && old(self).reserved(
                    *final(self),
                    model@,
                    #[trigger] a.at(now),
                    result.0,
                    result.1,
                ),
    {
        let now: i64 = self.resolve_now(a.now);
        let decision: Decision = self.decide(model, a, now, false);
        if !decision.allowed {
            let result: (Decision, Option<Reservation>) = (decision, None);
            assert(old(self).reserved(*self, model@, a.at(now), result.0, result.1));
            return result;
        }
        let places: Vec<usize> = self.applicable(model);
        proof {
            self.lemma_applies_in_range(model@);
        }
        let handles: Vec<(String, Handle)> = self.record(&places, a, now);
        let reservation: Reservation = Reservation {
            model: model.to_owned(),
            tokens: a.tokens,
            cost: a.cost,
            committed: false,
            handles: Entries { list: handles },
        };
        let result: (Decision, Option<Reservation>) = (decision, Some(reservation));
        assert(old(self).reserved(*self, model@, a.at(now), result.0, result.1));
        result
    }

    /// Changes every entry of a reservation by the same amounts.
    fn adjust_all(&mut self, handles: &Vec<(String, Handle)>, deltas: [i128; 3])
        requires
            old(self).wf(),
        ensures
            final(self).wf(),
            final(self).same_setup(*old(self)),
            S::obeys_model() ==> final(self).backing().model() == reconciled(
                old(self).backing().model(),
                entries_of(handles@),
                usage_of(deltas),
                handles.len() as int,
            ),
    {
        let mut i: usize = 0;
        while i < handles.len()
            invariant
                0 <= i <= handles.len(),
                self.wf(),
                self.same_setup(*old(self)),
                S::obeys_model() ==> self.backing().model() == reconciled(
                    old(self).backing().model(),
                    entries_of(handles@),
                    usage_of(deltas),
                    i as int,
                ),
            decreases handles.len() - i,
        {
            self.store.adjust(handles[i].0.as_str(), &handles[i].1, deltas);
            i += 1;
        }
    }

    /// Reconciles a reservation to the actual usage. A `None` dimension is left at
    /// the reserved estimate. A committed reservation is frozen.
    pub fn commit(
        &mut self,
        res: &mut Reservation,
        actual_tokens: Option<i128>,
        actual_cost: Option<i128>,
    )
        requires
            old(self).wf(),
        ensures
            final(self).wf(),
            final(self).same_setup(*old(self)),
            final(res).model == old(res).model,
            final(res).entries() == old(res).entries(),
            final(res).committed,
            old(res).committed ==> *final(res) == *old(res) && *final(self) == *old(self),
            !old(res).committed ==> {
                let tokens = change_to(old(res).tokens, actual_tokens);
                let cost = change_to(old(res).cost, actual_cost);
                &&& final(res).tokens == sat(old(res).tokens + tokens)
                &&& final(res).cost == sat(old(res).cost + cost)
                &&& S::obeys_model() ==> final(self).backing().model() == reconciled(
                    old(self).backing().model(),
                    old(res).entries(),
                    (Usage { tokens, requests: 0, cost }),
                    old(res).entries().len() as int,
                )
            },
    {
        if res.committed {
            return;
        }
        let tokens: i128 = match actual_tokens {
            Some(actual) => minus(actual, res.tokens),
            None => 0,
        };
        let cost: i128 = match actual_cost {
            Some(actual) => minus(actual, res.cost),
            None => 0,
        };
        let deltas: [i128; 3] = [tokens, 0, cost];
        assert(usage_of(deltas) == (Usage { tokens, requests: 0, cost }));
        self.adjust_all(&res.handles.list, deltas);
        res.tokens = plus(res.tokens, tokens);
        res.cost = plus(res.cost, cost);
        res.committed = true;
    }

    /// Releases everything a reservation recorded, e.g. after a failed call.
    pub fn refund(&mut self, res: &mut Reservation)
        requires
            old(self).wf(),
        ensures
            final(self).wf(),
            final(self).same_setup(*old(self)),
            final(res).model == old(res).model,
            final(res).tokens == old(res).tokens,
            final(res).cost == old(res).cost,
            final(res).committed,
            old(res).committed ==> *final(res) == *old(res) && *final(self) == *old(self),
            !old(res).committed ==> {
                &&& final(res).entries() == Seq::<(Seq<char>, Handle)>::empty()
                &&& S::obeys_model() ==> final(self).backing().model() == reconciled(
                    old(self).backing().model(),
                    old(res).entries(),
                    Usage {
                        tokens: sat(-old(res).tokens) as i128,
                        requests: (-UNIT) as i128,
                        cost: sat(-old(res).cost) as i128,
                    },
                    old(res).entries().len() as int,
                )
            },
    {
        if res.committed {
            return;
        }
        let deltas: [i128; 3] = [minus(0, res.tokens), -UNIT, minus(0, res.cost)];
        assert(usage_of(deltas) == (Usage {
            tokens: sat(-old(res).tokens) as i128,
            requests: (-UNIT) as i128,
            cost: sat(-old(res).cost) as i128,
        }));
        self.adjust_all(&res.handles.list, deltas);
        res.handles.list.clear();
        assert(res.entries() =~= Seq::<(Seq<char>, Handle)>::empty());
        res.committed = true;
    }

    /// Tries the model, then its configured fallback on denial, reporting which
    /// model was ultimately chosen.
    pub fn acquire_or_fallback(&mut self, model: &str, a: &Acquire) -> (result: (
        Decision,
        String,
    ))
        requires
            old(self).wf(),
        ensures
            exists|
                now: i64,
                later: i64,
                between: Limiter<S, C>,
                first: Decision,
                second: Decision,
            |
                old(self).taken_at(a.now, now) && old(self).taken_at(a.now, later)
                    && #[trigger] old(self).chosen(
                    between,
                    *final(self),
                    model@,
                    a.at(now),
                    a.at(later),
                    result.0,
                    first,
                    second,
                    result.1@,
                ),
    {
        let now: i64 = self.resolve_now(a.now);
        let decision: Decision = self.decide(model, a, now, true);
        let ghost between = *self;
        if decision.allowed {
            let result: (Decision, String) = (decision, model.to_owned());
            assert(old(self).chosen(
                between,
                *self,
                model@,
                a.at(now),
                a.at(now),
                result.0,
                decision,
                decision,
                result.1@,
            ));
            return result;
        }
        let fallback: Option<String> = match self.fallbacks.get(model) {
            Some(fallback) => Some(fallback.clone()),
            None => None,
        };
        if let Some(fallback) = fallback {
            let later: i64 = self.resolve_now(a.now);
            let second: Decision = self.decide(fallback.as_str(), a, later, true);
            let ghost (first, second_seen) = (decision, second);
            let result: (Decision, String) = if second.allowed {
                (second, fallback)
            } else {
                (decision, model.to_owned())
            };
            assert(old(self).chosen(
                between,
                *self,
                model@,
                a.at(now),
                a.at(later),
                result.0,
                first,
                second_seen,
                result.1@,
            ));
            return result;
        }
        let result: (Decision, String) = (decision, model.to_owned());
        assert(old(self).chosen(
            between,
            *self,
            model@,
            a.at(now),
            a.at(now),
            result.0,
            decision,
            decision,
            result.1@,
        ));
        result
    }

    /// Gives one slot back for each of a list of keys.
    fn release_all(&mut self, keys: &Vec<String>)
        requires
            old(self).wf(),
        ensures
            final(self).wf(),
            final(self).same_setup(*old(self)),
            S::obeys_model() ==> final(self).backing().model() == slots_returned(
                old(self).backing().model(),
                texts_of(keys@),
                keys.len() as int,
            ),
    {
        let mut i: usize = 0;
        while i < keys.len()
            invariant
                0 <= i <= keys.len(),
                self.wf(),
                self.same_setup(*old(self)),
                S::obeys_model() ==> self.backing().model() == slots_returned(
                    old(self).backing().model(),
                    texts_of(keys@),
                    i as int,
                ),
            decreases keys.len() - i,
        {
            self.store.release_concurrency(keys[i].as_str());
            i += 1;
        }
    }

    /// Reserves one concurrency slot per applicable max-concurrent rule. If any
    /// rule is full, partially-acquired slots are released and the returned slot
    /// has `ok = false`. The time of the call plays no part.
    pub fn acquire_slot(&mut self, model: &str, a: &Acquire) -> (slot: Slot)
        requires
            old(self).wf(),
        ensures
            final(self).wf(),
            final(self).same_setup(*old(self)),
            old(self).slotted(model@, *a, slot),
            S::obeys_model() ==> {
                let rules = old(self).rule_list();
                let places = old(self).applies(model@);
                let store = old(self).backing().model();
                let ask = a.at(0);
                &&& slot.ok <==> forall|p: int|
                    0 <= p < places.len() ==> #[trigger] slot_free(rules, places, store, ask, p)
                &&& slot.ok ==> final(self).backing().model() == slots_held(store, slot.held())
                &&& !slot.ok ==> {
                    &&& final(self).backing().model() == store
                    &&& exists|p: int|
                        {
                            &&& 0 <= p < places.len()
                            &&& !(#[trigger] slot_free(rules, places, store, ask, p))
                            &&& forall|q: int|
                                0 <= q < p ==> #[trigger] slot_free(rules, places, store, ask, q)
                            &&& slot.tripped_rule == Some(rules[places[p] as int])
                        }
                }
            },
    {
        let places: Vec<usize> = self.applicable(model);
        let mut acquired: Vec<String> = Vec::new();
        let mut i: usize = 0;
        proof {
            self.lemma_applies_in_range(model@);
            if S::obeys_model() {
                assert(slots_held(self.backing().model(), texts_of(acquired@))
                    =~= self.backing().model());
            }
        }
        while i < places.len()
            invariant
                0 <= i <= places.len(),
                places@ == old(self).applies(model@),
                forall|p: int| 0 <= p < places.len() ==> places[p] < old(self).rule_list().len(),
                old(self).wf(),
                self.wf(),
                self.same_setup(*old(self)),
                texts_of(acquired@) == slot_keys(
                    old(self).rule_list(),
                    places@,
                    a.at(0),
                    i as int,
                ),
                S::obeys_model() ==> {
                    &&& self.backing().model() == slots_held(
                        old(self).backing().model(),
                        texts_of(acquired@),
                    )
                    &&& forall|p: int|
                        0 <= p < i ==> #[trigger] slot_free(
                            old(self).rule_list(),
                            places@,
                            old(self).backing().model(),
                            a.at(0),
                            p,
                        )
                },
            decreases places.len() - i,
        {
            let place: usize = places[i];
            if let Some(limit) = self.rules[place].max_concurrent {
                let mut key: String = String::new();
                key.append("conc|");
                key.append(
                    render_key(
                        place,
                        self.rules[place].scope,
                        a.tenant.as_str(),
                        a.user.as_str(),
                    ).as_str(),
                );
                assert(key@ =~= slot_key(
                    place as nat,
                    old(self).rule_list()[place as int].scope,
                    a.tenant@,
                    a.user@,
                ));
                if !self.store.try_add_concurrency(key.as_str(), limit) {
                    let tripped_rule: Option<LimitRule> = Some(self.rules[place].clone());
                    assert(S::obeys_model() ==> !slot_free(
                        old(self).rule_list(),
                        places@,
                        old(self).backing().model(),
                        a.at(0),
                        i as int,
                    ));
                    self.release_all(&acquired);
                    proof {
                        if S::obeys_model() {
                            crate::admission::lemma_all_slots_returned(
                                old(self).backing().model(),
                                texts_of(acquired@),
                            );
                        }
                    }
                    let keys: SlotKeys = SlotKeys { list: Vec::new() };
                    assert(keys@ =~= Seq::<Seq<char>>::empty());
                    assert(places@[i as int] == place);
                    return Slot { ok: false, tripped_rule, keys };
                }
                let ghost taken = texts_of(acquired@);
                let ghost text = key@;
                acquired.push(key);
                assert(texts_of(acquired@) =~= taken.push(text));
                proof {
                    if S::obeys_model() {
                        let store = old(self).backing().model();
                        assert(slot_free(
                            old(self).rule_list(),
                            places@,
                            store,
                            a.at(0),
                            i as int,
                        ));
                        assert(taken.push(text).drop_last() =~= taken);
                        assert(slots_held(store, taken).with_in_flight(
                            text,
                            slots_held(store, taken).in_flight[text] + 1,
                        ) =~= slots_held(store, taken.push(text)));
                    }
                }
            } else {
                assert(slot_free(
                    old(self).rule_list(),
                    places@,
                    old(self).backing().model(),
                    a.at(0),
                    i as int,
                ));
            }
            i += 1;
        }
        Slot { ok: true, tripped_rule: None, keys: SlotKeys { list: acquired } }
    }

    /// Returns every concurrency slot a `Slot` holds.
    pub fn release_slot(&mut self, slot: &mut Slot)
        requires
            old(self).wf(),
        ensures
            final(self).wf(),
            final(self).same_setup(*old(self)),
            final(slot).held() == Seq::<Seq<char>>::empty(),
            final(slot).ok == old(slot).ok,
            final(slot).tripped_rule == old(slot).tripped_rule,
            S::obeys_model() ==> final(self).backing().model() == slots_returned(
                old(self).backing().model(),
                old(slot).held(),
                old(slot).held().len() as int,
            ),
    {
        self.release_all(&slot.keys.list);
        slot.keys.list.clear();
        assert(slot.held() =~= Seq::<Seq<char>>::empty());
    }

    /// There are no more rules than a list can hold.
    pub proof fn lemma_rule_count(&self)
        ensures
            self.rule_list().len() <= usize::MAX,
    {
        assert(self.rules@.len() == self.rules.len());
    }

    /// The places that apply to a model are places of rules.
    proof fn lemma_applies_in_range(&self, model: Seq<char>)
        ensures
            forall|p: int|
                0 <= p < self.applies(model).len() ==> (#[trigger] self.applies(model)[p])
                    < self.rule_list().len(),
    {
        let rules = self.rule_list();
        assert(rules.len() == self.rules.len());
        crate::admission::lemma_places_in_range(rules, model, rules.len() as int);
        crate::admission::lemma_places_in_range(rules, "*"@, rules.len() as int);
    }
}

/// Adds the headroom of a dimension, never below zero, if the dimension is capped.
fn insert_room(rooms: &mut Listing<i128>, name: &str, room: Option<i128>)
    requires
        old(rooms).wf(),
    ensures
        final(rooms).wf(),
        final(rooms)@ == with_room(old(rooms)@, name@, room),
{
    if let Some(room) = room {
        rooms.insert(
            name.to_owned(),
            if room < 0 {
                0
            } else {
                room
            },
        );
    }
}

fn copy_places(places: &Vec<usize>) -> (copy: Vec<usize>)
    ensures
        copy@ == places@,
{
    let mut copy: Vec<usize> = Vec::new();
    let mut i: usize = 0;
    while i < places.len()
        invariant
            0 <= i <= places.len(),
            copy@ == places@.take(i as int),
        decreases places.len() - i,
    {
        copy.push(places[i]);
        i += 1;
        assert(copy@ =~= places@.take(i as int));
    }
    assert(places@.take(i as int) =~= places@);
    copy
}

impl Limiter<InMemoryStore, WallClock> {
    /// Builds a limiter from a set of rules, with an in-memory store and wall
    /// clock by default.
    pub fn new(rules: Vec<LimitRule>) -> (limiter: Limiter<InMemoryStore, WallClock>)
        ensures
            limiter.wf(),
            limiter.rule_list() == rules@,
            limiter.backing().model() == StoreModel::empty(),
            limiter.fallback_map() == Map::<Seq<char>, String>::empty(),
    {
        let mut by_model: Table<Vec<usize>> = Table::new();
        let mut i: usize = 0;
        while i < rules.len()
            invariant
                0 <= i <= rules.len(),
                by_model.wf(),
                forall|name: Seq<char>| #[trigger]
                    by_model@.contains_key(name) ==> by_model@[name]@ == places_among(
                        rules@,
                        name,
                        i as int,
                    ),
                forall|name: Seq<char>|
                    !(#[trigger] by_model@.contains_key(name)) ==> places_among(
                        rules@,
                        name,
                        i as int,
                    ).len() == 0,
            decreases rules.len() - i,
        {
            let name: &String = &rules[i].model;
            match by_model.find(name.as_str()) {
                Some(at) => {
                    by_model.value_mut(at).push(i);
                },
                None => {
                    let mut places: Vec<usize> = Vec::new();
                    places.push(i);
                    assert(places@ =~= places_among(rules@, name@, i + 1));
                    by_model.append(name.clone(), places);
                },
            }
            i += 1;
        }
        Limiter {
            rules,
            store: InMemoryStore::new(),
            clock: WallClock,
            fallbacks: Listing::new(),
            by_model,
        }
    }
}

} // verus!
