//! What the limiter decides: which rules apply to a call, how they are keyed, which of
//! them a call would breach, and how long it has to wait.

use crate::fixed::{minus, plus, sat, SLACK, UNIT};
use crate::rules::{LimitRule, Scope};
use crate::store::StoreModel;
use crate::text::{decimal, push_decimal};
use crate::window::{Handle, Usage, WindowModel, COST, REQUESTS, TOKENS};
use vstd::prelude::*;
use vstd::string::*;

verus! {

/// A call that asks for admission, as a mathematical value.
pub struct Ask {
    pub tokens: i128,
    pub cost: i128,
    pub tenant: Seq<char>,
    pub user: Seq<char>,
    pub now: i64,
}

impl Ask {
    /// What the call uses when it is recorded: its estimates, and one request.
    pub open spec fn used(self) -> Usage {
        Usage { tokens: self.tokens, requests: UNIT, cost: self.cost }
    }
}

/// The places, among the first `n` rules, of those made for a model name, in order.
pub open spec fn places_among(rules: Seq<LimitRule>, name: Seq<char>, n: int) -> Seq<usize>
    decreases n,
{
    if n <= 0 {
        Seq::empty()
    } else if rules[n - 1].model@ == name {
        places_among(rules, name, n - 1).push((n - 1) as usize)
    } else {
        places_among(rules, name, n - 1)
    }
}

/// The places of the rules that apply to a model, in the order in which they are
/// examined: those made for it, then those made for every model. For a model that is
/// itself named `*` the two are the same, and each applies once.
pub open spec fn applicable(rules: Seq<LimitRule>, model: Seq<char>) -> Seq<usize> {
    if model == "*"@ {
        places_among(rules, model, rules.len() as int)
    } else {
        places_among(rules, model, rules.len() as int) + places_among(
            rules,
            "*"@,
            rules.len() as int,
        )
    }
}

/// The places that apply to a model are places of rules.
pub proof fn lemma_places_in_range(rules: Seq<LimitRule>, name: Seq<char>, n: int)
    requires
        0 <= n <= rules.len() <= usize::MAX,
    ensures
        forall|p: int|
            0 <= p < places_among(rules, name, n).len() ==> (#[trigger] places_among(
                rules,
                name,
                n,
            )[p]) < n,
        forall|p: int|
            0 <= p < places_among(rules, name, n).len() ==> rules[(#[trigger] places_among(
                rules,
                name,
                n,
            )[p]) as int].model@ == name,
    decreases n,
{
    if n > 0 {
        lemma_places_in_range(rules, name, n - 1);
    }
}

/// A character of a tenant's name as it stands in a key: a bar or a backslash gets a
/// backslash before it.
pub open spec fn escaped_char(c: char) -> Seq<char> {
    if c == '|' || c == '\\' {
        seq!['\\', c]
    } else {
        seq![c]
    }
}

/// A tenant's name as it stands in a key, so that the bar after it can be told from one
/// inside it.
pub open spec fn escaped(name: Seq<char>) -> Seq<char>
    decreases name.len(),
{
    if name.len() == 0 {
        Seq::empty()
    } else {
        escaped(name.drop_last()) + escaped_char(name.last())
    }
}

/// The key under which a rule counts a call: its place, its scope, and what the scope
/// tells apart.
pub open spec fn rule_key(
    place: nat,
    scope: Scope,
    tenant: Seq<char>,
    user: Seq<char>,
) -> Seq<char> {
    match scope {
        Scope::Global => decimal(place) + "|g"@,
        Scope::Tenant => decimal(place) + "|t|"@ + tenant,
        Scope::User => decimal(place) + "|u|"@ + escaped(tenant) + "|"@ + user,
    }
}

/// The key under which a rule counts the calls in flight.
pub open spec fn slot_key(
    place: nat,
    scope: Scope,
    tenant: Seq<char>,
    user: Seq<char>,
) -> Seq<char> {
    "conc|"@ + rule_key(place, scope, tenant, user)
}

/// A name that needs no escaping stays as it is.
pub proof fn lemma_plain(name: Seq<char>)
    requires
        !name.contains('|'),
        !name.contains('\\'),
    ensures
        escaped(name) == name,
    decreases name.len(),
{
    if name.len() > 0 {
        let shorter = name.drop_last();
        assert(name[name.len() - 1] != '|' && name[name.len() - 1] != '\\');
        assert forall|c: char| shorter.contains(c) implies name.contains(c) by {
            let i = choose|i: int| 0 <= i < shorter.len() && shorter[i] == c;
            assert(name[i] == c);
        }
        lemma_plain(shorter);
        assert(shorter + seq![name.last()] =~= name);
    }
}

/// Whether a name needs escaping.
fn needs_escape(name: &str) -> (needed: bool)
    ensures
        needed == (name@.contains('|') || name@.contains('\\')),
{
    let len: usize = name.unicode_len();
    let mut i: usize = 0;
    while i < len
        invariant
            0 <= i <= len,
            len == name@.len(),
            forall|k: int| 0 <= k < i ==> name@[k] != '|' && name@[k] != '\\',
        decreases len - i,
    {
        let c: char = name.get_char(i);
        if c == '|' || c == '\\' {
            assert(name@[i as int] == c);
            return true;
        }
        i += 1;
    }
    false
}

/// Appends a tenant's name as it stands in a key.
fn append_escaped(key: &mut String, name: &str)
    ensures
        final(key)@ == old(key)@ + escaped(name@),
{
    if !needs_escape(name) {
        proof {
            lemma_plain(name@);
        }
        key.append(name);
        return;
    }
    let len: usize = name.unicode_len();
    let mut i: usize = 0;
    assert(escaped(name@.take(0)) =~= Seq::<char>::empty());
    assert(key@ =~= old(key)@ + escaped(name@.take(0)));
    while i < len
        invariant
            0 <= i <= len,
            len == name@.len(),
            key@ == old(key)@ + escaped(name@.take(i as int)),
        decreases len - i,
    {
        let c: char = name.get_char(i);
        let ghost before = key@;
        if c == '|' || c == '\\' {
            proof {
                reveal_strlit("\\");
            }
            key.append("\\");
        }
        key.append(name.substring_char(i, i + 1));
        assert(name@.subrange(i as int, i + 1) =~= seq![c]);
        assert(name@.take(i + 1).drop_last() =~= name@.take(i as int));
        assert(key@ =~= before + escaped_char(c));
        assert(key@ =~= old(key)@ + (escaped(name@.take(i as int)) + escaped_char(c)));
        i += 1;
    }
    assert(name@.take(i as int) =~= name@);
}

/// Renders the key under which a rule counts a call.
pub fn render_key(place: usize, scope: Scope, tenant: &str, user: &str) -> (key: String)
    ensures
        key@ == rule_key(place as nat, scope, tenant@, user@),
{
    let mut key: String = String::new();
    push_decimal(&mut key, place as u128);
    assert(key@ =~= decimal(place as nat));
    match scope {
        Scope::Global => {
            key.append("|g");
        },
        Scope::Tenant => {
            key.append("|t|");
            key.append(tenant);
        },
        Scope::User => {
            key.append("|u|");
            append_escaped(&mut key, tenant);
            key.append("|");
            key.append(user);
        },
    }
    key
}

/// By how much a call exceeds a cap, if it does so by more than the slack.
pub open spec fn excess(cap: Option<i128>, used: i128, asked: i128) -> Option<i128> {
    match cap {
        Some(cap) => if sat(used + asked) > sat(cap + SLACK) {
            Some(sat(sat(used + asked) - cap) as i128)
        } else {
            None
        },
        None => None,
    }
}

/// The caps of a rule that a call would breach, each with the excess.
#[derive(Debug, Clone, Copy, PartialEq, Eq, Structural)]
pub struct Breaches {
    pub tokens: Option<i128>,
    pub requests: Option<i128>,
    pub cost: Option<i128>,
}

impl Breaches {
    /// Whether no cap is breached.
    pub open spec fn none(self) -> bool {
        self.tokens is None && self.requests is None && self.cost is None
    }
}

/// The caps of a rule that a call would breach, given what was used so far.
pub open spec fn breaches(rule: &LimitRule, used: Usage, tokens: i128, cost: i128) -> Breaches {
    Breaches {
        tokens: excess(rule.max_tokens, used.tokens, tokens),
        requests: excess(rule.max_requests, used.requests, UNIT),
        cost: excess(rule.max_cost, used.cost, cost),
    }
}

/// Tells by how much a call exceeds a cap, if it does so by more than the slack.
pub fn find_excess(cap: Option<i128>, used: i128, asked: i128) -> (over: Option<i128>)
    ensures
        over == excess(cap, used, asked),
{
    match cap {
        Some(cap) => {
            let total: i128 = plus(used, asked);
            if total > plus(cap, SLACK) {
                Some(minus(total, cap))
            } else {
                None
            }
        },
        None => None,
    }
}

/// Tells which caps of a rule a call would breach, given the `(tokens, requests, cost)`
/// that were used so far.
pub fn find_breaches(
    rule: &LimitRule,
    totals: (i128, i128, i128),
    tokens: i128,
    cost: i128,
) -> (found: Breaches)
    ensures
        found == breaches(
            rule,
            (Usage { tokens: totals.0, requests: totals.1, cost: totals.2 }),
            tokens,
            cost,
        ),
{
    Breaches {
        tokens: find_excess(rule.max_tokens, totals.0, tokens),
        requests: find_excess(rule.max_requests, totals.1, UNIT),
        cost: find_excess(rule.max_cost, totals.2, cost),
    }
}

/// The longer of a wait and the time until an excess ages out.
pub open spec fn longer_wait(
    wait: int,
    window: WindowModel,
    now: i64,
    over: Option<i128>,
    dim: usize,
) -> int {
    match over {
        Some(over) => if window.wait(now, over as int, dim) > wait {
            window.wait(now, over as int, dim)
        } else {
            wait
        },
        None => wait,
    }
}

/// How long a call has to wait for a rule that counts in the given window: until the
/// excess in every breached dimension has aged out. A rule that is not breached asks
/// for no wait.
pub open spec fn rule_wait(rule: &LimitRule, window: WindowModel, ask: Ask) -> Option<int> {
    let found = breaches(rule, window.totals(ask.now), ask.tokens, ask.cost);
    if found.none() {
        None
    } else {
        let tokens = longer_wait(0, window, ask.now, found.tokens, TOKENS);
        let requests = longer_wait(tokens, window, ask.now, found.requests, REQUESTS);
        Some(longer_wait(requests, window, ask.now, found.cost, COST))
    }
}

/// The key under which the rule at a place counts a call.
pub open spec fn ask_key(rules: Seq<LimitRule>, place: usize, ask: Ask) -> Seq<char> {
    rule_key(place as nat, rules[place as int].scope, ask.tenant, ask.user)
}

/// The window in which the rule at a place counts a call.
pub open spec fn ask_window(
    rules: Seq<LimitRule>,
    place: usize,
    store: StoreModel,
    ask: Ask,
) -> WindowModel {
    store.window_for(
        ask_key(rules, place, ask),
        rules[place as int].window_seconds,
        rules[place as int].width() as i64,
    )
}

/// The store after the rule at a place looked its window up.
pub open spec fn ask_touched(
    rules: Seq<LimitRule>,
    place: usize,
    store: StoreModel,
    ask: Ask,
) -> StoreModel {
    store.touched(
        ask_key(rules, place, ask),
        rules[place as int].window_seconds,
        rules[place as int].width() as i64,
    )
}

/// The store after the rule at a place recorded a call.
pub open spec fn ask_added(
    rules: Seq<LimitRule>,
    place: usize,
    store: StoreModel,
    ask: Ask,
) -> StoreModel {
    store.added(
        ask_key(rules, place, ask),
        ask.now,
        rules[place as int].window_seconds,
        rules[place as int].width() as i64,
        ask.used(),
    )
}

/// A breached rule, by its place, and how long it asks to wait.
pub struct Denial {
    pub wait: int,
    pub place: usize,
}

/// What examining a call found.
pub struct Findings {
    /// The store afterwards.
    pub store: StoreModel,
    /// The first of the breached rules that ask for the longest wait.
    pub worst: Option<Denial>,
}

/// What examining a call against the first `n` of the given rules finds.
pub open spec fn examined(
    rules: Seq<LimitRule>,
    places: Seq<usize>,
    store: StoreModel,
    ask: Ask,
    n: int,
) -> Findings
    decreases n,
{
    if n <= 0 {
        Findings { store, worst: None }
    } else {
        let before = examined(rules, places, store, ask, n - 1);
        let place = places[n - 1];
        if !rules[place as int].caps_usage() {
            before
        } else {
            Findings {
                store: ask_touched(rules, place, before.store, ask),
                worst: match rule_wait(
                    &rules[place as int],
                    ask_window(rules, place, before.store, ask),
                    ask,
                ) {
                    Some(wait) => if before.worst is None || wait > before.worst->0.wait {
                        Some(Denial { wait, place })
                    } else {
                        before.worst
                    },
                    None => before.worst,
                },
            }
        }
    }
}

/// The store after the first `n` of the given rules recorded a call.
pub open spec fn recorded(
    rules: Seq<LimitRule>,
    places: Seq<usize>,
    store: StoreModel,
    ask: Ask,
    n: int,
) -> StoreModel
    decreases n,
{
    if n <= 0 {
        store
    } else {
        let before = recorded(rules, places, store, ask, n - 1);
        let place = places[n - 1];
        if rules[place as int].caps_usage() {
            ask_added(rules, place, before, ask)
        } else {
            before
        }
    }
}

/// The entries that the first `n` of the given rules made when they recorded a call,
/// each with its key.
pub open spec fn recorded_entries(
    rules: Seq<LimitRule>,
    places: Seq<usize>,
    store: StoreModel,
    ask: Ask,
    n: int,
) -> Seq<(Seq<char>, Handle)>
    decreases n,
{
    if n <= 0 {
        Seq::empty()
    } else {
        let before = recorded_entries(rules, places, store, ask, n - 1);
        let place = places[n - 1];
        if rules[place as int].caps_usage() {
            before.push(
                (
                    ask_key(rules, place, ask),
                    ask_window(
                        rules,
                        place,
                        recorded(rules, places, store, ask, n - 1),
                        ask,
                    ).handle(ask.now),
                ),
            )
        } else {
            before
        }
    }
}

/// The store after the first `n` of some entries were changed by `delta`.
pub open spec fn reconciled(
    store: StoreModel,
    entries: Seq<(Seq<char>, Handle)>,
    delta: Usage,
    n: int,
) -> StoreModel
    decreases n,
{
    if n <= 0 {
        store
    } else {
        reconciled(store, entries, delta, n - 1).adjusted(
            entries[n - 1].0,
            entries[n - 1].1,
            delta,
        )
    }
}

/// The headroom that is left in each dimension that some rule caps.
pub struct Headroom {
    pub tokens: Option<i128>,
    pub requests: Option<i128>,
    pub cost: Option<i128>,
}

/// The smaller of a headroom and what a cap leaves of it.
pub open spec fn tightened(room: Option<i128>, cap: Option<i128>, used: i128) -> Option<i128> {
    match cap {
        Some(cap) => {
            let left = sat(cap - used) as i128;
            match room {
                Some(room) => Some(
                    if left < room {
                        left
                    } else {
                        room
                    },
                ),
                None => Some(left),
            }
        },
        None => room,
    }
}

/// Tightens a headroom to what a cap leaves of it.
pub fn tighten(room: Option<i128>, cap: Option<i128>, used: i128) -> (result: Option<i128>)
    ensures
        result == tightened(room, cap, used),
{
    match cap {
        Some(cap) => {
            let left: i128 = minus(cap, used);
            match room {
                Some(room) => Some(
                    if left < room {
                        left
                    } else {
                        room
                    },
                ),
                None => Some(left),
            }
        },
        None => room,
    }
}

impl Headroom {
    /// No dimension capped.
    pub open spec fn unlimited() -> Headroom {
        Headroom { tokens: None, requests: None, cost: None }
    }

    /// The headroom after one more rule.
    pub open spec fn under(self, rule: &LimitRule, used: Usage) -> Headroom {
        Headroom {
            tokens: tightened(self.tokens, rule.max_tokens, used.tokens),
            requests: tightened(self.requests, rule.max_requests, used.requests),
            cost: tightened(self.cost, rule.max_cost, used.cost),
        }
    }

    /// The headroom by name of the dimension, never below zero.
    pub open spec fn named(self) -> Map<Seq<char>, i128> {
        with_room(
            with_room(with_room(Map::empty(), "tokens"@, self.tokens), "requests"@, self.requests),
            "cost"@,
            self.cost,
        )
    }
}

/// A map with the headroom of one more dimension, if it is capped.
pub open spec fn with_room(
    rooms: Map<Seq<char>, i128>,
    name: Seq<char>,
    room: Option<i128>,
) -> Map<Seq<char>, i128> {
    match room {
        Some(room) => rooms.insert(
            name,
            if room < 0 {
                0
            } else {
                room
            },
        ),
        None => rooms,
    }
}

/// What surveying the remaining headroom finds.
pub struct Survey {
    /// The store afterwards.
    pub store: StoreModel,
    pub room: Headroom,
}

/// What surveying the headroom under the first `n` of the given rules finds.
pub open spec fn surveyed(
    rules: Seq<LimitRule>,
    places: Seq<usize>,
    store: StoreModel,
    ask: Ask,
    n: int,
) -> Survey
    decreases n,
{
    if n <= 0 {
        Survey { store, room: Headroom::unlimited() }
    } else {
        let before = surveyed(rules, places, store, ask, n - 1);
        let place = places[n - 1];
        Survey {
            store: ask_touched(rules, place, before.store, ask),
            room: before.room.under(
                &rules[place as int],
                ask_window(rules, place, before.store, ask).totals(ask.now),
            ),
        }
    }
}

/// The slot keys of those among the first `n` of the given rules that cap concurrency.
pub open spec fn slot_keys(
    rules: Seq<LimitRule>,
    places: Seq<usize>,
    ask: Ask,
    n: int,
) -> Seq<Seq<char>>
    decreases n,
{
    if n <= 0 {
        Seq::empty()
    } else {
        let before = slot_keys(rules, places, ask, n - 1);
        let place = places[n - 1];
        if rules[place as int].max_concurrent is Some {
            before.push(
                slot_key(place as nat, rules[place as int].scope, ask.tenant, ask.user),
            )
        } else {
            before
        }
    }
}

/// How often a key occurs in a list.
pub open spec fn occurrences(keys: Seq<Seq<char>>, key: Seq<char>) -> int
    decreases keys.len(),
{
    if keys.len() == 0 {
        0
    } else {
        occurrences(keys.drop_last(), key) + if keys.last() == key {
            1int
        } else {
            0int
        }
    }
}

/// The store with one more call in flight for every occurrence of a key in a list.
pub open spec fn slots_held(store: StoreModel, keys: Seq<Seq<char>>) -> StoreModel {
    StoreModel {
        windows: store.windows,
        in_flight: Map::total(|key: Seq<char>| store.in_flight[key] + occurrences(keys, key)),
    }
}

/// The store after a slot was given back for each of the first `n` keys of a list.
pub open spec fn slots_returned(store: StoreModel, keys: Seq<Seq<char>>, n: int) -> StoreModel
    decreases n,
{
    if n <= 0 {
        store
    } else {
        slots_returned(store, keys, n - 1).slot_returned(keys[n - 1])
    }
}

/// Whether the `p`-th of the given rules has a slot left for a call, once the rules
/// before it have taken theirs. A rule that does not cap concurrency always has.
pub open spec fn slot_free(
    rules: Seq<LimitRule>,
    places: Seq<usize>,
    store: StoreModel,
    ask: Ask,
    p: int,
) -> bool {
    let place = places[p];
    match rules[place as int].max_concurrent {
        Some(limit) => slots_held(store, slot_keys(rules, places, ask, p)).in_flight[slot_key(
            place as nat,
            rules[place as int].scope,
            ask.tenant,
            ask.user,
        )] < limit,
        None => true,
    }
}

/// A key can be counted from the front of a list as well as from its end.
pub proof fn lemma_occurrences_from_front(keys: Seq<Seq<char>>, key: Seq<char>)
    requires
        keys.len() > 0,
    ensures
        occurrences(keys, key) == occurrences(keys.drop_first(), key) + if keys[0] == key {
            1int
        } else {
            0int
        },
    decreases keys.len(),
{
    if keys.len() > 1 {
        lemma_occurrences_from_front(keys.drop_last(), key);
        assert(keys.drop_last().drop_first() =~= keys.drop_first().drop_last());
    } else {
        assert(keys.drop_last() =~= keys.drop_first());
    }
}

/// A key does not occur a negative number of times.
pub proof fn lemma_occurrences_at_least_zero(keys: Seq<Seq<char>>, key: Seq<char>)
    ensures
        occurrences(keys, key) >= 0,
    decreases keys.len(),
{
    if keys.len() > 0 {
        lemma_occurrences_at_least_zero(keys.drop_last(), key);
    }
}

/// Giving back the first `n` of the slots that were taken leaves the rest taken.
pub proof fn lemma_slots_returned(store: StoreModel, keys: Seq<Seq<char>>, n: int)
    requires
        store.wf(),
        0 <= n <= keys.len(),
    ensures
        slots_returned(slots_held(store, keys), keys, n) == slots_held(store, keys.skip(n)),
    decreases n,
{
    if n == 0 {
        assert(keys.skip(0) =~= keys);
    } else {
        lemma_slots_returned(store, keys, n - 1);
        let rest = keys.skip(n - 1);
        assert(rest.drop_first() =~= keys.skip(n));
        assert(rest[0] == keys[n - 1]);
        let held = slots_held(store, rest);
        assert forall|key: Seq<char>| true implies #[trigger] held.slot_returned(
            keys[n - 1],
        ).in_flight[key] == slots_held(store, keys.skip(n)).in_flight[key] by {
            lemma_occurrences_from_front(rest, key);
            lemma_occurrences_at_least_zero(keys.skip(n), key);
            assert(store.in_flight[key] >= 0);
        }
        assert(held.slot_returned(keys[n - 1]) =~= slots_held(store, keys.skip(n)));
    }
}

/// Giving back every slot that was taken restores the store.
pub proof fn lemma_all_slots_returned(store: StoreModel, keys: Seq<Seq<char>>)
    requires
        store.wf(),
    ensures
        slots_returned(slots_held(store, keys), keys, keys.len() as int) == store,
{
    lemma_slots_returned(store, keys, keys.len() as int);
    assert(keys.skip(keys.len() as int) =~= Seq::empty());
    assert(slots_held(store, Seq::empty()) =~= store);
}

} // verus!
