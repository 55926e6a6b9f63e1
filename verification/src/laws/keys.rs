//! Laws of the keys that calls are counted under: what one key counts, no other does.

use crate::admission::{escaped, escaped_char, rule_key, slot_key};
use crate::decimal::{is_digit, number_of};
use crate::rules::Scope;
use crate::text::{decimal, digit};
use vstd::prelude::*;

verus! {

/// Decimal digits stand for the number that they were made from.
pub proof fn writing_a_number_loses_nothing(n: nat)
    ensures
        number_of(decimal(n)) == n,
        decimal(n).len() > 0,
        forall|i: int| 0 <= i < decimal(n).len() ==> is_digit(#[trigger] decimal(n)[i]),
    decreases n,
{
    if n < 10 {
        assert(decimal(n).drop_last() =~= Seq::<char>::empty());
        assert(decimal(n).last() == digit(n));
        assert(number_of(Seq::<char>::empty()) == 0);
        assert(digit(n) as nat == 48 + n);
    } else {
        writing_a_number_loses_nothing(n / 10);
        assert(decimal(n).drop_last() =~= decimal(n / 10));
        assert(decimal(n).last() == digit(n % 10));
        assert(digit(n % 10) as nat == 48 + n % 10);
        assert('0' as nat == 48);
    }
}

/// A number that is followed by a bar can be told from the text.
proof fn lemma_number_before_bar(p: nat, a: Seq<char>, q: nat, b: Seq<char>)
    requires
        a.len() > 0,
        b.len() > 0,
        a[0] == '|',
        b[0] == '|',
        decimal(p) + a == decimal(q) + b,
    ensures
        p == q,
        a == b,
{
    writing_a_number_loses_nothing(p);
    writing_a_number_loses_nothing(q);
    let (dp, dq) = (decimal(p), decimal(q));
    let text = dp + a;
    if dp.len() < dq.len() {
        assert(text[dp.len() as int] == '|');
        assert(text[dp.len() as int] == dq[dp.len() as int]);
    }
    if dq.len() < dp.len() {
        assert(text[dq.len() as int] == '|');
        assert(text[dq.len() as int] == dp[dq.len() as int]);
    }
    assert(dp =~= text.take(dp.len() as int));
    assert(dq =~= text.take(dq.len() as int));
    assert(a =~= text.skip(dp.len() as int));
    assert(b =~= text.skip(dq.len() as int));
}

/// What follows the number in a key.
spec fn key_rest(scope: Scope, tenant: Seq<char>, user: Seq<char>) -> Seq<char> {
    match scope {
        Scope::Global => "|g"@,
        Scope::Tenant => "|t|"@ + tenant,
        Scope::User => "|u|"@ + escaped(tenant) + "|"@ + user,
    }
}

proof fn lemma_key_parts(place: nat, scope: Scope, tenant: Seq<char>, user: Seq<char>)
    ensures
        rule_key(place, scope, tenant, user) == decimal(place) + key_rest(scope, tenant, user),
        key_rest(scope, tenant, user).len() > 0,
        key_rest(scope, tenant, user)[0] == '|',
{
    reveal_strlit("|g");
    reveal_strlit("|t|");
    reveal_strlit("|u|");
    reveal_strlit("|");
    assert(rule_key(place, scope, tenant, user) =~= decimal(place) + key_rest(
        scope,
        tenant,
        user,
    ));
}

/// Different rules count under different keys, whoever calls.
pub proof fn rules_do_not_share_keys(
    p: nat,
    p_scope: Scope,
    p_tenant: Seq<char>,
    p_user: Seq<char>,
    q: nat,
    q_scope: Scope,
    q_tenant: Seq<char>,
    q_user: Seq<char>,
)
    requires
        p != q,
    ensures
        rule_key(p, p_scope, p_tenant, p_user) != rule_key(q, q_scope, q_tenant, q_user),
        slot_key(p, p_scope, p_tenant, p_user) != slot_key(q, q_scope, q_tenant, q_user),
{
    let one = rule_key(p, p_scope, p_tenant, p_user);
    let two = rule_key(q, q_scope, q_tenant, q_user);
    lemma_key_parts(p, p_scope, p_tenant, p_user);
    lemma_key_parts(q, q_scope, q_tenant, q_user);
    if one == two {
        lemma_number_before_bar(
            p,
            key_rest(p_scope, p_tenant, p_user),
            q,
            key_rest(q_scope, q_tenant, q_user),
        );
    }
    if "conc|"@ + one == "conc|"@ + two {
        lemma_same_tail("conc|"@, one, two);
    }
}

/// Texts that differ still differ behind a common beginning.
proof fn lemma_same_tail(head: Seq<char>, a: Seq<char>, b: Seq<char>)
    requires
        head + a == head + b,
    ensures
        a == b,
{
    assert(a =~= (head + a).skip(head.len() as int));
    assert(b =~= (head + b).skip(head.len() as int));
}

/// A global rule counts everyone's calls under one key.
pub proof fn a_global_rule_is_shared_by_everyone(
    place: nat,
    tenant: Seq<char>,
    user: Seq<char>,
    other_tenant: Seq<char>,
    other_user: Seq<char>,
)
    ensures
        rule_key(place, Scope::Global, tenant, user) == rule_key(
            place,
            Scope::Global,
            other_tenant,
            other_user,
        ),
{
}

/// A tenant rule counts two calls under one key if and only if they are of one tenant,
/// whoever the users are.
pub proof fn a_tenant_rule_tells_tenants_apart(
    place: nat,
    tenant: Seq<char>,
    user: Seq<char>,
    other_tenant: Seq<char>,
    other_user: Seq<char>,
)
    ensures
        rule_key(place, Scope::Tenant, tenant, user) == rule_key(
            place,
            Scope::Tenant,
            other_tenant,
            other_user,
        ) <==> tenant == other_tenant,
{
    let head = decimal(place) + "|t|"@;
    if head + tenant == head + other_tenant {
        lemma_same_tail(head, tenant, other_tenant);
    }
}

/// A name is escaped character by character, from the front as well as from the end.
proof fn lemma_escaped_from_front(name: Seq<char>)
    requires
        name.len() > 0,
    ensures
        escaped(name) == escaped_char(name[0]) + escaped(name.drop_first()),
    decreases name.len(),
{
    let rest = name.drop_first();
    if name.len() == 1 {
        assert(name.drop_last() =~= Seq::<char>::empty());
        assert(rest =~= Seq::<char>::empty());
        assert(escaped(name) =~= escaped_char(name[0]) + escaped(rest));
    } else {
        lemma_escaped_from_front(name.drop_last());
        assert(name.drop_last().drop_first() =~= rest.drop_last());
        assert(rest.last() == name.last());
        assert(escaped(name) =~= escaped_char(name[0]) + escaped(rest));
    }
}

/// An escaped name that is followed by a bar can be told from the text.
proof fn lemma_name_before_bar(name: Seq<char>, a: Seq<char>, other: Seq<char>, b: Seq<char>)
    requires
        escaped(name) + (seq!['|'] + a) == escaped(other) + (seq!['|'] + b),
    ensures
        name == other,
        a == b,
    decreases name.len(),
{
    let one = escaped(name) + (seq!['|'] + a);
    let two = escaped(other) + (seq!['|'] + b);
    if name.len() > 0 {
        lemma_escaped_from_front(name);
    }
    if other.len() > 0 {
        lemma_escaped_from_front(other);
    }
    if name.len() == 0 && other.len() == 0 {
        assert(a =~= one.skip(1));
        assert(b =~= two.skip(1));
        assert(name =~= other);
    } else if name.len() == 0 {
        assert(one[0] == '|');
        assert(two[0] == escaped_char(other[0])[0]);
    } else if other.len() == 0 {
        assert(two[0] == '|');
        assert(one[0] == escaped_char(name[0])[0]);
    } else {
        let (x, y) = (escaped_char(name[0]), escaped_char(other[0]));
        let (p, q) = (name.drop_first(), other.drop_first());
        assert(one =~= x + (escaped(p) + (seq!['|'] + a)));
        assert(two =~= y + (escaped(q) + (seq!['|'] + b)));
        assert(one[0] == x[0] && two[0] == y[0]);
        assert(x.len() == y.len());
        if x.len() == 2 {
            assert(one[1] == x[1] && two[1] == y[1]);
        }
        assert(name[0] == other[0]);
        lemma_same_tail(x, escaped(p) + (seq!['|'] + a), escaped(q) + (seq!['|'] + b));
        lemma_name_before_bar(p, a, q, b);
        assert(name =~= seq![name[0]] + p);
        assert(other =~= seq![other[0]] + q);
    }
}

/// Two calls are counted under one key by user rules if and only if it is one rule, one
/// tenant and one user of it.
pub proof fn a_user_rule_tells_users_apart(
    place: nat,
    tenant: Seq<char>,
    user: Seq<char>,
    other: nat,
    other_tenant: Seq<char>,
    other_user: Seq<char>,
)
    ensures
        rule_key(place, Scope::User, tenant, user) == rule_key(
            other,
            Scope::User,
            other_tenant,
            other_user,
        ) <==> place == other && tenant == other_tenant && user == other_user,
{
    reveal_strlit("|");
    let (one, two) = (
        rule_key(place, Scope::User, tenant, user),
        rule_key(other, Scope::User, other_tenant, other_user),
    );
    if one == two {
        if place != other {
            rules_do_not_share_keys(
                place,
                Scope::User,
                tenant,
                user,
                other,
                Scope::User,
                other_tenant,
                other_user,
            );
        }
        let head = decimal(place) + "|u|"@;
        let (a, b) = (
            escaped(tenant) + (seq!['|'] + user),
            escaped(other_tenant) + (seq!['|'] + other_user),
        );
        assert(one =~= head + a);
        assert(two =~= head + b);
        lemma_same_tail(head, a, b);
        lemma_name_before_bar(tenant, user, other_tenant, other_user);
    }
}

/// A slot is counted under the key of its rule: two calls share a slot key of a rule if
/// and only if they share its other key.
pub proof fn slots_are_keyed_as_usage_is(
    place: nat,
    scope: Scope,
    tenant: Seq<char>,
    user: Seq<char>,
    other_tenant: Seq<char>,
    other_user: Seq<char>,
)
    ensures
        slot_key(place, scope, tenant, user) == slot_key(place, scope, other_tenant, other_user)
            <==> rule_key(place, scope, tenant, user) == rule_key(
            place,
            scope,
            other_tenant,
            other_user,
        ),
{
    let one = rule_key(place, scope, tenant, user);
    let two = rule_key(place, scope, other_tenant, other_user);
    if "conc|"@ + one == "conc|"@ + two {
        lemma_same_tail("conc|"@, one, two);
    }
}

} // verus!
