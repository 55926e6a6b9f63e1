//! Laws of rules documents: what is written in one is what its rules say.

use super::numbers::{in_billionths, is_number};
use crate::json::{json_parse, Tree};
use crate::rules::{all_ascii, quantity, rules_from_json, LimitRule, Row, Scope};
use vstd::prelude::*;

verus! {

/// What an entry of a document says under a name, if it says anything.
pub open spec fn said(entry: Tree, name: Seq<char>) -> Option<Tree> {
    if entry is Object && entry->Object_0.contains_key(name) {
        Some(entry->Object_0[name])
    } else {
        None
    }
}

/// Whether an amount in billionths is what an entry says under a name: none if it says
/// nothing there, or nothing that is a number.
pub open spec fn says_amount(entry: Tree, name: Seq<char>, amount: Option<int>) -> bool {
    match said(entry, name) {
        Some(Tree::Number { text, integer }) => match amount {
            Some(amount) => exists|
                negative: bool,
                digits: Seq<char>,
                behind: Seq<char>,
                tail: Seq<char>,
                exponent: int,
            | #[trigger]
                is_number(text, negative, digits, behind, tail, exponent) && amount
                    == in_billionths(negative, digits, behind, exponent),
            None => forall|
                negative: bool,
                digits: Seq<char>,
                behind: Seq<char>,
                tail: Seq<char>,
                exponent: int,
            | !(#[trigger] is_number(text, negative, digits, behind, tail, exponent)),
        },
        _ => amount is None,
    }
}

/// The amount that a cap stands for.
pub open spec fn amount_of(cap: Option<i128>) -> Option<int> {
    match cap {
        Some(cap) => Some(cap as int),
        None => None,
    }
}

/// The integer that an entry says under a name, if it says one.
pub open spec fn said_integer(entry: Tree, name: Seq<char>) -> Option<i64> {
    match said(entry, name) {
        Some(Tree::Number { text, integer }) => integer,
        _ => None,
    }
}

/// The text that an entry says under a name, if it says one.
pub open spec fn said_text(entry: Tree, name: Seq<char>) -> Option<Seq<char>> {
    match said(entry, name) {
        Some(Tree::Text(text)) => Some(text),
        _ => None,
    }
}

/// The letter, in capitals or not.
pub open spec fn same_letter(c: char, lower: char) -> bool {
    c == lower || (('a' <= lower && lower <= 'z') && c as int == lower as int - 32)
}

/// Whether a text is a name in lowercase letters, but for capitals.
pub open spec fn same_name(text: Seq<char>, lower: Seq<char>) -> bool {
    &&& text.len() == lower.len()
    &&& forall|i: int| 0 <= i < text.len() ==> same_letter(#[trigger] text[i], lower[i])
}

/// The name of a scope.
pub open spec fn scope_name(scope: Scope) -> Seq<char> {
    match scope {
        Scope::Global => "global"@,
        Scope::Tenant => "tenant"@,
        Scope::User => "user"@,
    }
}

/// The name of a scope, in capitals or not, lowers to that name, and a text of ASCII
/// characters that lowers to it is such a name.
proof fn lemma_scope_name(text: Seq<char>, scope: Scope)
    requires
        all_ascii(text),
    ensures
        same_name(text, scope_name(scope)) <==> crate::rules::lowered(text) == scope_name(scope),
{
    reveal_strlit("global");
    reveal_strlit("tenant");
    reveal_strlit("user");
    let lower = scope_name(scope);
    let low = crate::rules::lowered(text);
    assert forall|i: int| 0 <= i < lower.len() implies 'a' <= #[trigger] lower[i] && lower[i]
        <= 'z' by {}
    if same_name(text, lower) {
        assert forall|i: int| 0 <= i < lower.len() implies #[trigger] low[i] == lower[i] by {
            assert(same_letter(text[i], lower[i]));
        }
        assert(low =~= lower);
    }
    if low == lower {
        assert forall|i: int| 0 <= i < text.len() implies same_letter(
            #[trigger] text[i],
            lower[i],
        ) by {
            assert(low[i] == lower[i]);
            assert(low[i] == crate::rules::ascii_lowercase(text[i]));
        }
    }
}

proof fn lemma_scopes_differ(a: Scope, b: Scope)
    requires
        scope_name(a) == scope_name(b),
    ensures
        a == b,
{
    reveal_strlit("global");
    reveal_strlit("tenant");
    reveal_strlit("user");
    assert("global"@[0] == 'g' && "tenant"@[0] == 't' && "user"@[0] == 'u');
}

/// A scope is read from its name in lowercase, and from no other text.
pub proof fn a_scope_is_read_from_its_name(text: &str, result: Result<Scope, String>, scope: Scope)
    requires
        call_ensures(Scope::from_lowercase, (text,), result),
    ensures
        result == Ok::<Scope, String>(scope) <==> text@ == scope_name(scope),
        result is Err ==> result->Err_0@ == "unknown scope \""@ + text@ + "\""@,
{
    if let Some(found) = Scope::named(text@) {
        assert(scope_name(found) == text@);
        if text@ == scope_name(scope) {
            lemma_scopes_differ(found, scope);
        }
    }
}

/// A text of ASCII characters stands for a scope if and only if it is the name of the scope,
/// in capitals or not.
pub proof fn capitals_do_not_matter_in_a_scope(text: Seq<char>, scope: Scope)
    requires
        all_ascii(text),
    ensures
        Scope::named(crate::rules::lowered(text)) == Some(scope) <==> same_name(
            text,
            scope_name(scope),
        ),
{
    lemma_scope_name(text, scope);
    let low = crate::rules::lowered(text);
    if let Some(found) = Scope::named(low) {
        assert(scope_name(found) == low);
        if low == scope_name(scope) {
            lemma_scopes_differ(found, scope);
        }
    }
}

/// The name of a scope is what it is shown as.
pub proof fn a_scope_is_shown_by_its_name(scope: &Scope, name: &'static str)
    requires
        call_ensures(Scope::as_str, (scope,), name),
    ensures
        name@ == scope_name(*scope),
{
}

/// Whether a rule says what an entry of a document does. Where the entry says nothing, the
/// window is a minute in 60 buckets, the scope is global, nothing is capped and there is no
/// name. A window is kept within the range of times.
pub open spec fn says_rule(entry: Tree, rule: LimitRule) -> bool {
    &&& said_text(entry, "model"@) == Some(rule.model@)
    &&& exists|window: Option<int>| #[trigger]
        says_amount(entry, "window_seconds"@, window) && match window {
            Some(window) => if window > i64::MAX {
                rule.window_seconds == i64::MAX
            } else if window < i64::MIN {
                rule.window_seconds == i64::MIN
            } else {
                rule.window_seconds == window
            },
            None => rule.window_seconds == 60_000_000_000,
        }
    &&& says_amount(entry, "max_tokens"@, amount_of(rule.max_tokens))
    &&& says_amount(entry, "max_requests"@, amount_of(rule.max_requests))
    &&& says_amount(entry, "max_cost"@, amount_of(rule.max_cost))
    &&& rule.max_concurrent == said_integer(entry, "max_concurrent"@)
    &&& match said_text(entry, "scope"@) {
        Some(scope) => all_ascii(scope) ==> same_name(scope, scope_name(rule.scope)),
        None => rule.scope == Scope::Global,
    }
    &&& rule.buckets_per_window == match said_integer(entry, "buckets_per_window"@) {
        Some(buckets) => buckets as int,
        None => 60,
    }
    &&& rule.precise == (said(entry, "precise"@) == Some(Tree::Flag(true)))
    &&& match rule.name {
        Some(name) => said_text(entry, "name"@) == Some(name@),
        None => said_text(entry, "name"@) is None,
    }
}

/// Whether an entry names a model, and a scope, if it says one, of ASCII characters that is
/// one.
pub open spec fn is_rule(entry: Tree) -> bool {
    &&& said_text(entry, "model"@) is Some
    &&& said_text(entry, "scope"@) matches Some(scope) ==> all_ascii(scope) && exists|scope_is:
        Scope| same_name(scope, #[trigger] scope_name(scope_is))
}

/// Whether an entry lacks a model, or says a scope, of ASCII characters, that is none.
pub open spec fn is_no_rule(entry: Tree) -> bool {
    ||| said_text(entry, "model"@) is None
    ||| said_text(entry, "scope"@) matches Some(scope) && all_ascii(scope) && forall|
        scope_is: Scope,
    | !same_name(scope, #[trigger] scope_name(scope_is))
}

/// A text of ASCII characters without capitals.
pub open spec fn without_capitals(text: Seq<char>) -> Seq<char> {
    Seq::new(
        text.len(),
        |i: int|
            if 'A' <= text[i] && text[i] <= 'Z' {
                (text[i] as u32 + 32) as char
            } else {
                text[i]
            },
    )
}

/// What is said of an entry that is no rule.
pub open spec fn complaint(entry: Tree) -> Seq<char> {
    if said_text(entry, "model"@) is None {
        "rule is missing \"model\""@
    } else {
        "unknown scope \""@ + without_capitals(said_text(entry, "scope"@)->0) + "\""@
    }
}

/// The quantity that a setting of an entry gives is the amount that the entry says.
proof fn lemma_says_amount(entry: Tree, name: Seq<char>)
    ensures
        forall|amount: Option<int>| #[trigger]
            says_amount(entry, name, amount) <==> amount == quantity(entry.number_field(name)),
{
    assert forall|amount: Option<int>| #[trigger] says_amount(entry, name, amount) <==> amount
        == quantity(entry.number_field(name)) by {
        if let Some(Tree::Number { text, integer }) = said(entry, name) {
            super::numbers::lemma_only_numbers(text);
            assert forall|
                negative: bool,
                digits: Seq<char>,
                behind: Seq<char>,
                tail: Seq<char>,
                exponent: int,
            | #[trigger]
                is_number(text, negative, digits, behind, tail, exponent) implies quantity(
                Some(text),
            ) == Some(in_billionths(negative, digits, behind, exponent)) by {
                super::numbers::lemma_written(negative, digits, behind, tail, exponent);
            }
            if quantity(Some(text)) is Some {
                let (negative, digits, behind, tail, exponent): (
                    bool,
                    Seq<char>,
                    Seq<char>,
                    Seq<char>,
                    int,
                ) = choose|
                    negative: bool,
                    digits: Seq<char>,
                    behind: Seq<char>,
                    tail: Seq<char>,
                    exponent: int,
                | is_number(text, negative, digits, behind, tail, exponent);
                assert(is_number(text, negative, digits, behind, tail, exponent));
            }
        }
    }
}

/// The row of an entry describes the rules that the entry says.
proof fn lemma_describes(entry: Tree, rule: LimitRule)
    requires
        Row::of(entry).describes(rule),
        Row::of(entry).fault() is None,
    ensures
        says_rule(entry, rule),
{
    lemma_says_amount(entry, "window_seconds"@);
    lemma_says_amount(entry, "max_tokens"@);
    lemma_says_amount(entry, "max_requests"@);
    lemma_says_amount(entry, "max_cost"@);
    let window = quantity(entry.number_field("window_seconds"@));
    assert(says_amount(entry, "window_seconds"@, window));
    if let Some(scope) = said_text(entry, "scope"@) {
        if all_ascii(scope) {
            lemma_scope_name(scope, rule.scope);
        }
    }
}

/// An entry has no fault if it is a rule, and one if it is none.
proof fn lemma_fault(entry: Tree)
    ensures
        is_rule(entry) ==> Row::of(entry).fault() is None,
        is_no_rule(entry) ==> Row::of(entry).fault() is Some,
        is_no_rule(entry) ==> Row::of(entry).fault() == Some(complaint(entry)),
{
    if let Some(scope) = said_text(entry, "scope"@) {
        if all_ascii(scope) {
            lemma_scope_name(scope, Scope::Global);
            lemma_scope_name(scope, Scope::Tenant);
            lemma_scope_name(scope, Scope::User);
            assert(scope_name(Scope::Global) == "global"@);
            assert(scope_name(Scope::Tenant) == "tenant"@);
            assert(scope_name(Scope::User) == "user"@);
            assert(crate::rules::lowered(scope) =~= without_capitals(scope));
        }
    }
}

/// Rows without a fault have no first one, and rows up to one with a fault have that.
proof fn lemma_first_fault(rows: Seq<Row>)
    ensures
        crate::rules::first_fault(rows) is None <==> forall|i: int|
            0 <= i < rows.len() ==> (#[trigger] rows[i]).fault() is None,
        crate::rules::first_fault(rows) matches Some(fault) ==> exists|i: int|
            0 <= i < rows.len() && (#[trigger] rows[i]).fault() == Some(fault) && forall|j: int|
                0 <= j < i ==> (#[trigger] rows[j]).fault() is None,
    decreases rows.len(),
{
    if rows.len() > 0 {
        let shorter = rows.drop_last();
        lemma_first_fault(shorter);
        assert forall|i: int| 0 <= i < shorter.len() implies (#[trigger] rows[i])
            == shorter[i] by {}
        let last = rows[rows.len() - 1];
        if let Some(fault) = crate::rules::first_fault(shorter) {
            let i = choose|i: int|
                0 <= i < shorter.len() && (#[trigger] shorter[i]).fault() == Some(fault)
                    && forall|j: int| 0 <= j < i ==> (#[trigger] shorter[j]).fault() is None;
            assert(rows[i].fault() == Some(fault));
            assert forall|j: int| 0 <= j < i implies (#[trigger] rows[j]).fault() is None by {
                assert(shorter[j].fault() is None);
            }
        } else {
            assert forall|j: int| 0 <= j < shorter.len() implies (
            #[trigger] rows[j]).fault() is None by {
                assert(shorter[j].fault() is None);
            }
            assert(last == rows.last());
        }
    }
}

/// A rules document is read as the rules that its entries say, one for each and in their
/// order. It is refused if it has no list of rules, if an entry has no model, or if one says
/// a scope that is none; a text that is no JSON is refused with the message of the parser.
pub proof fn a_document_says_its_rules(text: &str, result: Result<Vec<LimitRule>, String>)
    requires
        call_ensures(rules_from_json, (text,), result),
    ensures
        match json_parse(text@) {
            Ok(document) => match said(document, "rules"@) {
                Some(Tree::List(entries)) => {
                    &&& (forall|i: int| 0 <= i < entries.len() ==> is_rule(#[trigger] entries[i]))
                        ==> result is Ok
                    &&& (exists|i: int|
                        0 <= i < entries.len() && is_no_rule(#[trigger] entries[i]))
                        ==> result is Err
                    &&& forall|i: int|
                        0 <= i < entries.len() && is_no_rule(#[trigger] entries[i]) && (forall|
                            j: int,
                        | 0 <= j < i ==> is_rule(#[trigger] entries[j])) ==> result is Err
                            && result->Err_0@ == complaint(entries[i])
                    &&& result matches Ok(rules) ==> rules.len() == entries.len() && forall|i: int|
                        0 <= i < entries.len() ==> says_rule(#[trigger] entries[i], rules[i])
                },
                _ => result is Err && result->Err_0@ == "document has no \"rules\" array"@,
            },
            Err(message) => result is Err && result->Err_0@ == message,
        },
{
    if let Ok(document) = json_parse(text@) {
        if let Some(Tree::List(entries)) = said(document, "rules"@) {
            let rows = entries.map_values(|entry: Tree| Row::of(entry));
            lemma_first_fault(rows);
            assert forall|i: int| 0 <= i < entries.len() implies (#[trigger] rows[i])
                == Row::of(entries[i]) by {}
            assert forall|i: int| 0 <= i < entries.len() implies (is_rule(#[trigger] entries[i])
                ==> rows[i].fault() is None) && (is_no_rule(entries[i])
                ==> rows[i].fault() is Some) by {
                lemma_fault(entries[i]);
            }
            if forall|i: int| 0 <= i < entries.len() ==> is_rule(#[trigger] entries[i]) {
                assert forall|i: int| 0 <= i < rows.len() implies (
                #[trigger] rows[i]).fault() is None by {
                    assert(is_rule(entries[i]));
                }
            }
            if exists|i: int| 0 <= i < entries.len() && is_no_rule(#[trigger] entries[i]) {
                let i = choose|i: int| 0 <= i < entries.len() && is_no_rule(#[trigger] entries[i]);
                assert(rows[i].fault() is Some);
            }
            assert forall|i: int|
                0 <= i < entries.len() && is_no_rule(#[trigger] entries[i]) && (forall|j: int|
                    0 <= j < i ==> is_rule(#[trigger] entries[j])) implies result is Err
                && result->Err_0@ == complaint(entries[i]) by {
                lemma_fault(entries[i]);
                assert(rows[i].fault() is Some);
                let fault = crate::rules::first_fault(rows)->0;
                let first = choose|first: int|
                    0 <= first < rows.len() && (#[trigger] rows[first]).fault() == Some(fault)
                        && forall|j: int|
                        0 <= j < first ==> (#[trigger] rows[j]).fault() is None;
                if first < i {
                    assert(is_rule(entries[first]));
                    assert(rows[first].fault() is None);
                } else if i < first {
                    assert(rows[i].fault() is None);
                }
            }
            if let Ok(rules) = result {
                assert forall|i: int| 0 <= i < entries.len() implies says_rule(
                    #[trigger] entries[i],
                    rules[i],
                ) by {
                    assert(rows[i].describes(rules[i]));
                    assert(rows[i].fault() is None);
                    lemma_describes(entries[i], rules[i]);
                }
            }
        }
    }
}

} // verus!
