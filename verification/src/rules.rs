//! Rule definitions and scopes: one provider-style limit per `LimitRule`, keyed
//! per scope so the same rule can isolate a fleet, a tenant, or a user.

use crate::decimal::{notation, read_billionths};
use crate::fixed::SECOND;
use crate::json::{
    flag_field, integer_field, json_parse, json_tree, list_field, number_field, parse, text_field,
    text_view, Tree,
};
use crate::text::{integer_text, render_integer, same_text};
use std::str::FromStr;
use vstd::prelude::*;
use vstd::string::*;

verus! {

/// Where a limit is enforced. A request is keyed differently per scope so the
/// same rule isolates one global fleet, one tenant, or one user.
#[derive(Debug, Clone, Copy, PartialEq, Eq, Structural)]
pub enum Scope {
    /// A single limit shared across the whole fleet.
    Global,
    /// A limit enforced per tenant.
    Tenant,
    /// A limit enforced per user within a tenant.
    User,
}

/// What lowercasing makes of a text that holds characters beyond ASCII.
pub uninterp spec fn lowercase(text: Seq<char>) -> Seq<char>;

/// Whether a text holds ASCII characters only.
pub open spec fn all_ascii(text: Seq<char>) -> bool {
    forall|i: int| 0 <= i < text.len() ==> (#[trigger] text[i] as u32) < 128
}

/// The lowercase form of an ASCII character.
pub open spec fn ascii_lowercase(c: char) -> char {
    if 'A' <= c && c <= 'Z' {
        (c as u32 + 32) as char
    } else {
        c
    }
}

/// What lowercasing makes of a text.
pub open spec fn lowered(text: Seq<char>) -> Seq<char> {
    if all_ascii(text) {
        text.map_values(|c: char| ascii_lowercase(c))
    } else {
        lowercase(text)
    }
}

/// `str::to_lowercase` of the standard library. In a text of ASCII characters it changes
/// the letters `A` to `Z` and nothing else; of any other text its result is a function of
/// the text alone.
#[verifier::external_body]
fn to_lowercase(text: &str) -> (lower: String)
    ensures
        lower@ == if all_ascii(text@) {
            text@.map_values(|c: char| ascii_lowercase(c))
        } else {
            lowercase(text@)
        },
{
    text.to_lowercase()
}

impl Scope {
    /// The name of a scope.
    pub open spec fn text(self) -> Seq<char> {
        match self {
            Scope::Global => "global"@,
            Scope::Tenant => "tenant"@,
            Scope::User => "user"@,
        }
    }

    /// The scope that a lowercase name stands for.
    pub open spec fn named(name: Seq<char>) -> Option<Scope> {
        if name == "global"@ {
            Some(Scope::Global)
        } else if name == "tenant"@ {
            Some(Scope::Tenant)
        } else if name == "user"@ {
            Some(Scope::User)
        } else {
            None
        }
    }

    /// The name of the scope.
    pub fn as_str(&self) -> (name: &'static str)
        ensures
            name@ == self.text(),
    {
        match self {
            Scope::Global => "global",
            Scope::Tenant => "tenant",
            Scope::User => "user",
        }
    }

    /// Reads a scope from a name that is already lowercase.
    pub fn from_lowercase(name: &str) -> (result: Result<Scope, String>)
        ensures
            match Scope::named(name@) {
                Some(scope) => result == Ok::<Scope, String>(scope),
                None => result is Err && result->Err_0@ == "unknown scope \""@ + name@ + "\""@,
            },
    {
        if same_text(name, "global") {
            Ok(Scope::Global)
        } else if same_text(name, "tenant") {
            Ok(Scope::Tenant)
        } else if same_text(name, "user") {
            Ok(Scope::User)
        } else {
            let mut message: String = "unknown scope \"".to_owned();
            message.append(name);
            message.append("\"");
            Err(message)
        }
    }
}

impl FromStr for Scope {
    type Err = String;

    fn from_str(s: &str) -> (result: Result<Scope, String>)
        ensures
            match Scope::named(lowered(s@)) {
                Some(scope) => result == Ok::<Scope, String>(scope),
                None => result is Err && result->Err_0@ == "unknown scope \""@ + lowered(s@)
                    + "\""@,
            },
    {
        let lower: String = to_lowercase(s);
        Scope::from_lowercase(lower.as_str())
    }
}

/// One provider-style limit. Any subset of the `max_*` dimensions may be set; a
/// request must stay under every one that is.
#[derive(Debug)]
pub struct LimitRule {
    /// The model this rule applies to; `"*"` matches every model.
    pub model: String,
    /// The rolling window width in seconds.
    pub window_seconds: i64,
    /// Optional cap on token volume over the window.
    pub max_tokens: Option<i128>,
    /// Optional cap on request count over the window.
    pub max_requests: Option<i128>,
    /// Optional cap on dollar spend over the window.
    pub max_cost: Option<i128>,
    /// Optional cap on the number of in-flight requests.
    pub max_concurrent: Option<i64>,
    /// The scope the rule is enforced at.
    pub scope: Scope,
    /// The number of buckets the window is split into (memory/accuracy trade-off).
    pub buckets_per_window: i64,
    /// When true, keep an exact per-event log instead of buckets.
    pub precise: bool,
    /// Optional human-readable label.
    pub name: Option<String>,
}

/// The quotient rounded up.
pub open spec fn ceil_div(a: int, b: int) -> int {
    (a + b - 1) / b
}

/// The quotient rounded toward zero.
pub open spec fn trunc_div(a: int, b: int) -> int {
    if a >= 0 {
        a / b
    } else {
        -((-a) / b)
    }
}

/// Divides a quantity by a positive number, rounding toward zero.
pub fn truncate(a: i128, b: i128) -> (quotient: i128)
    requires
        b > 0,
    ensures
        quotient == trunc_div(a as int, b as int),
{
    a.checked_div(b).unwrap()
}

impl Clone for LimitRule {
    fn clone(&self) -> (copy: LimitRule)
        ensures
            copy == *self,
    {
        LimitRule {
            model: self.model.clone(),
            window_seconds: self.window_seconds,
            max_tokens: self.max_tokens,
            max_requests: self.max_requests,
            max_cost: self.max_cost,
            max_concurrent: self.max_concurrent,
            scope: self.scope,
            buckets_per_window: self.buckets_per_window,
            precise: self.precise,
            name: match &self.name {
                Some(name) => Some(name.clone()),
                None => None,
            },
        }
    }
}

impl LimitRule {
    /// The bucket width in seconds: zero for the exact per-event log, otherwise the
    /// window split into `buckets_per_window` parts, at least one, rounded up to the
    /// resolution of the clock.
    pub open spec fn width(&self) -> int {
        if self.precise {
            0
        } else {
            ceil_div(
                self.window_seconds as int,
                if self.buckets_per_window < 1 {
                    1
                } else {
                    self.buckets_per_window as int
                },
            )
        }
    }

    /// Whether the rule caps tokens, requests, or cost.
    pub open spec fn caps_usage(&self) -> bool {
        self.max_tokens is Some || self.max_requests is Some || self.max_cost is Some
    }

    /// Builds a rule with the standard defaults (Global scope, 60 buckets).
    pub fn new(model: &str, window_seconds: i64) -> (rule: LimitRule)
        ensures
            rule.model@ == model@,
            rule.window_seconds == window_seconds,
            rule.max_tokens is None,
            rule.max_requests is None,
            rule.max_cost is None,
            rule.max_concurrent is None,
            rule.scope == Scope::Global,
            rule.buckets_per_window == 60,
            !rule.precise,
            rule.name is None,
    {
        LimitRule {
            model: model.to_owned(),
            window_seconds,
            max_tokens: None,
            max_requests: None,
            max_cost: None,
            max_concurrent: None,
            scope: Scope::Global,
            buckets_per_window: 60,
            precise: false,
            name: None,
        }
    }

    /// Sets the token cap.
    pub fn max_tokens(self, v: i128) -> (rule: LimitRule)
        ensures
            rule == (LimitRule { max_tokens: Some(v), ..self }),
    {
        LimitRule { max_tokens: Some(v), ..self }
    }

    /// Sets the request cap.
    pub fn max_requests(self, v: i128) -> (rule: LimitRule)
        ensures
            rule == (LimitRule { max_requests: Some(v), ..self }),
    {
        LimitRule { max_requests: Some(v), ..self }
    }

    /// Sets the dollar-spend cap.
    pub fn max_cost(self, v: i128) -> (rule: LimitRule)
        ensures
            rule == (LimitRule { max_cost: Some(v), ..self }),
    {
        LimitRule { max_cost: Some(v), ..self }
    }

    /// Sets the in-flight concurrency cap.
    pub fn max_concurrent(self, v: i64) -> (rule: LimitRule)
        ensures
            rule == (LimitRule { max_concurrent: Some(v), ..self }),
    {
        LimitRule { max_concurrent: Some(v), ..self }
    }

    /// Sets the enforcement scope.
    pub fn scope(self, s: Scope) -> (rule: LimitRule)
        ensures
            rule == (LimitRule { scope: s, ..self }),
    {
        LimitRule { scope: s, ..self }
    }

    /// Tunes the number of buckets per window.
    pub fn buckets_per_window(self, n: i64) -> (rule: LimitRule)
        ensures
            rule == (LimitRule { buckets_per_window: n, ..self }),
    {
        LimitRule { buckets_per_window: n, ..self }
    }

    /// Switches the rule to the exact per-event log.
    pub fn precise(self, p: bool) -> (rule: LimitRule)
        ensures
            rule == (LimitRule { precise: p, ..self }),
    {
        LimitRule { precise: p, ..self }
    }

    /// Sets a human-readable label.
    pub fn name(self, name: &str) -> (rule: LimitRule)
        ensures
            rule.name is Some,
            rule.name->0@ == name@,
            rule == (LimitRule { name: rule.name, ..self }),
    {
        LimitRule { name: Some(name.to_owned()), ..self }
    }

    /// The bucket width in seconds: 0 selects the exact per-event log, otherwise
    /// `window_seconds / buckets_per_window`, rounded up to the resolution of the clock.
    pub fn bucket_seconds(&self) -> (width: i64)
        ensures
            width == self.width(),
    {
        if self.precise {
            return 0;
        }
        let buckets: i64 = if self.buckets_per_window < 1 {
            1
        } else {
            self.buckets_per_window
        };
        proof {
            lemma_ceil_div_bounds(self.window_seconds as int, buckets as int);
        }
        (self.window_seconds as i128 + buckets as i128 - 1).checked_div_euclid(
            buckets as i128,
        ).unwrap() as i64
    }

    /// The text of a rule's label.
    pub open spec fn label_text(&self) -> Seq<char> {
        match self.name {
            Some(name) => name@,
            None => self.model@ + ":"@ + self.scope.text() + ":"@ + integer_text(
                trunc_div(self.window_seconds as int, SECOND as int),
            ) + "s"@,
        }
    }

    /// The rule's name, or a derived `model:scope:Ns` label.
    pub fn label(&self) -> (label: String)
        ensures
            label@ == self.label_text(),
    {
        match &self.name {
            Some(name) => name.clone(),
            None => {
                let mut label: String = self.model.clone();
                label.append(":");
                label.append(self.scope.as_str());
                label.append(":");
                let seconds: i128 = truncate(self.window_seconds as i128, SECOND as i128);
                label.append(render_integer(seconds).as_str());
                label.append("s");
                label
            },
        }
    }

    /// Whether the rule caps tokens, requests, or cost (vs concurrency only).
    pub fn has_usage_limit(&self) -> (limited: bool)
        ensures
            limited == self.caps_usage(),
    {
        self.max_tokens.is_some() || self.max_requests.is_some() || self.max_cost.is_some()
    }
}

/// A quotient rounded up stays in the range of `i64`.
proof fn lemma_ceil_div_bounds(a: int, b: int)
    requires
        i64::MIN <= a <= i64::MAX,
        1 <= b <= i64::MAX,
    ensures
        i64::MIN <= ceil_div(a, b) <= i64::MAX,
{
    assert(i64::MIN <= (a + b - 1) / b <= i64::MAX) by (nonlinear_arith)
        requires
            i64::MIN <= a <= i64::MAX,
            1 <= b,
    ;
}

/// One row of a rules document: what it says of each setting, if anything. A number is in
/// decimal notation.
pub struct RuleRow {
    pub model: Option<String>,
    pub window_seconds: Option<String>,
    pub max_tokens: Option<String>,
    pub max_requests: Option<String>,
    pub max_cost: Option<String>,
    pub max_concurrent: Option<i64>,
    pub scope: Option<String>,
    pub buckets_per_window: Option<i64>,
    pub precise: Option<bool>,
    pub name: Option<String>,
}

/// A row as a mathematical value.
pub struct Row {
    pub model: Option<Seq<char>>,
    pub window_seconds: Option<Seq<char>>,
    pub max_tokens: Option<Seq<char>>,
    pub max_requests: Option<Seq<char>>,
    pub max_cost: Option<Seq<char>>,
    pub max_concurrent: Option<i64>,
    pub scope: Option<Seq<char>>,
    pub buckets_per_window: Option<i64>,
    pub precise: Option<bool>,
    pub name: Option<Seq<char>>,
}

impl View for RuleRow {
    type V = Row;

    open spec fn view(&self) -> Row {
        Row {
            model: text_view(self.model),
            window_seconds: text_view(self.window_seconds),
            max_tokens: text_view(self.max_tokens),
            max_requests: text_view(self.max_requests),
            max_cost: text_view(self.max_cost),
            max_concurrent: self.max_concurrent,
            scope: text_view(self.scope),
            buckets_per_window: self.buckets_per_window,
            precise: self.precise,
            name: text_view(self.name),
        }
    }
}

impl Row {
    /// The row that an entry of a rules document stands for. A setting of another kind
    /// than expected counts as not there.
    pub open spec fn of(entry: Tree) -> Row {
        Row {
            model: entry.text_field("model"@),
            window_seconds: entry.number_field("window_seconds"@),
            max_tokens: entry.number_field("max_tokens"@),
            max_requests: entry.number_field("max_requests"@),
            max_cost: entry.number_field("max_cost"@),
            max_concurrent: entry.integer_field("max_concurrent"@),
            scope: entry.text_field("scope"@),
            buckets_per_window: entry.integer_field("buckets_per_window"@),
            precise: entry.flag_field("precise"@),
            name: entry.text_field("name"@),
        }
    }

    /// Why no rule can be made of the row, if none can.
    pub open spec fn fault(self) -> Option<Seq<char>> {
        if self.model is None {
            Some("rule is missing \"model\""@)
        } else if self.scope is Some && Scope::named(lowered(self.scope->0)) is None {
            Some("unknown scope \""@ + lowered(self.scope->0) + "\""@)
        } else {
            None
        }
    }

    /// Whether a rule says what the row does. A window is a minute, a scope global and a
    /// window split into 60 buckets where the row says nothing of it.
    pub open spec fn describes(self, rule: LimitRule) -> bool {
        &&& self.model == Some(rule.model@)
        &&& rule.window_seconds == match quantity(self.window_seconds) {
            Some(window) => clamped(window),
            None => 60 * SECOND,
        }
        &&& amount_is(rule.max_tokens, self.max_tokens)
        &&& amount_is(rule.max_requests, self.max_requests)
        &&& amount_is(rule.max_cost, self.max_cost)
        &&& rule.max_concurrent == self.max_concurrent
        &&& rule.scope == match self.scope {
            Some(scope) => Scope::named(lowered(scope))->0,
            None => Scope::Global,
        }
        &&& rule.buckets_per_window == match self.buckets_per_window {
            Some(buckets) => buckets,
            None => 60,
        }
        &&& rule.precise == (self.precise == Some(true))
        &&& text_view(rule.name) == self.name
    }
}

/// The quantity in billionths that a setting gives.
pub open spec fn quantity(setting: Option<Seq<char>>) -> Option<int> {
    match setting {
        Some(text) => match notation(text) {
            Some(parts) => Some(parts.billionths()),
            None => None,
        },
        None => None,
    }
}

/// A quantity kept within the range of `i64`.
pub open spec fn clamped(x: int) -> int {
    if x > i64::MAX {
        i64::MAX as int
    } else if x < i64::MIN {
        i64::MIN as int
    } else {
        x
    }
}

/// Whether a cap is the one that a setting gives.
pub open spec fn amount_is(cap: Option<i128>, setting: Option<Seq<char>>) -> bool {
    match quantity(setting) {
        Some(amount) => cap is Some && cap->0 == amount,
        None => cap is None,
    }
}

/// Reads the quantity that a setting gives.
fn read_quantity(setting: &Option<String>) -> (amount: Option<i128>)
    ensures
        amount_is(amount, text_view(*setting)),
{
    match setting {
        Some(text) => read_billionths(text.as_str()),
        None => None,
    }
}

/// The first fault among the rows of a document, if any has one.
pub open spec fn first_fault(rows: Seq<Row>) -> Option<Seq<char>>
    decreases rows.len(),
{
    if rows.len() == 0 {
        None
    } else {
        match first_fault(rows.drop_last()) {
            Some(fault) => Some(fault),
            None => rows.last().fault(),
        }
    }
}

/// What a document with the given rows comes to: its rules in the order of the rows, or
/// its first fault.
pub open spec fn rows_give(rows: Seq<Row>, result: Result<Vec<LimitRule>, String>) -> bool {
    match first_fault(rows) {
        Some(fault) => result is Err && result->Err_0@ == fault,
        None => {
            &&& result is Ok
            &&& result->Ok_0.len() == rows.len()
            &&& forall|i: int|
                0 <= i < rows.len() ==> (#[trigger] rows[i]).describes(result->Ok_0[i])
        },
    }
}

impl RuleRow {
    /// Makes a rule of the row.
    pub fn rule(&self) -> (result: Result<LimitRule, String>)
        ensures
            match self@.fault() {
                Some(fault) => result is Err && result->Err_0@ == fault,
                None => result is Ok && self@.describes(result->Ok_0),
            },
    {
        let model: &String = match &self.model {
            Some(model) => model,
            None => {
                return Err("rule is missing \"model\"".to_owned());
            },
        };
        let window: i64 = match read_quantity(&self.window_seconds) {
            Some(window) => if window > i64::MAX as i128 {
                i64::MAX
            } else if window < i64::MIN as i128 {
                i64::MIN
            } else {
                window as i64
            },
            None => 60 * SECOND,
        };
        let mut rule: LimitRule = LimitRule::new(model.as_str(), window);
        rule.max_tokens = read_quantity(&self.max_tokens);
        rule.max_requests = read_quantity(&self.max_requests);
        rule.max_cost = read_quantity(&self.max_cost);
        rule.max_concurrent = self.max_concurrent;
        if let Some(scope) = &self.scope {
            match Scope::from_str(scope.as_str()) {
                Ok(scope) => {
                    rule.scope = scope;
                },
                Err(message) => {
                    return Err(message);
                },
            }
        }
        if let Some(buckets) = self.buckets_per_window {
            rule.buckets_per_window = buckets;
        }
        if let Some(precise) = self.precise {
            rule.precise = precise;
        }
        rule.name = match &self.name {
            Some(name) => Some(name.clone()),
            None => None,
        };
        Ok(rule)
    }

    /// Reads a row from an entry of a rules document.
    fn read(entry: &serde_json::Value) -> (row: RuleRow)
        ensures
            row@ == Row::of(json_tree(*entry)),
    {
        RuleRow {
            model: text_field(entry, "model"),
            window_seconds: number_field(entry, "window_seconds"),
            max_tokens: number_field(entry, "max_tokens"),
            max_requests: number_field(entry, "max_requests"),
            max_cost: number_field(entry, "max_cost"),
            max_concurrent: integer_field(entry, "max_concurrent"),
            scope: text_field(entry, "scope"),
            buckets_per_window: integer_field(entry, "buckets_per_window"),
            precise: flag_field(entry, "precise"),
            name: text_field(entry, "name"),
        }
    }
}

/// A fault in a part of a document is its first fault, whatever comes after.
proof fn lemma_fault_stands(rows: Seq<Row>, n: int)
    requires
        0 <= n <= rows.len(),
        first_fault(rows.take(n)) is Some,
    ensures
        first_fault(rows) == first_fault(rows.take(n)),
    decreases rows.len() - n,
{
    if n < rows.len() {
        assert(rows.take(n + 1).drop_last() =~= rows.take(n));
        lemma_fault_stands(rows, n + 1);
    } else {
        assert(rows.take(n) =~= rows);
    }
}

/// Makes the rules of the rows of a document.
pub fn rules_from_rows(rows: &Vec<RuleRow>) -> (result: Result<Vec<LimitRule>, String>)
    ensures
        rows_give(rows@.map_values(|row: RuleRow| row@), result),
{
    let ghost seen = rows@.map_values(|row: RuleRow| row@);
    let mut rules: Vec<LimitRule> = Vec::new();
    let mut i: usize = 0;
    while i < rows.len()
        invariant
            0 <= i <= rows.len(),
            seen == rows@.map_values(|row: RuleRow| row@),
            first_fault(seen.take(i as int)) is None,
            rules.len() == i,
            forall|j: int| 0 <= j < i ==> (#[trigger] seen[j]).describes(rules[j]),
        decreases rows.len() - i,
    {
        assert(seen.take(i + 1).drop_last() =~= seen.take(i as int));
        assert(seen.take(i + 1).last() == rows[i as int]@);
        match rows[i].rule() {
            Ok(rule) => {
                rules.push(rule);
            },
            Err(message) => {
                proof {
                    lemma_fault_stands(seen, i + 1);
                }
                return Err(message);
            },
        }
        i += 1;
    }
    assert(seen.take(i as int) =~= seen);
    Ok(rules)
}

/// What a rules document comes to: an object with a list of rows under `rules`.
pub open spec fn document_gives(document: Tree, result: Result<Vec<LimitRule>, String>) -> bool {
    match document.list_field("rules"@) {
        Some(list) => rows_give(list.map_values(|entry: Tree| Row::of(entry)), result),
        None => result is Err && result->Err_0@ == "document has no \"rules\" array"@,
    }
}

/// Parses a rules document into `LimitRule`s.
pub fn rules_from_json(text: &str) -> (result: Result<Vec<LimitRule>, String>)
    ensures
        match json_parse(text@) {
            Ok(document) => document_gives(document, result),
            Err(message) => result is Err && result->Err_0@ == message,
        },
{
    let document: serde_json::Value = match parse(text) {
        Ok(document) => document,
        Err(message) => {
            return Err(message);
        },
    };
    let entries: &Vec<serde_json::Value> = match list_field(&document, "rules") {
        Some(entries) => entries,
        None => {
            return Err("document has no \"rules\" array".to_owned());
        },
    };
    let ghost list = json_tree(document).list_field("rules"@)->0;
    let mut rows: Vec<RuleRow> = Vec::new();
    let mut i: usize = 0;
    while i < entries.len()
        invariant
            0 <= i <= entries.len(),
            entries@.len() == list.len(),
            forall|j: int| 0 <= j < list.len() ==> json_tree(#[trigger] entries@[j]) == list[j],
            rows.len() == i,
            forall|j: int| 0 <= j < i ==> (#[trigger] rows[j])@ == Row::of(list[j]),
        decreases entries.len() - i,
    {
        rows.push(RuleRow::read(&entries[i]));
        i += 1;
    }
    assert(rows@.map_values(|row: RuleRow| row@) =~= list.map_values(
        |entry: Tree| Row::of(entry),
    ));
    rules_from_rows(&rows)
}

} // verus!
