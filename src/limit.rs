//! Limits, the conditions that scope them, and the request values they read.

use vstd::prelude::*;
use crate::keys::{key_of, same_limit};

verus! {

broadcast use vstd::string::group_string_axioms;

/// The comparison of a condition.
#[derive(Clone, Copy, Debug, PartialEq, Eq, Structural)]
pub enum Operator {
    Equal,
    NotEqual,
}

/// A condition as a value: variable, comparison, literal.
pub struct ConditionView {
    pub var: Seq<char>,
    pub op: Operator,
    pub literal: Seq<char>,
}

/// A request's values: pairs of variable and value. Where a variable occurs
/// twice, its first pair counts.
pub open spec fn values_view(values: Seq<(String, String)>) -> Seq<(Seq<char>, Seq<char>)> {
    values.map_values(|p: (String, String)| (p.0@, p.1@))
}

/// The value bound to `key`: the first pair that names it.
pub open spec fn lookup(values: Seq<(Seq<char>, Seq<char>)>, key: Seq<char>) -> Option<Seq<char>>
    decreases values.len(),
{
    if values.len() == 0 {
        None
    } else if values[0].0 == key {
        Some(values[0].1)
    } else {
        lookup(values.drop_first(), key)
    }
}

/// Whether condition `c` holds of `values`: its variable is bound, and the
/// comparison holds between the bound value and the literal.
pub open spec fn condition_holds(c: ConditionView, values: Seq<(Seq<char>, Seq<char>)>) -> bool {
    match lookup(values, c.var) {
        Some(v) => (v == c.literal) == (c.op == Operator::Equal),
        None => false,
    }
}

pub open spec fn is_ws(c: char) -> bool {
    c == ' ' || c == '\t' || c == '\n' || c == '\r'
}

pub open spec fn is_ident_char(c: char) -> bool {
    ('a' <= c && c <= 'z') || ('A' <= c && c <= 'Z') || ('0' <= c && c <= '9') || c == '_'
        || c == '.'
}

pub open spec fn is_quote(c: char) -> bool {
    c == '"' || c == '\''
}

/// The first position at or after `i` that is not whitespace.
pub open spec fn skip_ws(s: Seq<char>, i: int) -> int
    decreases s.len() - i,
{
    if 0 <= i < s.len() && is_ws(s[i]) {
        skip_ws(s, i + 1)
    } else {
        i
    }
}

/// The first position at or after `i` that does not belong to an identifier.
pub open spec fn skip_ident(s: Seq<char>, i: int) -> int
    decreases s.len() - i,
{
    if 0 <= i < s.len() && is_ident_char(s[i]) {
        skip_ident(s, i + 1)
    } else {
        i
    }
}

/// The first position at or after `i` that holds `q`, or the length.
pub open spec fn find_char(s: Seq<char>, i: int, q: char) -> int
    decreases s.len() - i,
{
    if 0 <= i < s.len() && s[i] != q {
        find_char(s, i + 1, q)
    } else {
        i
    }
}

/// The operator written at `c`, if any.
pub open spec fn operator_at(s: Seq<char>, c: int) -> Option<Operator> {
    if 0 <= c && c + 1 < s.len() && s[c + 1] == '=' && s[c] == '=' {
        Some(Operator::Equal)
    } else if 0 <= c && c + 1 < s.len() && s[c + 1] == '=' && s[c] == '!' {
        Some(Operator::NotEqual)
    } else {
        None
    }
}

/// The grammar of a condition, `VAR OP "LIT"`: an identifier (letters, digits,
/// `_` and `.`), `==` or `!=`, and a literal in double or single quotes that
/// does not hold its quote; whitespace may stand around each part.
pub open spec fn parse_condition(s: Seq<char>) -> Option<ConditionView> {
    let a = skip_ws(s, 0);
    let b = skip_ident(s, a);
    let c = skip_ws(s, b);
    let d = skip_ws(s, c + 2);
    if b == a || operator_at(s, c) is None || d >= s.len() || !is_quote(s[d]) {
        None
    } else {
        let e = find_char(s, d + 1, s[d]);
        if e >= s.len() || skip_ws(s, e + 1) != s.len() {
            None
        } else {
            Some(ConditionView { var: s.subrange(a, b), op: operator_at(s, c)->0, literal: s.subrange(d + 1, e) })
        }
    }
}

fn is_ws_char(c: char) -> (r: bool)
    ensures
        r == is_ws(c),
{
    c == ' ' || c == '\t' || c == '\n' || c == '\r'
}

fn is_ident_char_exec(c: char) -> (r: bool)
    ensures
        r == is_ident_char(c),
{
    ('a' <= c && c <= 'z') || ('A' <= c && c <= 'Z') || ('0' <= c && c <= '9') || c == '_'
        || c == '.'
}

fn skip_ws_from(s: &str, n: usize, i: usize) -> (r: usize)
    requires
        n == s@.len(),
        i <= n,
    ensures
        r as int == skip_ws(s@, i as int),
        i <= r <= n,
{
    let mut j = i;
    while j < n && is_ws_char(s.get_char(j))
        invariant
            n == s@.len(),
            i <= j <= n,
            skip_ws(s@, j as int) == skip_ws(s@, i as int),
        decreases n - j,
    {
        j += 1;
    }
    j
}

fn skip_ident_from(s: &str, n: usize, i: usize) -> (r: usize)
    requires
        n == s@.len(),
        i <= n,
    ensures
        r as int == skip_ident(s@, i as int),
        i <= r <= n,
{
    let mut j = i;
    while j < n && is_ident_char_exec(s.get_char(j))
        invariant
            n == s@.len(),
            i <= j <= n,
            skip_ident(s@, j as int) == skip_ident(s@, i as int),
        decreases n - j,
    {
        j += 1;
    }
    j
}

fn find_char_from(s: &str, n: usize, i: usize, q: char) -> (r: usize)
    requires
        n == s@.len(),
        i <= n,
    ensures
        r as int == find_char(s@, i as int, q),
        i <= r <= n,
{
    let mut j = i;
    while j < n && s.get_char(j) != q
        invariant
            n == s@.len(),
            i <= j <= n,
            find_char(s@, j as int, q) == find_char(s@, i as int, q),
        decreases n - j,
    {
        j += 1;
    }
    j
}

/// A predicate over one request variable.
#[derive(Debug)]
pub struct Condition {
    var: String,
    op: Operator,
    literal: String,
}

impl View for Condition {
    type V = ConditionView;

    closed spec fn view(&self) -> ConditionView {
        ConditionView { var: self.var@, op: self.op, literal: self.literal@ }
    }
}

impl Condition {
    /// Reads a condition written `VAR OP "LIT"`; fails on any other text.
    pub fn parse(text: &str) -> (r: Option<Condition>)
        ensures
            match r {
                Some(c) => parse_condition(text@) == Some(c@),
                None => parse_condition(text@) is None,
            },
    {
        let ghost s = text@;
        let n = text.unicode_len();
        let a = skip_ws_from(text, n, 0);
        let b = skip_ident_from(text, n, a);
        let c = skip_ws_from(text, n, b);
        if b == a || c >= n || c + 1 >= n || text.get_char(c + 1) != '=' {
            return None;
        }
        let first = text.get_char(c);
        let op = if first == '=' {
            Operator::Equal
        } else if first == '!' {
            Operator::NotEqual
        } else {
            return None;
        };
        let d = skip_ws_from(text, n, c + 2);
        if d >= n {
            return None;
        }
        let q = text.get_char(d);
        if q != '"' && q != '\'' {
            return None;
        }
        let e = find_char_from(text, n, d + 1, q);
        if e >= n {
            return None;
        }
        let f = skip_ws_from(text, n, e + 1);
        if f != n {
            return None;
        }
        let var = text.substring_char(a, b).to_string();
        let literal = text.substring_char(d + 1, e).to_string();
        Some(Condition { var, op, literal })
    }

    pub fn var(&self) -> (r: &String)
        ensures
            r@ == self@.var,
    {
        &self.var
    }

    pub fn op(&self) -> (r: Operator)
        ensures
            r == self@.op,
    {
        self.op
    }

    pub fn literal(&self) -> (r: &String)
        ensures
            r@ == self@.literal,
    {
        &self.literal
    }

    /// A copy with the same view.
    pub fn duplicate(&self) -> (r: Condition)
        ensures
            r@ == self@,
    {
        Condition { var: self.var.clone(), op: self.op, literal: self.literal.clone() }
    }

    /// Whether both conditions are the same.
    pub fn same_as(&self, other: &Condition) -> (r: bool)
        ensures
            r == (self@ == other@),
    {
        self.op == other.op && self.var == other.var && self.literal == other.literal
    }

    /// Whether this condition holds of `values`.
    pub fn holds(&self, values: &Vec<(String, String)>) -> (r: bool)
        ensures
            r == condition_holds(self@, values_view(values@)),
    {
        match lookup_value(values, &self.var) {
            Some(v) => {
                let same = *v == self.literal;
                match self.op {
                    Operator::Equal => same,
                    Operator::NotEqual => !same,
                }
            },
            None => false,
        }
    }
}

/// The value that `values` binds to `key`, per `lookup`.
pub fn lookup_value<'a>(values: &'a Vec<(String, String)>, key: &String) -> (r: Option<&'a String>)
    ensures
        match r {
            Some(v) => lookup(values_view(values@), key@) == Some(v@),
            None => lookup(values_view(values@), key@) is None,
        },
{
    let ghost vv = values_view(values@);
    let n = values.len();
    let mut i: usize = 0;
    proof {
        assert(vv.subrange(0, n as int) == vv);
    }
    while i < n
        invariant
            n == values.len(),
            i <= n,
            vv == values_view(values@),
            lookup(vv, key@) == lookup(vv.subrange(i as int, n as int), key@),
        decreases n - i,
    {
        proof {
            let rest = vv.subrange(i as int, n as int);
            assert(rest.drop_first() == vv.subrange(i + 1, n as int));
            assert(rest[0] == vv[i as int]);
        }
        if values[i].0 == *key {
            return Some(&values[i].1);
        }
        i += 1;
    }
    None
}

/// A limit as a value.
pub struct LimitView {
    pub namespace: Seq<char>,
    pub max_value: u64,
    pub seconds: u64,
    pub conditions: Seq<ConditionView>,
    pub variables: Seq<Seq<char>>,
    pub id: Option<Seq<char>>,
    pub name: Option<Seq<char>>,
}

impl LimitView {
    /// A limit applies to `values` when every condition holds and every
    /// variable is bound.
    pub open spec fn applies(self, values: Seq<(Seq<char>, Seq<char>)>) -> bool {
        &&& forall|i: int| 0 <= i < self.conditions.len() ==> condition_holds(#[trigger] self.conditions[i], values)
        &&& forall|j: int| 0 <= j < self.variables.len() ==> lookup(values, #[trigger] self.variables[j]) is Some
    }

    /// A limit without variables keeps a single counter.
    pub open spec fn is_simple(self) -> bool {
        self.variables.len() == 0
    }
}

pub open spec fn opt_view(o: Option<String>) -> Option<Seq<char>> {
    match o {
        Some(s) => Some(s@),
        None => None,
    }
}

pub open spec fn strings_view(v: Seq<String>) -> Seq<Seq<char>> {
    v.map_values(|s: String| s@)
}

pub open spec fn conditions_view(v: Seq<Condition>) -> Seq<ConditionView> {
    v.map_values(|c: Condition| c@)
}

/// Whether every text of `conds` is a condition.
pub open spec fn all_parse(conds: Seq<String>) -> bool {
    forall|i: int| 0 <= i < conds.len() ==> (#[trigger] parse_condition(conds[i]@)) is Some
}

/// Why a limit could not be made.
#[derive(Debug)]
pub enum LimitError {
    /// The window is zero seconds long.
    ZeroWindow,
    /// The text is not a condition.
    InvalidCondition(String),
}

/// A cap on a count per window, scoped to a namespace by conditions and split
/// into one counter per value of its variables.
#[derive(Debug)]
pub struct Limit {
    namespace: String,
    max_value: u64,
    seconds: u64,
    conditions: Vec<Condition>,
    variables: Vec<String>,
    id: Option<String>,
    name: Option<String>,
}

impl View for Limit {
    type V = LimitView;

    closed spec fn view(&self) -> LimitView {
        LimitView {
            namespace: self.namespace@,
            max_value: self.max_value,
            seconds: self.seconds,
            conditions: conditions_view(self.conditions@),
            variables: strings_view(self.variables@),
            id: opt_view(self.id),
            name: opt_view(self.name),
        }
    }
}

pub fn clone_opt(o: &Option<String>) -> (r: Option<String>)
    ensures
        opt_view(*o) == opt_view(r),
{
    match o {
        Some(s) => Some(s.clone()),
        None => None,
    }
}

pub fn clone_strings(v: &Vec<String>) -> (r: Vec<String>)
    ensures
        strings_view(r@) == strings_view(v@),
{
    let mut r: Vec<String> = Vec::new();
    let mut i: usize = 0;
    while i < v.len()
        invariant
            i <= v.len(),
            r@.len() == i,
            forall|k: int| 0 <= k < i ==> r@[k]@ == v@[k]@,
        decreases v.len() - i,
    {
        r.push(v[i].clone());
        i += 1;
    }
    proof {
        assert(strings_view(r@) =~= strings_view(v@));
    }
    r
}

pub fn clone_conditions(v: &Vec<Condition>) -> (r: Vec<Condition>)
    ensures
        conditions_view(r@) == conditions_view(v@),
{
    let mut r: Vec<Condition> = Vec::new();
    let mut i: usize = 0;
    while i < v.len()
        invariant
            i <= v.len(),
            r@.len() == i,
            forall|k: int| 0 <= k < i ==> r@[k]@ == v@[k]@,
        decreases v.len() - i,
    {
        r.push(v[i].duplicate());
        i += 1;
    }
    proof {
        assert(conditions_view(r@) =~= conditions_view(v@));
    }
    r
}

impl Limit {
    /// Makes a limit of `max_value` per `seconds` in `namespace`, reading each
    /// condition text. Fails on a zero window, else on the first text that is
    /// not a condition.
    pub fn new(namespace: &str, max_value: u64, seconds: u64, conditions: Vec<String>, variables: Vec<String>) -> (r: Result<Limit, LimitError>)
        ensures
            seconds == 0 ==> (r is Err && r->Err_0 is ZeroWindow),
            seconds > 0 && !all_parse(conditions@) ==> (r matches Err(LimitError::InvalidCondition(t))
                && exists|i: int| 0 <= i < conditions@.len() && conditions@[i]@ == t@
                    && parse_condition(t@) is None
                    && forall|k: int| 0 <= k < i ==> (#[trigger] parse_condition(conditions@[k]@)) is Some),
            seconds > 0 && all_parse(conditions@) ==> (r matches Ok(l) && l@ == (LimitView {
                namespace: namespace@,
                max_value,
                seconds,
                conditions: conditions@.map_values(|c: String| parse_condition(c@)->0),
                variables: strings_view(variables@),
                id: None,
                name: None,
            })),
    {
        if seconds == 0 {
            return Err(LimitError::ZeroWindow);
        }
        let mut parsed: Vec<Condition> = Vec::new();
        let mut i: usize = 0;
        while i < conditions.len()
            invariant
                seconds > 0,
                i <= conditions.len(),
                parsed@.len() == i,
                forall|k: int| 0 <= k < i ==> (#[trigger] parse_condition(conditions@[k]@)) == Some(parsed@[k]@),
            decreases conditions.len() - i,
        {
            match Condition::parse(conditions[i].as_str()) {
                Some(c) => parsed.push(c),
                None => {
                    let t = conditions[i].clone();
                    return Err(LimitError::InvalidCondition(t));
                },
            }
            i += 1;
        }
        let l = Limit {
            namespace: namespace.to_string(),
            max_value,
            seconds,
            conditions: parsed,
            variables,
            id: None,
            name: None,
        };
        proof {
            assert(conditions_view(parsed@) =~= conditions@.map_values(|c: String| parse_condition(c@)->0));
        }
        Ok(l)
    }

    pub fn namespace(&self) -> (r: &String)
        ensures
            r@ == self@.namespace,
    {
        &self.namespace
    }

    pub fn max_value(&self) -> (r: u64)
        ensures
            r == self@.max_value,
    {
        self.max_value
    }

    /// The window length in seconds.
    pub fn seconds(&self) -> (r: u64)
        ensures
            r == self@.seconds,
    {
        self.seconds
    }

    /// The window length in seconds.
    pub fn window(&self) -> (r: u64)
        ensures
            r == self@.seconds,
    {
        self.seconds
    }

    pub fn conditions(&self) -> (r: &Vec<Condition>)
        ensures
            conditions_view(r@) == self@.conditions,
    {
        &self.conditions
    }

    pub fn variables(&self) -> (r: &Vec<String>)
        ensures
            strings_view(r@) == self@.variables,
    {
        &self.variables
    }

    pub fn id(&self) -> (r: &Option<String>)
        ensures
            opt_view(*r) == self@.id,
    {
        &self.id
    }

    pub fn name(&self) -> (r: &Option<String>)
        ensures
            opt_view(*r) == self@.name,
    {
        &self.name
    }

    /// Gives the limit an identity: limits with the same id are the same limit.
    pub fn set_id(&mut self, id: String)
        ensures
            final(self)@ == (LimitView { id: Some(id@), ..old(self)@ }),
    {
        self.id = Some(id);
    }

    pub fn set_name(&mut self, name: String)
        ensures
            final(self)@ == (LimitView { name: Some(name@), ..old(self)@ }),
    {
        self.name = Some(name);
    }

    pub fn set_max_value(&mut self, max_value: u64)
        ensures
            final(self)@ == (LimitView { max_value, ..old(self)@ }),
    {
        self.max_value = max_value;
    }

    pub fn is_simple(&self) -> (r: bool)
        ensures
            r == self@.is_simple(),
    {
        self.variables.len() == 0
    }

    /// Whether the limit applies to a request with `values`: every condition
    /// holds and every variable is bound.
    pub fn applies(&self, values: &Vec<(String, String)>) -> (r: bool)
        ensures
            r == self@.applies(values_view(values@)),
    {
        let ghost vv = values_view(values@);
        let mut i: usize = 0;
        while i < self.conditions.len()
            invariant
                i <= self.conditions.len(),
                vv == values_view(values@),
                forall|k: int| 0 <= k < i ==> condition_holds(#[trigger] self@.conditions[k], vv),
            decreases self.conditions.len() - i,
        {
            if !self.conditions[i].holds(values) {
                proof {
                    assert(self@.conditions[i as int] == self.conditions@[i as int]@);
                }
                return false;
            }
            i += 1;
        }
        let mut j: usize = 0;
        while j < self.variables.len()
            invariant
                j <= self.variables.len(),
                vv == values_view(values@),
                forall|k: int| 0 <= k < self@.conditions.len() ==> condition_holds(#[trigger] self@.conditions[k], vv),
                forall|k: int| 0 <= k < j ==> lookup(vv, #[trigger] self@.variables[k]) is Some,
            decreases self.variables.len() - j,
        {
            if lookup_value(values, &self.variables[j]).is_none() {
                proof {
                    assert(self@.variables[j as int] == self.variables@[j as int]@);
                }
                return false;
            }
            j += 1;
        }
        true
    }

    /// A copy with the same view.
    pub fn duplicate(&self) -> (r: Limit)
        ensures
            r@ == self@,
    {
        Limit {
            namespace: self.namespace.clone(),
            max_value: self.max_value,
            seconds: self.seconds,
            conditions: clone_conditions(&self.conditions),
            variables: clone_strings(&self.variables),
            id: clone_opt(&self.id),
            name: clone_opt(&self.name),
        }
    }
}

/// Two limits are equal where they have the same id, or where neither has one
/// and they agree on namespace, window, conditions and variables; the maximum
/// and the name do not take part.
impl PartialEq for Limit {
    fn eq(&self, other: &Limit) -> (r: bool)
        ensures
            r == (key_of(self@) == key_of(other@)),
    {
        same_limit(self, other)
    }
}

impl vstd::std_specs::cmp::PartialEqSpecImpl for Limit {
    open spec fn obeys_eq_spec() -> bool {
        true
    }

    open spec fn eq_spec(&self, other: &Limit) -> bool {
        key_of(self@) == key_of(other@)
    }
}

/// A limit does not apply to values that leave one of its variables unbound.
pub proof fn lemma_unbound_variable_does_not_apply(l: LimitView, values: Seq<(Seq<char>, Seq<char>)>, j: int)
    requires
        0 <= j < l.variables.len(),
        lookup(values, l.variables[j]) is None,
    ensures
        !l.applies(values),
{
}

} // verus!
