//! The keys under which counters are stored: a limit's identity, or for an
//! anonymous limit its namespace, window, conditions and variables.

use vstd::prelude::*;
use crate::limit::{clone_conditions, clone_strings, conditions_view, strings_view, Condition, ConditionView, Limit, LimitView};

verus! {

/// The functional identity of an anonymous limit. Conditions and variables
/// count as sets: their order and repetitions do not matter.
pub struct LimitKeyView {
    pub namespace: Seq<char>,
    pub seconds: u64,
    pub conditions: Set<ConditionView>,
    pub variables: Set<Seq<char>>,
}

pub enum KeyView {
    Identity(Seq<char>),
    Anonymous(LimitKeyView),
}

pub open spec fn anonymous_key(l: LimitView) -> LimitKeyView {
    LimitKeyView {
        namespace: l.namespace,
        seconds: l.seconds,
        conditions: l.conditions.to_set(),
        variables: l.variables.to_set(),
    }
}

/// The key of a limit: its id where it has one, else its functional identity.
pub open spec fn key_of(l: LimitView) -> KeyView {
    match l.id {
        Some(id) => KeyView::Identity(id),
        None => KeyView::Anonymous(anonymous_key(l)),
    }
}

fn contains_condition(v: &Vec<Condition>, c: &Condition) -> (r: bool)
    ensures
        r == conditions_view(v@).contains(c@),
{
    let mut i: usize = 0;
    while i < v.len()
        invariant
            i <= v.len(),
            forall|k: int| 0 <= k < i ==> v@[k]@ != c@,
        decreases v.len() - i,
    {
        if v[i].same_as(c) {
            proof {
                assert(conditions_view(v@)[i as int] == c@);
            }
            return true;
        }
        i += 1;
    }
    proof {
        if conditions_view(v@).contains(c@) {
            let k = choose|k: int| 0 <= k < v@.len() && conditions_view(v@)[k] == c@;
            assert(v@[k]@ == c@);
        }
    }
    false
}

fn contains_string(v: &Vec<String>, s: &String) -> (r: bool)
    ensures
        r == strings_view(v@).contains(s@),
{
    let mut i: usize = 0;
    while i < v.len()
        invariant
            i <= v.len(),
            forall|k: int| 0 <= k < i ==> v@[k]@ != s@,
        decreases v.len() - i,
    {
        if v[i] == *s {
            proof {
                assert(strings_view(v@)[i as int] == s@);
            }
            return true;
        }
        i += 1;
    }
    proof {
        if strings_view(v@).contains(s@) {
            let k = choose|k: int| 0 <= k < v@.len() && strings_view(v@)[k] == s@;
            assert(v@[k]@ == s@);
        }
    }
    false
}

/// Whether every condition of `a` is one of `b`.
fn conditions_within(a: &Vec<Condition>, b: &Vec<Condition>) -> (r: bool)
    ensures
        r == forall|x: ConditionView| conditions_view(a@).contains(x) ==> conditions_view(b@).contains(x),
{
    let mut i: usize = 0;
    while i < a.len()
        invariant
            i <= a.len(),
            forall|k: int| 0 <= k < i ==> conditions_view(b@).contains(#[trigger] a@[k]@),
        decreases a.len() - i,
    {
        if !contains_condition(b, &a[i]) {
            proof {
                assert(conditions_view(a@)[i as int] == a@[i as int]@);
            }
            return false;
        }
        i += 1;
    }
    proof {
        assert forall|x: ConditionView| conditions_view(a@).contains(x) implies conditions_view(b@).contains(x) by {
            let k = choose|k: int| 0 <= k < a@.len() && conditions_view(a@)[k] == x;
            assert(a@[k]@ == x);
        }
    }
    true
}

/// Whether every string of `a` is one of `b`.
fn strings_within(a: &Vec<String>, b: &Vec<String>) -> (r: bool)
    ensures
        r == forall|x: Seq<char>| strings_view(a@).contains(x) ==> strings_view(b@).contains(x),
{
    let mut i: usize = 0;
    while i < a.len()
        invariant
            i <= a.len(),
            forall|k: int| 0 <= k < i ==> strings_view(b@).contains(#[trigger] a@[k]@),
        decreases a.len() - i,
    {
        if !contains_string(b, &a[i]) {
            proof {
                assert(strings_view(a@)[i as int] == a@[i as int]@);
            }
            return false;
        }
        i += 1;
    }
    proof {
        assert forall|x: Seq<char>| strings_view(a@).contains(x) implies strings_view(b@).contains(x) by {
            let k = choose|k: int| 0 <= k < a@.len() && strings_view(a@)[k] == x;
            assert(a@[k]@ == x);
        }
    }
    true
}

fn same_condition_set(a: &Vec<Condition>, b: &Vec<Condition>) -> (r: bool)
    ensures
        r == (conditions_view(a@).to_set() == conditions_view(b@).to_set()),
{
    let r = conditions_within(a, b) && conditions_within(b, a);
    proof {
        if r {
            assert(conditions_view(a@).to_set() =~= conditions_view(b@).to_set());
        } else if conditions_view(a@).to_set() == conditions_view(b@).to_set() {
            assert forall|x: ConditionView| conditions_view(a@).contains(x) <==> conditions_view(b@).contains(x) by {
                assert(conditions_view(a@).to_set().contains(x) == conditions_view(b@).to_set().contains(x));
            }
        }
    }
    r
}

fn same_string_set(a: &Vec<String>, b: &Vec<String>) -> (r: bool)
    ensures
        r == (strings_view(a@).to_set() == strings_view(b@).to_set()),
{
    let r = strings_within(a, b) && strings_within(b, a);
    proof {
        if r {
            assert(strings_view(a@).to_set() =~= strings_view(b@).to_set());
        } else if strings_view(a@).to_set() == strings_view(b@).to_set() {
            assert forall|x: Seq<char>| strings_view(a@).contains(x) <==> strings_view(b@).contains(x) by {
                assert(strings_view(a@).to_set().contains(x) == strings_view(b@).to_set().contains(x));
            }
        }
    }
    r
}

/// The functional identity of an anonymous limit.
#[derive(Debug)]
pub struct LimitKey {
    namespace: String,
    seconds: u64,
    conditions: Vec<Condition>,
    variables: Vec<String>,
}

impl View for LimitKey {
    type V = LimitKeyView;

    closed spec fn view(&self) -> LimitKeyView {
        LimitKeyView {
            namespace: self.namespace@,
            seconds: self.seconds,
            conditions: conditions_view(self.conditions@).to_set(),
            variables: strings_view(self.variables@).to_set(),
        }
    }
}

impl LimitKey {
    pub fn from_limit(limit: &Limit) -> (r: LimitKey)
        ensures
            r@ == anonymous_key(limit@),
    {
        LimitKey {
            namespace: limit.namespace().clone(),
            seconds: limit.seconds(),
            conditions: clone_conditions(limit.conditions()),
            variables: clone_strings(limit.variables()),
        }
    }

    /// Whether `limit` has this functional identity (its id aside).
    pub fn applies_to(&self, limit: &Limit) -> (r: bool)
        ensures
            r == (self@ == anonymous_key(limit@)),
    {
        *limit.namespace() == self.namespace && limit.seconds() == self.seconds
            && same_condition_set(limit.conditions(), &self.conditions)
            && same_string_set(limit.variables(), &self.variables)
    }

    pub fn same_as(&self, other: &LimitKey) -> (r: bool)
        ensures
            r == (self@ == other@),
    {
        self.namespace == other.namespace && self.seconds == other.seconds
            && same_condition_set(&self.conditions, &other.conditions)
            && same_string_set(&self.variables, &other.variables)
    }

    pub fn duplicate(&self) -> (r: LimitKey)
        ensures
            r@ == self@,
    {
        LimitKey {
            namespace: self.namespace.clone(),
            seconds: self.seconds,
            conditions: clone_conditions(&self.conditions),
            variables: clone_strings(&self.variables),
        }
    }
}

/// The key of the accumulators of a limit.
#[derive(Debug)]
pub enum CounterValueSetKey {
    Identity(String),
    Anonymous(LimitKey),
}

impl View for CounterValueSetKey {
    type V = KeyView;

    open spec fn view(&self) -> KeyView {
        match self {
            CounterValueSetKey::Identity(id) => KeyView::Identity(id@),
            CounterValueSetKey::Anonymous(k) => KeyView::Anonymous(k@),
        }
    }
}

impl CounterValueSetKey {
    pub fn from_limit(limit: &Limit) -> (r: CounterValueSetKey)
        ensures
            r@ == key_of(limit@),
    {
        match limit.id() {
            Some(id) => CounterValueSetKey::Identity(id.clone()),
            None => CounterValueSetKey::Anonymous(LimitKey::from_limit(limit)),
        }
    }

    /// Whether this is the key of `limit`: by id where the limit has one,
    /// else by its functional identity.
    pub fn applies_to(&self, limit: &Limit) -> (r: bool)
        ensures
            r == (self@ == key_of(limit@)),
    {
        match limit.id() {
            None => match self {
                CounterValueSetKey::Anonymous(key) => key.applies_to(limit),
                CounterValueSetKey::Identity(_) => false,
            },
            Some(id) => match self {
                CounterValueSetKey::Identity(our_id) => *id == *our_id,
                CounterValueSetKey::Anonymous(_) => false,
            },
        }
    }

    pub fn same_as(&self, other: &CounterValueSetKey) -> (r: bool)
        ensures
            r == (self@ == other@),
    {
        match (self, other) {
            (CounterValueSetKey::Identity(a), CounterValueSetKey::Identity(b)) => *a == *b,
            (CounterValueSetKey::Anonymous(a), CounterValueSetKey::Anonymous(b)) => a.same_as(b),
            _ => false,
        }
    }

    pub fn duplicate(&self) -> (r: CounterValueSetKey)
        ensures
            r@ == self@,
    {
        match self {
            CounterValueSetKey::Identity(id) => CounterValueSetKey::Identity(id.clone()),
            CounterValueSetKey::Anonymous(k) => CounterValueSetKey::Anonymous(k.duplicate()),
        }
    }
}

/// Whether two limits are the same limit: the same id, or both without id and
/// of the same functional identity.
pub fn same_limit(a: &Limit, b: &Limit) -> (r: bool)
    ensures
        r == (key_of(a@) == key_of(b@)),
{
    let k = CounterValueSetKey::from_limit(a);
    k.applies_to(b)
}

} // verus!
