//! A counter: a limit together with the values of its variables.

use vstd::prelude::*;
use crate::limit::{Limit, LimitView, lookup, lookup_value, values_view};

verus! {

/// A counter as a value; `remaining` and `expires_in` (nanoseconds) are filled
/// in where a store reports them.
pub struct CounterView {
    pub limit: LimitView,
    pub set_variables: Seq<(Seq<char>, Seq<char>)>,
    pub remaining: Option<u64>,
    pub expires_in: Option<u64>,
}

impl CounterView {
    pub open spec fn is_qualified(self) -> bool {
        !self.limit.is_simple()
    }
}

/// `values` restricted to `vars`, in the order of `vars`; unbound variables
/// are left out.
pub open spec fn project(vars: Seq<Seq<char>>, values: Seq<(Seq<char>, Seq<char>)>) -> Seq<(Seq<char>, Seq<char>)>
    decreases vars.len(),
{
    if vars.len() == 0 {
        Seq::empty()
    } else {
        let rest = project(vars.drop_last(), values);
        match lookup(values, vars.last()) {
            Some(v) => rest.push((vars.last(), v)),
            None => rest,
        }
    }
}

/// Whether name `a` comes before name `b`: character by character, a proper
/// prefix first.
pub open spec fn name_lt(a: Seq<char>, b: Seq<char>) -> bool
    decreases a.len(),
{
    if a.len() == 0 {
        b.len() > 0
    } else if b.len() == 0 {
        false
    } else if a[0] != b[0] {
        (a[0] as u32) < (b[0] as u32)
    } else {
        name_lt(a.drop_first(), b.drop_first())
    }
}

/// `s` with `p` placed before the first pair whose name comes after `p`'s.
pub open spec fn insert_by_name(s: Seq<(Seq<char>, Seq<char>)>, p: (Seq<char>, Seq<char>)) -> Seq<(Seq<char>, Seq<char>)>
    decreases s.len(),
{
    if s.len() == 0 {
        seq![p]
    } else if name_lt(p.0, s[0].0) {
        seq![p] + s
    } else {
        seq![s[0]] + insert_by_name(s.drop_first(), p)
    }
}

/// The pairs of `s` ordered by name; pairs of one name keep their order.
pub open spec fn sort_by_name(s: Seq<(Seq<char>, Seq<char>)>) -> Seq<(Seq<char>, Seq<char>)>
    decreases s.len(),
{
    if s.len() == 0 {
        s
    } else {
        insert_by_name(sort_by_name(s.drop_last()), s.last())
    }
}

/// The variable bindings of a counter: `values` restricted to `vars`, ordered
/// by variable name.
pub open spec fn bindings(vars: Seq<Seq<char>>, values: Seq<(Seq<char>, Seq<char>)>) -> Seq<(Seq<char>, Seq<char>)> {
    sort_by_name(project(vars, values))
}

fn name_before(a: &String, b: &String) -> (r: bool)
    ensures
        r == name_lt(a@, b@),
{
    let sa = a.as_str();
    let sb = b.as_str();
    let na = sa.unicode_len();
    let nb = sb.unicode_len();
    let mut i: usize = 0;
    proof {
        assert(a@.subrange(0, na as int) =~= a@);
        assert(b@.subrange(0, nb as int) =~= b@);
    }
    while i < na && i < nb && sa.get_char(i) == sb.get_char(i)
        invariant
            na == a@.len(),
            nb == b@.len(),
            sa@ == a@,
            sb@ == b@,
            i <= na,
            i <= nb,
            name_lt(a@, b@) == name_lt(a@.subrange(i as int, na as int), b@.subrange(i as int, nb as int)),
        decreases na - i,
    {
        proof {
            let x = a@.subrange(i as int, na as int);
            let y = b@.subrange(i as int, nb as int);
            assert(x.drop_first() =~= a@.subrange(i + 1, na as int));
            assert(y.drop_first() =~= b@.subrange(i + 1, nb as int));
            assert(x[0] == a@[i as int] && y[0] == b@[i as int]);
        }
        i += 1;
    }
    let ghost x = a@.subrange(i as int, na as int);
    let ghost y = b@.subrange(i as int, nb as int);
    if i == na {
        proof {
            assert(x.len() == 0);
        }
        i < nb
    } else if i == nb {
        proof {
            assert(y.len() == 0 && x.len() > 0);
        }
        false
    } else {
        let ca = sa.get_char(i);
        let cb = sb.get_char(i);
        proof {
            assert(x[0] == ca && y[0] == cb);
        }
        (ca as u32) < (cb as u32)
    }
}

proof fn lemma_insert_at(s: Seq<(Seq<char>, Seq<char>)>, p: (Seq<char>, Seq<char>), i: int)
    requires
        0 <= i <= s.len(),
        forall|k: int| 0 <= k < i ==> !name_lt(p.0, (#[trigger] s[k]).0),
        i < s.len() ==> name_lt(p.0, s[i].0),
    ensures
        insert_by_name(s, p) == s.subrange(0, i) + seq![p] + s.subrange(i, s.len() as int),
    decreases s.len(),
{
    if s.len() == 0 {
        assert(s.subrange(0, 0) + seq![p] + s.subrange(0, 0) =~= seq![p]);
    } else if i == 0 {
        assert(s.subrange(0, 0) + seq![p] + s.subrange(0, s.len() as int) =~= seq![p] + s);
    } else {
        let t = s.drop_first();
        assert forall|k: int| 0 <= k < i - 1 implies !name_lt(p.0, (#[trigger] t[k]).0) by {
            assert(t[k] == s[k + 1]);
        }
        if i - 1 < t.len() {
            assert(t[i - 1] == s[i]);
        }
        lemma_insert_at(t, p, i - 1);
        assert(seq![s[0]] + (t.subrange(0, i - 1) + seq![p] + t.subrange(i - 1, t.len() as int))
            =~= s.subrange(0, i) + seq![p] + s.subrange(i, s.len() as int));
    }
}

/// Inserts `p` into `v` where `insert_by_name` places it.
fn insert_pair(v: &mut Vec<(String, String)>, p: (String, String))
    ensures
        values_view(final(v)@) == insert_by_name(values_view(old(v)@), (p.0@, p.1@)),
{
    let ghost o = values_view(v@);
    let n = v.len();
    let mut i: usize = 0;
    while i < n && !name_before(&p.0, &v[i].0)
        invariant
            n == v@.len(),
            o == values_view(v@),
            i <= n,
            forall|k: int| 0 <= k < i ==> !name_lt(p.0@, (#[trigger] o[k]).0),
        decreases n - i,
    {
        proof {
            assert(o[i as int].0 == v@[i as int].0@);
        }
        i += 1;
    }
    proof {
        if i < n {
            assert(o[i as int].0 == v@[i as int].0@);
        }
        lemma_insert_at(o, (p.0@, p.1@), i as int);
    }
    let ghost pv = (p.0@, p.1@);
    v.insert(i, p);
    proof {
        assert(values_view(v@) =~= o.subrange(0, i as int) + seq![pv] + o.subrange(i as int, o.len() as int));
    }
}

pub fn clone_pairs(v: &Vec<(String, String)>) -> (r: Vec<(String, String)>)
    ensures
        values_view(r@) == values_view(v@),
{
    let mut r: Vec<(String, String)> = Vec::new();
    let mut i: usize = 0;
    while i < v.len()
        invariant
            i <= v.len(),
            r@.len() == i,
            forall|k: int| 0 <= k < i ==> r@[k].0@ == v@[k].0@ && r@[k].1@ == v@[k].1@,
        decreases v.len() - i,
    {
        r.push((v[i].0.clone(), v[i].1.clone()));
        i += 1;
    }
    proof {
        assert(values_view(r@) =~= values_view(v@));
    }
    r
}

#[derive(Debug)]
pub struct Counter {
    limit: Limit,
    set_variables: Vec<(String, String)>,
    remaining: Option<u64>,
    expires_in: Option<u64>,
}

impl View for Counter {
    type V = CounterView;

    closed spec fn view(&self) -> CounterView {
        CounterView {
            limit: self.limit@,
            set_variables: values_view(self.set_variables@),
            remaining: self.remaining,
            expires_in: self.expires_in,
        }
    }
}

impl Counter {
    /// The counter of `limit` for a request with `values`: the values of the
    /// limit's variables, ordered by variable name.
    pub fn new(limit: Limit, values: &Vec<(String, String)>) -> (r: Counter)
        ensures
            r@ == (CounterView {
                limit: limit@,
                set_variables: bindings(limit@.variables, values_view(values@)),
                remaining: None,
                expires_in: None,
            }),
    {
        let mut set_variables: Vec<(String, String)> = Vec::new();
        let mut sorted: Vec<(String, String)> = Vec::new();
        let vars = limit.variables();
        let mut i: usize = 0;
        while i < vars.len()
            invariant
                i <= vars.len(),
                crate::limit::strings_view(vars@) == limit@.variables,
                values_view(set_variables@) == project(limit@.variables.subrange(0, i as int), values_view(values@)),
                values_view(sorted@) == sort_by_name(values_view(set_variables@)),
            decreases vars.len() - i,
        {
            let ghost before = set_variables@;
            let ghost pre = limit@.variables.subrange(0, i + 1);
            proof {
                assert(pre.drop_last() == limit@.variables.subrange(0, i as int));
                assert(pre.last() == vars@[i as int]@);
            }
            match lookup_value(values, &vars[i]) {
                Some(v) => {
                    set_variables.push((vars[i].clone(), v.clone()));
                    proof {
                        assert(values_view(set_variables@) =~= values_view(before).push((vars@[i as int]@, v@)));
                        assert(values_view(set_variables@).drop_last() =~= values_view(before));
                    }
                    insert_pair(&mut sorted, (vars[i].clone(), v.clone()));
                },
                None => {},
            }
            i += 1;
        }
        proof {
            assert(limit@.variables.subrange(0, vars.len() as int) == limit@.variables);
        }
        Counter { limit, set_variables: sorted, remaining: None, expires_in: None }
    }

    /// A counter of `limit` as a store reports it.
    pub fn with_value(limit: Limit, remaining: u64, expires_in: u64, set_variables: Vec<(String, String)>) -> (r: Counter)
        ensures
            r@ == (CounterView {
                limit: limit@,
                set_variables: values_view(set_variables@),
                remaining: Some(remaining),
                expires_in: Some(expires_in),
            }),
    {
        Counter { limit, set_variables, remaining: Some(remaining), expires_in: Some(expires_in) }
    }

    pub fn limit(&self) -> (r: &Limit)
        ensures
            r@ == self@.limit,
    {
        &self.limit
    }

    pub fn set_variables(&self) -> (r: &Vec<(String, String)>)
        ensures
            values_view(r@) == self@.set_variables,
    {
        &self.set_variables
    }

    pub fn max_value(&self) -> (r: u64)
        ensures
            r == self@.limit.max_value,
    {
        self.limit.max_value()
    }

    /// The window length in seconds.
    pub fn window(&self) -> (r: u64)
        ensures
            r == self@.limit.seconds,
    {
        self.limit.seconds()
    }

    pub fn is_qualified(&self) -> (r: bool)
        ensures
            r == self@.is_qualified(),
    {
        !self.limit.is_simple()
    }

    pub fn remaining(&self) -> (r: Option<u64>)
        ensures
            r == self@.remaining,
    {
        self.remaining
    }

    /// Nanoseconds before the counter's window expires, where reported.
    pub fn expires_in(&self) -> (r: Option<u64>)
        ensures
            r == self@.expires_in,
    {
        self.expires_in
    }

    pub fn set_remaining(&mut self, remaining: u64)
        ensures
            final(self)@ == (CounterView { remaining: Some(remaining), ..old(self)@ }),
    {
        self.remaining = Some(remaining);
    }

    pub fn set_expires_in(&mut self, expires_in: u64)
        ensures
            final(self)@ == (CounterView { expires_in: Some(expires_in), ..old(self)@ }),
    {
        self.expires_in = Some(expires_in);
    }

    /// A copy with the same view.
    pub fn duplicate(&self) -> (r: Counter)
        ensures
            r@ == self@,
    {
        Counter {
            limit: self.limit.duplicate(),
            set_variables: clone_pairs(&self.set_variables),
            remaining: self.remaining,
            expires_in: self.expires_in,
        }
    }
}

} // verus!
