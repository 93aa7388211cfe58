//! The environment variables that the substitution reads.

use crate::text::str_eq;
use vstd::prelude::*;

verus! {

/// A set of environment variables: names with their values.
///
/// The substitution reads variables from a value of this type, so that what it does is a
/// function of the text and of the environment it is given.
#[derive(Debug)]
pub struct Environment {
    vars: Vec<(String, String)>,
}

/// The value of `name` among `vars`: the value of the first pair that has this name.
pub open spec fn lookup(vars: Seq<(Seq<char>, Seq<char>)>, name: Seq<char>) -> Option<Seq<char>>
    decreases vars.len(),
{
    if vars.len() == 0 {
        None
    } else if vars[0].0 == name {
        Some(vars[0].1)
    } else {
        lookup(vars.drop_first(), name)
    }
}

/// The name and value of each pair.
pub open spec fn pair_views(vars: Seq<(String, String)>) -> Seq<(Seq<char>, Seq<char>)> {
    vars.map_values(|p: (String, String)| (p.0@, p.1@))
}

proof fn lemma_lookup_first(vars: Seq<(Seq<char>, Seq<char>)>, name: Seq<char>, i: int)
    requires
        0 <= i < vars.len(),
        vars[i].0 == name,
        forall|j: int| 0 <= j < i ==> vars[j].0 != name,
    ensures
        lookup(vars, name) == Some(vars[i].1),
    decreases i,
{
    if i > 0 {
        lemma_lookup_first(vars.drop_first(), name, i - 1);
    }
}

proof fn lemma_lookup_absent(vars: Seq<(Seq<char>, Seq<char>)>, name: Seq<char>)
    requires
        forall|j: int| 0 <= j < vars.len() ==> vars[j].0 != name,
    ensures
        lookup(vars, name) is None,
    decreases vars.len(),
{
    if vars.len() > 0 {
        lemma_lookup_absent(vars.drop_first(), name);
    }
}

proof fn lemma_lookup_update(
    vars: Seq<(Seq<char>, Seq<char>)>,
    i: int,
    value: Seq<char>,
    name: Seq<char>,
)
    requires
        0 <= i < vars.len(),
    ensures
        lookup(vars.update(i, (vars[i].0, value)), name) == if lookup(vars, name) is Some
            && vars[i].0 == name && (forall|j: int| 0 <= j < i ==> vars[j].0 != name) {
            Some(value)
        } else {
            lookup(vars, name)
        },
    decreases i,
{
    let upd = vars.update(i, (vars[i].0, value));
    if i == 0 {
        assert(upd.drop_first() =~= vars.drop_first());
    } else {
        assert(upd.drop_first() =~= vars.drop_first().update(i - 1, (vars[i].0, value)));
        lemma_lookup_update(vars.drop_first(), i - 1, value, name);
        if vars[0].0 != name {
            assert forall|j: int| 0 <= j < i - 1 implies vars.drop_first()[j].0 != name <==> vars[j + 1].0 != name by {}
            if (forall|j: int| 0 <= j < i ==> vars[j].0 != name) {
                assert forall|j: int| 0 <= j < i - 1 implies vars.drop_first()[j].0 != name by {
                    assert(vars.drop_first()[j] == vars[j + 1]);
                }
            }
            if (forall|j: int| 0 <= j < i - 1 ==> vars.drop_first()[j].0 != name) {
                assert forall|j: int| 0 <= j < i implies vars[j].0 != name by {
                    if j > 0 {
                        assert(vars[j] == vars.drop_first()[j - 1]);
                    }
                }
            }
        }
    }
}

proof fn lemma_lookup_push(vars: Seq<(Seq<char>, Seq<char>)>, pair: (Seq<char>, Seq<char>), name: Seq<char>)
    ensures
        lookup(vars.push(pair), name) == if lookup(vars, name) is Some {
            lookup(vars, name)
        } else if pair.0 == name {
            Some(pair.1)
        } else {
            None
        },
    decreases vars.len(),
{
    if vars.len() > 0 {
        assert(vars.push(pair).drop_first() =~= vars.drop_first().push(pair));
        assert(vars.push(pair)[0] == vars[0]);
        lemma_lookup_push(vars.drop_first(), pair, name);
    } else {
        assert(vars.push(pair).drop_first() =~= Seq::<(Seq<char>, Seq<char>)>::empty());
        assert(vars.push(pair)[0] == pair);
        assert(lookup(Seq::<(Seq<char>, Seq<char>)>::empty(), name) is None);
    }
}

impl View for Environment {
    type V = Map<Seq<char>, Seq<char>>;

    closed spec fn view(&self) -> Map<Seq<char>, Seq<char>> {
        Map::new(
            |name: Seq<char>| lookup(pair_views(self.vars@), name) is Some,
            |name: Seq<char>| lookup(pair_views(self.vars@), name)->0,
        )
    }
}

/// The value of `name` in `env`, or the empty text when it is not set.
pub open spec fn value_or_empty(env: Map<Seq<char>, Seq<char>>, name: Seq<char>) -> Seq<char> {
    if env.contains_key(name) {
        env[name]
    } else {
        Seq::empty()
    }
}

impl Environment {
    /// An environment in which no variable is set.
    pub fn new() -> (r: Environment)
        ensures
            r@ == Map::<Seq<char>, Seq<char>>::empty(),
    {
        let r = Environment { vars: Vec::new() };
        assert(r@ =~= Map::<Seq<char>, Seq<char>>::empty());
        r
    }

    fn position(&self, name: &str) -> (r: Option<usize>)
        ensures
            match r {
                Some(i) => i < self.vars@.len() && self.vars@[i as int].0@ == name@ && forall|j: int|
                    0 <= j < i ==> self.vars@[j].0@ != name@,
                None => forall|j: int| 0 <= j < self.vars@.len() ==> self.vars@[j].0@ != name@,
            },
    {
        let mut i: usize = 0;
        while i < self.vars.len()
            invariant
                0 <= i <= self.vars@.len(),
                forall|j: int| 0 <= j < i ==> self.vars@[j].0@ != name@,
            decreases self.vars@.len() - i,
        {
            if str_eq(self.vars[i].0.as_str(), name) {
                return Some(i);
            }
            i = i + 1;
        }
        None
    }

    /// Sets the variable `name` to `value`.
    pub fn set(&mut self, name: &str, value: &str)
        ensures
            final(self)@ == old(self)@.insert(name@, value@),
    {
        let ghost before = pair_views(self.vars@);
        match self.position(name) {
            Some(i) => {
                let key = self.vars[i].0.clone();
                self.vars.set(i, (key, String::from_str(value)));
                proof {
                    assert(pair_views(self.vars@) =~= before.update(i as int, (before[i as int].0, value@)));
                    assert forall|k: Seq<char>| #![auto] lookup(pair_views(self.vars@), k) == if k == name@ {
                        Some(value@)
                    } else {
                        lookup(before, k)
                    } by {
                        lemma_lookup_update(before, i as int, value@, k);
                        if k == name@ {
                            lemma_lookup_first(before, k, i as int);
                        }
                    }
                    assert(self@ =~= old(self)@.insert(name@, value@));
                }
            },
            None => {
                self.vars.push((String::from_str(name), String::from_str(value)));
                proof {
                    assert(pair_views(self.vars@) =~= before.push((name@, value@)));
                    lemma_lookup_absent(before, name@);
                    assert forall|k: Seq<char>| #![auto] lookup(pair_views(self.vars@), k) == if k == name@ {
                        Some(value@)
                    } else {
                        lookup(before, k)
                    } by {
                        lemma_lookup_push(before, (name@, value@), k);
                    }
                    assert(self@ =~= old(self)@.insert(name@, value@));
                }
            },
        }
    }

    /// The value of the variable `name`, if it is set.
    pub fn get(&self, name: &str) -> (r: Option<String>)
        ensures
            match r {
                Some(v) => self@.contains_key(name@) && self@[name@] == v@,
                None => !self@.contains_key(name@),
            },
    {
        match self.position(name) {
            Some(i) => {
                proof {
                    lemma_lookup_first(pair_views(self.vars@), name@, i as int);
                }
                Some(self.vars[i].1.clone())
            },
            None => {
                proof {
                    lemma_lookup_absent(pair_views(self.vars@), name@);
                }
                None
            },
        }
    }

    /// The value of the variable `name`, or the empty string when it is not set.
    pub fn value_or_default(&self, name: &str) -> (r: String)
        ensures
            r@ == value_or_empty(self@, name@),
    {
        match self.get(name) {
            Some(v) => v,
            None => String::new(),
        }
    }
}

} // verus!
