use vstd::prelude::*;

use crate::state::str_equal;
use crate::util::{
    lemma_text_le_antisymmetric, lemma_text_le_connected, lemma_text_le_transitive, text_at_most, text_le,
};

verus! {

/// Extra environment variables for hooks: distinct names, each with a value,
/// kept in name order (the order of `String`'s `Ord`).
#[derive(Clone, Debug)]
pub struct EnvMap {
    entries: Vec<(String, String)>,
}

pub open spec fn name_at(entries: Seq<(String, String)>, name: Seq<char>, i: int) -> bool {
    0 <= i < entries.len() && entries[i].0@ == name
}

/// The names of `entries` come in `text_le` order.
pub open spec fn names_ordered(entries: Seq<(String, String)>) -> bool {
    forall|i: int, j: int| 0 <= i < j < entries.len() ==> text_le(#[trigger] entries[i].0@, #[trigger] entries[j].0@)
}

/// Names strictly in `text_le` order.
pub open spec fn strictly_ordered(names: Seq<Seq<char>>) -> bool {
    forall|i: int, j: int| 0 <= i < j < names.len() ==> text_le(#[trigger] names[i], #[trigger] names[j]) && names[i] != names[j]
}

/// Two strictly ordered sequences of names with the same members are equal.
proof fn lemma_strictly_ordered_unique(a: Seq<Seq<char>>, b: Seq<Seq<char>>)
    requires
        strictly_ordered(a),
        strictly_ordered(b),
        forall|x: Seq<char>| a.contains(x) <==> b.contains(x),
    ensures
        a == b,
    decreases a.len(),
{
    if a.len() == 0 {
        if b.len() > 0 {
            assert(b.contains(b[0]));
        }
        assert(a =~= b);
    } else {
        assert(a.contains(a[0]));
        let k = choose|k: int| 0 <= k < b.len() && b[k] == a[0];
        assert(b.contains(b[0]));
        let m = choose|m: int| 0 <= m < a.len() && a[m] == b[0];
        if k > 0 {
            assert(text_le(b[0], b[k]) && b[0] != b[k]);
            if m > 0 {
                assert(text_le(a[0], a[m]));
            } else {
                assert(a[0] == b[0]);
            }
            lemma_text_le_antisymmetric(a[0], b[0]);
        }
        assert(a[0] == b[0]);
        let a1 = a.drop_first();
        let b1 = b.drop_first();
        assert forall|x: Seq<char>| a1.contains(x) <==> b1.contains(x) by {
            if a1.contains(x) {
                let i = choose|i: int| 0 <= i < a1.len() && a1[i] == x;
                assert(a[i + 1] == x && x != a[0]);
                assert(b.contains(x));
                let j = choose|j: int| 0 <= j < b.len() && b[j] == x;
                assert(j != 0);
                assert(b1[j - 1] == x);
            }
            if b1.contains(x) {
                let i = choose|i: int| 0 <= i < b1.len() && b1[i] == x;
                assert(b[i + 1] == x && x != b[0]);
                assert(a.contains(x));
                let j = choose|j: int| 0 <= j < a.len() && a[j] == x;
                assert(j != 0);
                assert(a1[j - 1] == x);
            }
        }
        lemma_strictly_ordered_unique(a1, b1);
        assert(a =~= seq![a[0]] + a1);
        assert(b =~= seq![b[0]] + b1);
    }
}

impl View for EnvMap {
    type V = Map<Seq<char>, Seq<char>>;

    closed spec fn view(&self) -> Map<Seq<char>, Seq<char>> {
        Map::new(
            |name: Seq<char>| exists|i: int| name_at(self.entries@, name, i),
            |name: Seq<char>| self.entries@[choose|i: int| name_at(self.entries@, name, i)].1@,
        )
    }
}

impl EnvMap {
    pub closed spec fn well_formed(&self) -> bool {
        &&& forall|i: int, j: int|
            0 <= i < self.entries@.len() && 0 <= j < self.entries@.len() && i != j
                ==> self.entries@[i].0@ != self.entries@[j].0@
        &&& names_ordered(self.entries@)
    }

    /// The variables as (name, value) pairs, in order.
    pub closed spec fn pairs(&self) -> Seq<(Seq<char>, Seq<char>)> {
        self.entries@.map_values(|e: (String, String)| (e.0@, e.1@))
    }

    /// The pairs list each variable of the map exactly once.
    pub proof fn lemma_pairs(&self)
        requires
            self.well_formed(),
        ensures
            forall|i: int| 0 <= i < self.pairs().len() ==> #[trigger] self@.contains_key(self.pairs()[i].0)
                && self@[self.pairs()[i].0] == self.pairs()[i].1,
            forall|name: Seq<char>| #[trigger] self@.contains_key(name) ==> exists|i: int|
                0 <= i < self.pairs().len() && self.pairs()[i].0 == name,
    {
        assert forall|i: int| 0 <= i < self.pairs().len() implies #[trigger] self@.contains_key(self.pairs()[i].0)
            && self@[self.pairs()[i].0] == self.pairs()[i].1 by {
            assert(name_at(self.entries@, self.entries@[i].0@, i));
            let j = choose|j: int| name_at(self.entries@, self.entries@[i].0@, j);
            assert(j == i);
        }
        assert forall|name: Seq<char>| #[trigger] self@.contains_key(name) implies exists|i: int|
            0 <= i < self.pairs().len() && self.pairs()[i].0 == name by {
            let i = choose|i: int| name_at(self.entries@, name, i);
            assert(self.pairs()[i].0 == name);
        }
    }

    /// The names of the variables, in order.
    pub closed spec fn names(&self) -> Seq<Seq<char>> {
        self.entries@.map_values(|e: (String, String)| e.0@)
    }

    /// Two well-formed maps that hold the same variables list them in the same
    /// pairs, however they were built.
    pub proof fn lemma_same_view_same_pairs(&self, other: &EnvMap)
        requires
            self.well_formed(),
            other.well_formed(),
            self@ == other@,
        ensures
            self.pairs() == other.pairs(),
    {
        self.lemma_pairs();
        other.lemma_pairs();
        let a = self.names();
        let b = other.names();
        assert forall|x: Seq<char>| a.contains(x) <==> b.contains(x) by {
            if a.contains(x) {
                let i = choose|i: int| 0 <= i < a.len() && a[i] == x;
                assert(self.pairs()[i].0 == x);
                assert(other@.contains_key(x));
                let j = choose|j: int| 0 <= j < other.pairs().len() && other.pairs()[j].0 == x;
                assert(b[j] == x);
            }
            if b.contains(x) {
                let i = choose|i: int| 0 <= i < b.len() && b[i] == x;
                assert(other.pairs()[i].0 == x);
                assert(self@.contains_key(x));
                let j = choose|j: int| 0 <= j < self.pairs().len() && self.pairs()[j].0 == x;
                assert(a[j] == x);
            }
        }
        assert forall|i: int, j: int| 0 <= i < j < a.len() implies text_le(#[trigger] a[i], #[trigger] a[j]) && a[i] != a[j] by {
            assert(text_le(self.entries@[i].0@, self.entries@[j].0@));
        }
        assert forall|i: int, j: int| 0 <= i < j < b.len() implies text_le(#[trigger] b[i], #[trigger] b[j]) && b[i] != b[j] by {
            assert(text_le(other.entries@[i].0@, other.entries@[j].0@));
        }
        lemma_strictly_ordered_unique(a, b);
        assert forall|i: int| 0 <= i < self.pairs().len() implies self.pairs()[i] == other.pairs()[i] by {
            assert(a[i] == b[i]);
            assert(self@.contains_key(self.pairs()[i].0));
            assert(other@.contains_key(other.pairs()[i].0));
        }
        assert(self.pairs() =~= other.pairs());
    }

    pub fn new() -> (env: Self)
        ensures
            env.well_formed(),
            env@ == Map::<Seq<char>, Seq<char>>::empty(),
            env.pairs().len() == 0,
    {
        let env = EnvMap { entries: Vec::new() };
        assert(env@ =~= Map::<Seq<char>, Seq<char>>::empty());
        env
    }

    fn position(&self, name: &str) -> (pos: Option<usize>)
        requires
            self.well_formed(),
        ensures
            match pos {
                Some(i) => name_at(self.entries@, name@, i as int),
                None => !self@.contains_key(name@),
            },
    {
        let mut i: usize = 0;
        while i < self.entries.len()
            invariant
                i <= self.entries@.len(),
                forall|j: int| 0 <= j < i ==> self.entries@[j].0@ != name@,
            decreases self.entries@.len() - i,
        {
            if str_equal(self.entries[i].0.as_str(), name) {
                return Some(i);
            }
            i = i + 1;
        }
        None
    }

    /// The value of `name`, if set.
    pub fn get(&self, name: &str) -> (value: Option<&String>)
        requires
            self.well_formed(),
        ensures
            match value {
                Some(v) => self@.contains_key(name@) && self@[name@] == v@,
                None => !self@.contains_key(name@),
            },
    {
        match self.position(name) {
            Some(i) => {
                proof {
                    let j = choose|j: int| name_at(self.entries@, name@, j);
                    assert(j == i);
                }
                Some(&self.entries[i].1)
            },
            None => None,
        }
    }

    /// A copy of the variables, in the same order.
    pub fn duplicate(&self) -> (copy: Self)
        ensures
            copy@ == self@,
            copy.pairs() == self.pairs(),
            self.well_formed() ==> copy.well_formed(),
    {
        let mut entries: Vec<(String, String)> = Vec::new();
        let mut i: usize = 0;
        while i < self.entries.len()
            invariant
                i <= self.entries@.len(),
                entries@ == self.entries@.take(i as int),
            decreases self.entries@.len() - i,
        {
            let entry = &self.entries[i];
            entries.push((entry.0.clone(), entry.1.clone()));
            assert(self.entries@.take(i + 1) =~= self.entries@.take(i as int).push(self.entries@[i as int]));
            i = i + 1;
        }
        assert(self.entries@.take(self.entries@.len() as int) =~= self.entries@);
        let copy = EnvMap { entries };
        assert(copy@ =~= self@);
        copy
    }

    /// The number of variables.
    pub fn len(&self) -> (n: usize)
        ensures
            n == self.pairs().len(),
    {
        self.entries.len()
    }

    /// The variables as (name, value) pairs, in order.
    pub fn entries(&self) -> (entries: &Vec<(String, String)>)
        ensures
            entries@.map_values(|e: (String, String)| (e.0@, e.1@)) == self.pairs(),
    {
        &self.entries
    }

    /// Sets `name` to `value`, replacing an earlier value; a new name takes
    /// its place in name order.
    pub fn insert(&mut self, name: String, value: String)
        requires
            old(self).well_formed(),
        ensures
            final(self).well_formed(),
            final(self)@ == old(self)@.insert(name@, value@),
            old(self)@.contains_key(name@) ==> final(self).pairs().len() == old(self).pairs().len(),
            !old(self)@.contains_key(name@) ==> final(self).pairs().len() == old(self).pairs().len() + 1,
    {
        let ghost key = name@;
        let ghost val = value@;
        match self.position(name.as_str()) {
            Some(i) => {
                self.entries.set(i, (name, value));
                proof {
                    let o = old(self).entries@;
                    let e = self.entries@;
                    assert forall|a: int, b: int| 0 <= a < e.len() && 0 <= b < e.len() && a != b implies e[a].0@ != e[b].0@ by {
                        assert(e[a].0@ == o[a].0@);
                        assert(e[b].0@ == o[b].0@);
                    }
                    assert forall|k: Seq<char>| #[trigger] self@.contains_key(k) == old(self)@.insert(key, val).contains_key(k) by {
                        if exists|j: int| name_at(o, k, j) {
                            let j = choose|j: int| name_at(o, k, j);
                            assert(name_at(e, k, j));
                        }
                        if exists|j: int| name_at(e, k, j) {
                            let j = choose|j: int| name_at(e, k, j);
                            assert(name_at(o, k, j));
                        }
                        if k == key {
                            assert(name_at(e, k, i as int));
                        }
                    }
                    assert forall|k: Seq<char>| #[trigger] self@.contains_key(k) implies self@[k] == old(self)@.insert(key, val)[k] by {
                        let j = choose|j: int| name_at(e, k, j);
                        if k == key {
                            assert(j == i);
                        } else {
                            assert(name_at(o, k, j));
                            let oj = choose|oj: int| name_at(o, k, oj);
                            assert(oj == j);
                        }
                    }
                    assert(self@ =~= old(self)@.insert(key, val));
                }
            },
            None => {
                let mut p: usize = 0;
                while p < self.entries.len() && text_at_most(self.entries[p].0.as_str(), name.as_str())
                    invariant
                        p <= self.entries@.len(),
                        self.entries@ == old(self).entries@,
                        key == name@,
                        forall|j: int| 0 <= j < p ==> text_le(#[trigger] self.entries@[j].0@, key),
                    decreases self.entries@.len() - p,
                {
                    p = p + 1;
                }
                self.entries.insert(p, (name, value));
                proof {
                    let o = old(self).entries@;
                    let e = self.entries@;
                    assert(e =~= o.insert(p as int, e[p as int]));
                    assert(e[p as int].0@ == key && e[p as int].1@ == val);
                    assert forall|j: int| 0 <= j < o.len() implies o[j].0@ != key by {
                        if o[j].0@ == key {
                            assert(name_at(o, key, j));
                        }
                    }
                    if p < o.len() {
                        assert(!text_le(o[p as int].0@, key));
                        lemma_text_le_connected(o[p as int].0@, key);
                    }
                    assert forall|a: int, b: int| 0 <= a < e.len() && 0 <= b < e.len() && a != b implies e[a].0@ != e[b].0@ by {
                        let oa = if a < p { a } else { a - 1 };
                        let ob = if b < p { b } else { b - 1 };
                        if a != p && b != p {
                            assert(e[a] == o[oa] && e[b] == o[ob]);
                        }
                    }
                    assert forall|a: int, b: int| 0 <= a < b < e.len() implies text_le(#[trigger] e[a].0@, #[trigger] e[b].0@) by {
                        if b < p {
                            assert(e[a] == o[a] && e[b] == o[b]);
                        } else if b == p {
                            assert(e[a] == o[a]);
                        } else {
                            assert(e[b] == o[b - 1]);
                            if b - 1 > p {
                                assert(text_le(o[p as int].0@, o[b - 1].0@));
                                lemma_text_le_transitive(key, o[p as int].0@, o[b - 1].0@);
                            }
                            if a < p {
                                assert(e[a] == o[a]);
                                lemma_text_le_transitive(o[a].0@, key, o[b - 1].0@);
                            } else if a > p {
                                assert(e[a] == o[a - 1]);
                            }
                        }
                    }
                    assert forall|k: Seq<char>| #[trigger] self@.contains_key(k) == old(self)@.insert(key, val).contains_key(k) by {
                        if exists|j: int| name_at(o, k, j) {
                            let j = choose|j: int| name_at(o, k, j);
                            if j < p {
                                assert(name_at(e, k, j));
                            } else {
                                assert(name_at(e, k, j + 1));
                            }
                        }
                        if exists|j: int| name_at(e, k, j) {
                            let j = choose|j: int| name_at(e, k, j);
                            if j < p {
                                assert(name_at(o, k, j));
                            } else if j > p {
                                assert(name_at(o, k, j - 1));
                            }
                        }
                        if k == key {
                            assert(name_at(e, k, p as int));
                        }
                    }
                    assert forall|k: Seq<char>| #[trigger] self@.contains_key(k) implies self@[k] == old(self)@.insert(key, val)[k] by {
                        let j = choose|j: int| name_at(e, k, j);
                        if k == key {
                            assert(name_at(e, k, p as int));
                            if j != p {
                                assert(e[j].0@ != e[p as int].0@);
                            }
                        } else {
                            assert(j != p);
                            let oj = if j < p { j } else { j - 1 };
                            assert(name_at(o, k, oj));
                            let c = choose|c: int| name_at(o, k, c);
                            if c != oj {
                                assert(o[c].0@ != o[oj].0@);
                            }
                        }
                    }
                    assert(self@ =~= old(self)@.insert(key, val));
                }
            },
        }
    }
}

} // verus!
