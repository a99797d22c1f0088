use vstd::prelude::*;

use std::collections::HashMap;

use crate::model::{
    as_sets, holds_within, cascade, children, has_children, k_hop, lemma_nodes_finite, lemma_reaches_at_fixpoint,
    lemma_within_in_nodes, lemma_within_mono, lemma_within_split, lemma_within_stable,
    lemma_within_step, lemma_within_zero, lists_distinct, nodes, reaches, step, wf_graph, within,
};
use crate::Name;

verus! {

broadcast use {vstd::seq_lib::lemma_seq_contains_after_push, vstd::std_specs::hash::group_hash_axioms};

/// An in-memory dependency graph: one record per live name, holding the
/// names it depends on, without repeats.
pub struct LineageGraph {
    names: Vec<Name>,
    deps: Vec<Vec<Name>>,
    records: Ghost<Map<Name, Set<Name>>>,
}

/// Keeps the first occurrence of each name.
pub fn distinct(v: &Vec<Name>) -> (r: Vec<Name>)
    ensures
        r@.no_duplicates(),
        r@.to_set() == v@.to_set(),
{
    let mut r: Vec<Name> = Vec::new();
    let mut i: usize = 0;
    while i < v.len()
        invariant
            i <= v.len(),
            r@.no_duplicates(),
            forall|x: Name| r@.contains(x) <==> exists|j: int| 0 <= j < i && v@[j] == x,
        decreases v.len() - i,
    {
        let x = v[i];
        let ghost prev = r@;
        if !contains(&r, x) {
            r.push(x);
        }
        proof {
            assert(r@ == prev || r@ == prev.push(x));
            assert forall|y: Name| r@.contains(y) <==> exists|j: int| 0 <= j < i + 1 && v@[j] == y by {
                if y == x {
                    assert(v@[i as int] == y);
                }
                if exists|j: int| 0 <= j < i + 1 && v@[j] == y {
                    let j = choose|j: int| 0 <= j < i + 1 && v@[j] == y;
                    if j < i {
                        assert(prev.contains(y));
                    }
                }
            }
        }
        i += 1;
    }
    proof {
        assert forall|y: Name| r@.to_set().contains(y) <==> v@.to_set().contains(y) by {
            if v@.contains(y) {
                let j = choose|j: int| 0 <= j < v.len() && v@[j] == y;
            }
        }
        assert(r@.to_set() =~= v@.to_set());
    }
    r
}

/// Whether `x` occurs in `v`.
pub fn contains(v: &Vec<Name>, x: Name) -> (r: bool)
    ensures
        r == v@.contains(x),
{
    let mut i: usize = 0;
    while i < v.len()
        invariant
            i <= v.len(),
            forall|j: int| 0 <= j < i ==> v@[j] != x,
        decreases v.len() - i,
    {
        if v[i] == x {
            return true;
        }
        i += 1;
    }
    false
}

impl LineageGraph {
    /// The records as a map from each live name to the set of its dependencies.
    pub closed spec fn graph(&self) -> Map<Name, Set<Name>> {
        self.records@
    }

    /// The vectors hold exactly the records, each name once.
    pub closed spec fn inv(&self) -> bool {
        &&& self.names.len() == self.deps.len()
        &&& self.names@.no_duplicates()
        &&& self.records@.dom() == self.names@.to_set()
        &&& forall|i: int|
            0 <= i < self.names.len() ==> #[trigger] self.deps@[i]@.no_duplicates()
                && self.records@[self.names@[i]] == self.deps@[i]@.to_set()
    }

    /// A graph with no records.
    pub fn new() -> (r: Self)
        ensures
            r.inv(),
            r.graph() == Map::<Name, Set<Name>>::empty(),
    {
        let r = LineageGraph { names: Vec::new(), deps: Vec::new(), records: Ghost(Map::empty()) };
        proof {
            assert(r.names@.to_set() =~= Set::empty());
        }
        r
    }

    /// The graph of a well-formed store is finite.
    pub proof fn lemma_graph_wf(&self)
        requires
            self.inv(),
        ensures
            wf_graph(self.graph()),
    {
        assert forall|a: Name| #[trigger] self.records@.contains_key(a) implies self.records@[a].finite() by {
            assert(self.names@.to_set().contains(a));
            let i = choose|i: int| 0 <= i < self.names.len() && self.names@[i] == a;
            assert(self.deps@[i]@.no_duplicates());
        }
    }

    fn find(&self, name: Name) -> (r: Option<usize>)
        requires
            self.inv(),
        ensures
            match r {
                Some(i) => i < self.names.len() && self.names@[i as int] == name,
                None => !self.graph().contains_key(name),
            },
    {
        let mut i: usize = 0;
        while i < self.names.len()
            invariant
                i <= self.names.len(),
                forall|j: int| 0 <= j < i ==> self.names@[j] != name,
            decreases self.names.len() - i,
        {
            if self.names[i] == name {
                return Some(i);
            }
            i += 1;
        }
        proof {
            assert(!self.names@.to_set().contains(name));
        }
        None
    }

    /// The names one hop from `name`, each once.
    fn children_of(&self, forward: bool, name: Name) -> (r: Vec<Name>)
        requires
            self.inv(),
        ensures
            r@.no_duplicates(),
            r@.to_set() == children(self.graph(), forward, name),
    {
        if forward {
            match self.find(name) {
                Some(i) => {
                    let r = self.deps[i].clone();
                    proof {
                        assert(self.deps@[i as int]@.no_duplicates());
                        assert(r@.to_set() =~= children(self.graph(), forward, name));
                    }
                    r
                },
                None => {
                    let r: Vec<Name> = Vec::new();
                    proof {
                        assert(r@.to_set() =~= children(self.graph(), forward, name));
                    }
                    r
                },
            }
        } else {
            let mut r: Vec<Name> = Vec::new();
            let mut i: usize = 0;
            while i < self.names.len()
                invariant
                    self.inv(),
                    !forward,
                    i <= self.names.len(),
                    r@.no_duplicates(),
                    forall|x: Name|
                        r@.contains(x) <==> exists|j: int|
                            0 <= j < i && #[trigger] self.names@[j] == x && self.deps@[j]@.contains(
                                name,
                            ),
                decreases self.names.len() - i,
            {
                let n = self.names[i];
                let ghost prev = r@;
                if contains(&self.deps[i], name) {
                    proof {
                        assert(!r@.contains(n)) by {
                            if r@.contains(n) {
                                let j = choose|j: int|
                                    0 <= j < i && #[trigger] self.names@[j] == n
                                        && self.deps@[j]@.contains(name);
                                assert(self.names@[j] == self.names@[i as int]);
                            }
                        }
                    }
                    r.push(n);
                }
                proof {
                    assert forall|x: Name|
                        r@.contains(x) <==> exists|j: int|
                            0 <= j < i + 1 && #[trigger] self.names@[j] == x
                                && self.deps@[j]@.contains(name) by {
                        if exists|j: int|
                            0 <= j < i + 1 && #[trigger] self.names@[j] == x
                                && self.deps@[j]@.contains(name) {
                            let j = choose|j: int|
                                0 <= j < i + 1 && #[trigger] self.names@[j] == x
                                    && self.deps@[j]@.contains(name);
                            if j < i {
                                assert(prev.contains(x));
                            }
                        }
                        if r@.contains(x) && !prev.contains(x) {
                            assert(self.names@[i as int] == x);
                        }
                    }
                }
                i += 1;
            }
            proof {
                let g = self.graph();
                assert forall|x: Name| r@.to_set().contains(x) <==> step(g, forward, name, x) by {
                    if r@.contains(x) {
                        let j = choose|j: int|
                            0 <= j < i && #[trigger] self.names@[j] == x && self.deps@[j]@.contains(
                                name,
                            );
                        assert(self.names@.to_set().contains(x));
                        assert(self.deps@[j]@.no_duplicates());
                    }
                    if step(g, forward, name, x) {
                        assert(self.names@.to_set().contains(x));
                        let j = choose|j: int| 0 <= j < self.names.len() && self.names@[j] == x;
                        assert(self.deps@[j]@.no_duplicates());
                        assert(self.deps@[j]@.to_set().contains(name));
                    }
                }
                assert(r@.to_set() =~= children(g, forward, name));
            }
            r
        }
    }

    /// The names that `name` depends on, each once; empty when `name` has
    /// no record.
    pub fn dependencies(&self, name: Name) -> (r: Vec<Name>)
        requires
            self.inv(),
        ensures
            r@.no_duplicates(),
            r@.to_set() == children(self.graph(), true, name),
    {
        self.children_of(true, name)
    }

    /// The live names whose records list `name`, each once.
    pub fn dependents(&self, name: Name) -> (r: Vec<Name>)
        requires
            self.inv(),
        ensures
            r@.no_duplicates(),
            r@.to_set() == children(self.graph(), false, name),
    {
        self.children_of(false, name)
    }

    /// Creates or replaces the record of `name`; repeated dependencies count once.
    pub fn upsert(&mut self, name: Name, dependencies: Vec<Name>)
        requires
            old(self).inv(),
        ensures
            final(self).inv(),
            final(self).graph() == old(self).graph().insert(name, dependencies@.to_set()),
    {
        let list = distinct(&dependencies);
        let ghost g = self.records@.insert(name, dependencies@.to_set());
        match self.find(name) {
            Some(i) => {
                let ghost before = self.deps@;
                self.deps.set(i, list);
                self.records = Ghost(g);
                proof {
                    assert(self.names@.to_set().contains(name));
                    assert(self.records@.dom() =~= self.names@.to_set());
                    assert forall|j: int| 0 <= j < self.names.len() implies #[trigger] self.deps@[j]@.no_duplicates()
                        && self.records@[self.names@[j]] == self.deps@[j]@.to_set() by {
                        if j != i {
                            assert(self.deps@[j] == before[j]);
                            assert(self.names@[j] != name);
                        }
                    }
                }
            },
            None => {
                let ghost before_names = self.names@;
                let ghost before = self.deps@;
                self.names.push(name);
                self.deps.push(list);
                self.records = Ghost(g);
                proof {
                    assert(self.names@ == before_names.push(name));
                    assert(self.names@.to_set() =~= before_names.to_set().insert(name));
                    assert(self.records@.dom() =~= self.names@.to_set());
                    assert forall|j: int| 0 <= j < self.names.len() implies #[trigger] self.deps@[j]@.no_duplicates()
                        && self.records@[self.names@[j]] == self.deps@[j]@.to_set() by {
                        if j < before_names.len() {
                            assert(self.deps@[j] == before[j]);
                            assert(before_names.to_set().contains(before_names[j]));
                            assert(self.names@[j] != name);
                        }
                    }
                }
            },
        }
    }

    /// Removes the record of `name`, if any. Records of other names that
    /// list `name` keep it.
    pub fn delete(&mut self, name: Name)
        requires
            old(self).inv(),
        ensures
            final(self).inv(),
            final(self).graph() == old(self).graph().remove(name),
    {
        let ghost g = self.records@.remove(name);
        match self.find(name) {
            Some(i) => {
                let ghost before_names = self.names@;
                let ghost before = self.deps@;
                self.names.remove(i);
                self.deps.remove(i);
                self.records = Ghost(g);
                proof {
                    assert forall|j: int| 0 <= j < self.names.len() implies self.names@[j] == if j < i {
                        before_names[j]
                    } else {
                        before_names[j + 1]
                    } && self.deps@[j] == if j < i {
                        before[j]
                    } else {
                        before[j + 1]
                    } by {}
                    assert(self.names@.no_duplicates()) by {
                        assert forall|a: int, b: int|
                            0 <= a < self.names.len() && 0 <= b < self.names.len() && a != b implies
                            self.names@[a] != self.names@[b] by {
                            let a2 = if a < i { a } else { a + 1 };
                            let b2 = if b < i { b } else { b + 1 };
                            assert(before_names[a2] != before_names[b2]);
                        }
                    }
                    assert forall|x: Name| self.names@.to_set().contains(x) <==> self.records@.dom().contains(x) by {
                        if self.names@.contains(x) {
                            let j = choose|j: int| 0 <= j < self.names.len() && self.names@[j] == x;
                            let j2 = if j < i { j } else { j + 1 };
                            assert(before_names[j2] == x);
                            assert(before_names.to_set().contains(x));
                            assert(j2 != i);
                        }
                        if self.records@.dom().contains(x) {
                            assert(before_names.to_set().contains(x));
                            let j = choose|j: int| 0 <= j < before_names.len() && before_names[j] == x;
                            assert(j != i);
                            let j2 = if j < i { j } else { j - 1 };
                            assert(self.names@[j2] == x);
                        }
                    }
                    assert(self.records@.dom() =~= self.names@.to_set());
                    assert(self.names.len() == self.deps.len());
                    assert forall|j: int| 0 <= j < self.names.len() implies #[trigger] self.deps@[j]@.no_duplicates()
                        && self.records@[self.names@[j]] == self.deps@[j]@.to_set() by {
                        let j2 = if j < i { j } else { j + 1 };
                        assert(self.names@[j] == before_names[j2]);
                        assert(self.deps@[j] == before[j2]);
                        assert(before[j2]@.no_duplicates());
                        assert(before_names[j2] != name);
                    }
                    assert(self.names@.no_duplicates());
                    assert(self.inv());
                }
            },
            None => {
                proof {
                    assert(self.records@.remove(name) =~= self.records@);
                    assert(self.inv());
                }
            },
        }
    }

    /// One more round of the search from `name`: `reached` followed by every
    /// name one hop from it that it does not already hold.
    fn expand(&self, forward: bool, name: Name, reached: &Vec<Name>, Ghost(d): Ghost<nat>) -> (r: Vec<
        Name,
    >)
        requires
            self.inv(),
            reached@.no_duplicates(),
            holds_within(reached@, self.graph(), forward, name, d),
        ensures
            r@.no_duplicates(),
            holds_within(r@, self.graph(), forward, name, (d + 1) as nat),
            reached.len() <= r.len(),
            r@.subrange(0, reached.len() as int) == reached@,
    {
        let ghost g = self.graph();
        let mut r = reached.clone();
        let mut i: usize = 0;
        proof {
            assert forall|x: Name| r@.contains(x) implies within(g, forward, name, x, d + 1) by {
                lemma_within_mono(g, forward, name, x, d, d + 1);
            }
        }
        while i < reached.len()
            invariant
                self.inv(),
                g == self.graph(),
                i <= reached.len(),
                reached@.no_duplicates(),
                holds_within(reached@, g, forward, name, d),
                r@.no_duplicates(),
                reached.len() <= r.len(),
                r@.subrange(0, reached.len() as int) == reached@,
                forall|x: Name| r@.contains(x) ==> within(g, forward, name, x, d + 1),
                forall|j: int, b: Name|
                    0 <= j < i && #[trigger] step(g, forward, reached@[j], b) ==> r@.contains(b),
            decreases reached.len() - i,
        {
            let y = reached[i];
            let c = self.children_of(forward, y);
            let mut k: usize = 0;
            while k < c.len()
                invariant
                    self.inv(),
                    g == self.graph(),
                    i < reached.len(),
                    y == reached@[i as int],
                    k <= c.len(),
                    c@.to_set() == children(g, forward, y),
                    holds_within(reached@, g, forward, name, d),
                    r@.no_duplicates(),
                    reached.len() <= r.len(),
                    r@.subrange(0, reached.len() as int) == reached@,
                    forall|x: Name| r@.contains(x) ==> within(g, forward, name, x, d + 1),
                    forall|j: int, b: Name|
                        0 <= j < i && #[trigger] step(g, forward, reached@[j], b) ==> r@.contains(b),
                    forall|l: int| 0 <= l < k ==> r@.contains(#[trigger] c@[l]),
                decreases c.len() - k,
            {
                let b = c[k];
                let ghost prev = r@;
                proof {
                    assert(c@.to_set().contains(b));
                    assert(reached@.contains(y));
                    lemma_within_step(g, forward, name, y, b, d);
                }
                if !contains(&r, b) {
                    r.push(b);
                    proof {
                        assert(r@.subrange(0, reached.len() as int) =~= prev.subrange(
                            0,
                            reached.len() as int,
                        ));
                    }
                }
                k += 1;
            }
            proof {
                assert forall|j: int, b: Name|
                    0 <= j < i + 1 && #[trigger] step(g, forward, reached@[j], b) implies r@.contains(
                        b,
                    ) by {
                    if j == i {
                        assert(children(g, forward, y).contains(b));
                        assert(c@.contains(b));
                        let l = choose|l: int| 0 <= l < c.len() && c@[l] == b;
                    }
                }
            }
            i += 1;
        }
        proof {
            assert forall|x: Name| within(g, forward, name, x, d + 1) implies r@.contains(x) by {
                lemma_within_split(g, forward, name, x, d);
                if within(g, forward, name, x, d) {
                    let j = choose|j: int| 0 <= j < reached.len() && reached@[j] == x;
                    assert(r@.subrange(0, reached.len() as int)[j] == x);
                } else {
                    let y = choose|y: Name| #[trigger] within(g, forward, name, y, d) && step(g, forward, y, x);
                    let j = choose|j: int| 0 <= j < reached.len() && reached@[j] == y;
                    assert(step(g, forward, reached@[j], x));
                }
            }
        }
        r
    }

    /// The names within `rounds` hops of `name`, each once.
    fn reachable_within(&self, forward: bool, name: Name, rounds: usize) -> (r: Vec<Name>)
        requires
            self.inv(),
        ensures
            r@.no_duplicates(),
            holds_within(r@, self.graph(), forward, name, rounds as nat),
    {
        let ghost g = self.graph();
        let mut reached: Vec<Name> = vec![name];
        proof {
            assert forall|x: Name| reached@.contains(x) <==> within(g, forward, name, x, 0) by {
                lemma_within_zero(g, forward, name, x);
                if x == name {
                    assert(reached@[0] == x);
                }
            }
        }
        let mut d: usize = 0;
        while d < rounds
            invariant
                self.inv(),
                g == self.graph(),
                d <= rounds,
                reached@.no_duplicates(),
                holds_within(reached@, g, forward, name, d as nat),
            decreases rounds - d,
        {
            let next = self.expand(forward, name, &reached, Ghost(d as nat));
            if next.len() == reached.len() {
                proof {
                    assert(next@ =~= reached@) by {
                        assert(next@.subrange(0, reached.len() as int) =~= next@);
                    }
                    lemma_within_stable(g, forward, name, d as nat, rounds as nat);
                    assert forall|x: Name| within(g, forward, name, x, d as nat) implies within(
                        g,
                        forward,
                        name,
                        x,
                        rounds as nat,
                    ) by {
                        lemma_within_mono(g, forward, name, x, d as nat, rounds as nat);
                    }
                }
                return reached;
            }
            reached = next;
            d += 1;
        }
        reached
    }

    /// Every name reachable from `name`, each once.
    fn reachable_all(&self, forward: bool, name: Name) -> (r: Vec<Name>)
        requires
            self.inv(),
        ensures
            r@.no_duplicates(),
            forall|x: Name| r@.contains(x) <==> reaches(self.graph(), forward, name, x),
    {
        let ghost g = self.graph();
        let ghost all = nodes(g).insert(name);
        proof {
            self.lemma_graph_wf();
            lemma_nodes_finite(g);
        }
        let mut reached: Vec<Name> = vec![name];
        let ghost mut d: nat = 0;
        proof {
            assert forall|x: Name| reached@.contains(x) <==> within(g, forward, name, x, 0) by {
                lemma_within_zero(g, forward, name, x);
                if x == name {
                    assert(reached@[0] == x);
                }
            }
            self.lemma_reached_bound(forward, name, reached@, d);
        }
        loop
            invariant
                self.inv(),
                g == self.graph(),
                all == nodes(g).insert(name),
                all.finite(),
                reached@.no_duplicates(),
                holds_within(reached@, g, forward, name, d),
                reached.len() <= all.len(),
            decreases all.len() - reached.len(),
        {
            let next = self.expand(forward, name, &reached, Ghost(d));
            if next.len() == reached.len() {
                proof {
                    assert(next@ =~= reached@) by {
                        assert(next@.subrange(0, reached.len() as int) =~= next@);
                    }
                    lemma_reaches_at_fixpoint(g, forward, name, d);
                }
                return reached;
            }
            reached = next;
            proof {
                d = d + 1;
                self.lemma_reached_bound(forward, name, reached@, d);
            }
        }
    }

    proof fn lemma_reached_bound(&self, forward: bool, name: Name, s: Seq<Name>, d: nat)
        requires
            self.inv(),
            s.no_duplicates(),
            holds_within(s, self.graph(), forward, name, d),
        ensures
            s.len() <= nodes(self.graph()).insert(name).len(),
            nodes(self.graph()).insert(name).finite(),
    {
        let g = self.graph();
        self.lemma_graph_wf();
        lemma_nodes_finite(g);
        assert forall|x: Name| s.to_set().contains(x) implies nodes(g).insert(name).contains(x) by {
            lemma_within_in_nodes(g, forward, name, x, d);
        }
        s.unique_seq_to_set();
        vstd::set_lib::lemma_len_subset(s.to_set(), nodes(g).insert(name));
    }

    /// Maps each name of `reached` that has children to its children.
    fn answer(&self, forward: bool, reached: &Vec<Name>) -> (r: HashMap<Name, Vec<Name>>)
        requires
            self.inv(),
        ensures
            lists_distinct(r@),
            forall|x: Name|
                #[trigger] r@.contains_key(x) <==> reached@.contains(x) && has_children(
                    self.graph(),
                    forward,
                    x,
                ),
            forall|x: Name|
                #[trigger] r@.contains_key(x) ==> r@[x]@.to_set() == children(self.graph(), forward, x),
    {
        let ghost g = self.graph();
        let mut m: HashMap<Name, Vec<Name>> = HashMap::new();
        let mut i: usize = 0;
        while i < reached.len()
            invariant
                self.inv(),
                g == self.graph(),
                i <= reached.len(),
                lists_distinct(m@),
                forall|x: Name|
                    #[trigger] m@.contains_key(x) <==> (exists|j: int| 0 <= j < i && reached@[j] == x)
                        && has_children(g, forward, x),
                forall|x: Name|
                    #[trigger] m@.contains_key(x) ==> m@[x]@.to_set() == children(g, forward, x),
            decreases reached.len() - i,
        {
            let x = reached[i];
            let c = self.children_of(forward, x);
            proof {
                if c.len() > 0 {
                    assert(c@.to_set().contains(c@[0]));
                    assert(step(g, forward, x, c@[0]));
                }
                if has_children(g, forward, x) {
                    let b = choose|b: Name| step(g, forward, x, b);
                    assert(children(g, forward, x).contains(b));
                    assert(c@.contains(b));
                }
            }
            if c.len() > 0 {
                m.insert(x, c);
            }
            proof {
                assert forall|z: Name|
                    #[trigger] m@.contains_key(z) <==> (exists|j: int| 0 <= j < i + 1 && reached@[j] == z)
                        && has_children(g, forward, z) by {
                    if z == x {
                        assert(reached@[i as int] == z);
                    }
                }
            }
            i += 1;
        }
        proof {
            assert forall|x: Name|
                #[trigger] m@.contains_key(x) <==> reached@.contains(x) && has_children(g, forward, x) by {
                if reached@.contains(x) {
                    let j = choose|j: int| 0 <= j < reached.len() && reached@[j] == x;
                }
            }
        }
        m
    }

    fn closure(&self, forward: bool, name: Name) -> (r: HashMap<Name, Vec<Name>>)
        requires
            self.inv(),
        ensures
            lists_distinct(r@),
            as_sets(r@) == cascade(self.graph(), forward, name),
    {
        let reached = self.reachable_all(forward, name);
        let r = self.answer(forward, &reached);
        proof {
            assert(as_sets(r@) =~= cascade(self.graph(), forward, name));
        }
        r
    }

    fn bounded(&self, forward: bool, name: Name, k: usize) -> (r: HashMap<Name, Vec<Name>>)
        requires
            self.inv(),
        ensures
            lists_distinct(r@),
            as_sets(r@) == k_hop(self.graph(), forward, name, k as nat),
    {
        if k == 0 {
            let r: HashMap<Name, Vec<Name>> = HashMap::new();
            proof {
                assert(as_sets(r@) =~= k_hop(self.graph(), forward, name, k as nat));
            }
            return r;
        }
        let reached = self.reachable_within(forward, name, k - 1);
        let r = self.answer(forward, &reached);
        proof {
            assert(as_sets(r@) =~= k_hop(self.graph(), forward, name, k as nat));
        }
        r
    }

    /// Every name reachable from `name` along dependencies that has a
    /// non-empty record, mapped to that record. Cycles are allowed.
    pub fn dependencies_cascade(&self, name: Name) -> (r: HashMap<Name, Vec<Name>>)
        requires
            self.inv(),
        ensures
            lists_distinct(r@),
            as_sets(r@) == cascade(self.graph(), true, name),
    {
        self.closure(true, name)
    }

    /// Every name reachable from `name` against dependencies that some live
    /// record lists, mapped to the live names whose records list it.
    pub fn dependents_cascade(&self, name: Name) -> (r: HashMap<Name, Vec<Name>>)
        requires
            self.inv(),
        ensures
            lists_distinct(r@),
            as_sets(r@) == cascade(self.graph(), false, name),
    {
        self.closure(false, name)
    }

    /// As `dependencies_cascade`, keeping only the names within `k - 1` hops
    /// of `name`; empty when `k` is 0.
    pub fn dependencies_k(&self, name: Name, k: usize) -> (r: HashMap<Name, Vec<Name>>)
        requires
            self.inv(),
        ensures
            lists_distinct(r@),
            as_sets(r@) == k_hop(self.graph(), true, name, k as nat),
    {
        self.bounded(true, name, k)
    }

    /// As `dependents_cascade`, keeping only the names within `k - 1` hops
    /// of `name`; empty when `k` is 0.
    pub fn dependents_k(&self, name: Name, k: usize) -> (r: HashMap<Name, Vec<Name>>)
        requires
            self.inv(),
        ensures
            lists_distinct(r@),
            as_sets(r@) == k_hop(self.graph(), false, name, k as nat),
    {
        self.bounded(false, name, k)
    }
}

} // verus!
