use std::collections::HashMap;
use vstd::prelude::*;

use crate::model::{as_sets, cascade, children, k_hop, lists_distinct};
use crate::store::LineageGraph;

verus! {

/// An opaque node identifier.
pub type Name = u64;

/// A lineage service: records of what each name depends on, and queries over
/// them in both directions.
pub trait Lineage {
    /// The live records, each name mapped to the set of its dependencies.
    spec fn records(&self) -> Map<Name, Set<Name>>;

    /// The service's internal state is consistent.
    spec fn valid(&self) -> bool;

    /// The dependencies of `name`, each once.
    fn dependencies(&self, name: Name) -> (r: Vec<Name>)
        requires
            self.valid(),
        ensures
            r@.no_duplicates(),
            r@.to_set() == children(self.records(), true, name),
    ;

    /// The live names that depend on `name`, each once.
    fn dependents(&self, name: Name) -> (r: Vec<Name>)
        requires
            self.valid(),
        ensures
            r@.no_duplicates(),
            r@.to_set() == children(self.records(), false, name),
    ;

    /// Every name reachable from `name` along dependencies, mapped to its
    /// dependencies; names without any are left out.
    fn dependencies_cascade(&self, name: Name) -> (r: HashMap<Name, Vec<Name>>)
        requires
            self.valid(),
        ensures
            lists_distinct(r@),
            as_sets(r@) == cascade(self.records(), true, name),
    ;

    /// Every name reachable from `name` against dependencies, mapped to its
    /// dependents; names without any are left out.
    fn dependents_cascade(&self, name: Name) -> (r: HashMap<Name, Vec<Name>>)
        requires
            self.valid(),
        ensures
            lists_distinct(r@),
            as_sets(r@) == cascade(self.records(), false, name),
    ;

    /// As `dependencies_cascade`, within `k - 1` hops of `name`.
    fn dependencies_k(&self, name: Name, k: usize) -> (r: HashMap<Name, Vec<Name>>)
        requires
            self.valid(),
        ensures
            lists_distinct(r@),
            as_sets(r@) == k_hop(self.records(), true, name, k as nat),
    ;

    /// As `dependents_cascade`, within `k - 1` hops of `name`.
    fn dependents_k(&self, name: Name, k: usize) -> (r: HashMap<Name, Vec<Name>>)
        requires
            self.valid(),
        ensures
            lists_distinct(r@),
            as_sets(r@) == k_hop(self.records(), false, name, k as nat),
    ;

    /// Creates or replaces the record of `name`.
    fn upsert(&mut self, name: Name, dependencies: Vec<Name>)
        requires
            old(self).valid(),
        ensures
            final(self).valid(),
            final(self).records() == old(self).records().insert(name, dependencies@.to_set()),
    ;

    /// Removes the record of `name`, if any.
    fn delete(&mut self, name: Name)
        requires
            old(self).valid(),
        ensures
            final(self).valid(),
            final(self).records() == old(self).records().remove(name),
    ;
}

impl Lineage for LineageGraph {
    open spec fn records(&self) -> Map<Name, Set<Name>> {
        self.graph()
    }

    open spec fn valid(&self) -> bool {
        self.inv()
    }

    fn dependencies(&self, name: Name) -> (r: Vec<Name>) {
        LineageGraph::dependencies(self, name)
    }

    fn dependents(&self, name: Name) -> (r: Vec<Name>) {
        LineageGraph::dependents(self, name)
    }

    fn dependencies_cascade(&self, name: Name) -> (r: HashMap<Name, Vec<Name>>) {
        LineageGraph::dependencies_cascade(self, name)
    }

    fn dependents_cascade(&self, name: Name) -> (r: HashMap<Name, Vec<Name>>) {
        LineageGraph::dependents_cascade(self, name)
    }

    fn dependencies_k(&self, name: Name, k: usize) -> (r: HashMap<Name, Vec<Name>>) {
        LineageGraph::dependencies_k(self, name, k)
    }

    fn dependents_k(&self, name: Name, k: usize) -> (r: HashMap<Name, Vec<Name>>) {
        LineageGraph::dependents_k(self, name, k)
    }

    fn upsert(&mut self, name: Name, dependencies: Vec<Name>) {
        LineageGraph::upsert(self, name, dependencies)
    }

    fn delete(&mut self, name: Name) {
        LineageGraph::delete(self, name)
    }
}

} // verus!
