use std::collections::{BTreeMap, HashMap};

use lineage::store::distinct;
use lineage::{Lineage, LineageGraph, Name};

fn sorted(mut v: Vec<Name>) -> Vec<Name> {
    v.sort();
    v
}

fn sorted_map(m: HashMap<Name, Vec<Name>>) -> BTreeMap<Name, Vec<Name>> {
    m.into_iter().map(|(k, v)| (k, sorted(v))).collect()
}

fn expect(pairs: &[(Name, &[Name])]) -> BTreeMap<Name, Vec<Name>> {
    pairs.iter().map(|(k, v)| (*k, v.to_vec())).collect()
}

fn base() -> LineageGraph {
    let mut g = LineageGraph::new();
    g.upsert(1, vec![2, 3]);
    g.upsert(2, vec![4, 5]);
    g
}

fn extended() -> LineageGraph {
    let mut g = base();
    g.upsert(0, vec![1, 3]);
    g.upsert(5, vec![6, 7, 8]);
    g
}

#[test]
fn one_hop_queries() {
    let g = base();
    assert_eq!(sorted(g.dependencies(1)), vec![2, 3]);
    assert_eq!(sorted(g.dependencies(2)), vec![4, 5]);
    assert_eq!(sorted(g.dependents(5)), vec![2]);
    assert_eq!(sorted(g.dependents(2)), vec![1]);
}

#[test]
fn cascade_of_one() {
    let g = base();
    assert_eq!(
        sorted_map(g.dependencies_cascade(1)),
        expect(&[(1, &[2, 3]), (2, &[4, 5])])
    );
}

#[test]
fn four_hops_from_zero() {
    let g = extended();
    assert_eq!(
        sorted_map(g.dependencies_k(0, 4)),
        expect(&[(0, &[1, 3]), (1, &[2, 3]), (2, &[4, 5]), (5, &[6, 7, 8])])
    );
}

#[test]
fn dependents_cascade_of_four() {
    let g = extended();
    assert_eq!(
        sorted_map(g.dependents_cascade(4)),
        expect(&[(4, &[2]), (2, &[1]), (1, &[0])])
    );
}

#[test]
fn delete_then_dependents_cascade() {
    let mut g = extended();
    g.delete(0);
    assert_eq!(
        sorted_map(g.dependents_cascade(4)),
        expect(&[(4, &[2]), (2, &[1])])
    );
}

#[test]
fn zero_hops_is_empty() {
    let g = extended();
    for x in 0..10 {
        assert!(g.dependencies_k(x, 0).is_empty());
        assert!(g.dependents_k(x, 0).is_empty());
    }
}

#[test]
fn cycle_terminates() {
    let mut g = LineageGraph::new();
    g.upsert(1, vec![2]);
    g.upsert(2, vec![1]);
    assert_eq!(
        sorted_map(g.dependencies_cascade(1)),
        expect(&[(1, &[2]), (2, &[1])])
    );
    assert_eq!(
        sorted_map(g.dependents_cascade(1)),
        expect(&[(1, &[2]), (2, &[1])])
    );
}

#[test]
fn inverse_symmetry_on_example() {
    let g = extended();
    for a in 0..10 {
        for b in 0..10 {
            assert_eq!(g.dependencies(a).contains(&b), g.dependents(b).contains(&a));
        }
    }
}

#[test]
fn one_hop_matches_cascade_key() {
    let g = extended();
    for a in 0..10 {
        let direct = sorted(g.dependencies(a));
        let at_key = g.dependencies_cascade(a).remove(&a).map(sorted).unwrap_or_default();
        assert_eq!(direct, at_key);
        let back = sorted(g.dependents(a));
        let back_key = g.dependents_cascade(a).remove(&a).map(sorted).unwrap_or_default();
        assert_eq!(back, back_key);
    }
}

#[test]
fn k_hop_grows_with_k() {
    let g = extended();
    let mut prev = BTreeMap::new();
    for k in 0..7 {
        let cur = sorted_map(g.dependencies_k(0, k));
        for (key, vals) in prev.iter() {
            assert_eq!(cur.get(key), Some(vals));
        }
        prev = cur;
    }
    assert_eq!(sorted_map(g.dependencies_k(0, 1)), expect(&[(0, &[1, 3])]));
    assert_eq!(
        sorted_map(g.dependencies_k(0, 2)),
        expect(&[(0, &[1, 3]), (1, &[2, 3])])
    );
}

#[test]
fn k_hop_saturates_at_cascade() {
    let g = extended();
    for a in 0..10 {
        assert_eq!(
            sorted_map(g.dependencies_k(a, 20)),
            sorted_map(g.dependencies_cascade(a))
        );
        assert_eq!(
            sorted_map(g.dependents_k(a, usize::MAX)),
            sorted_map(g.dependents_cascade(a))
        );
    }
}

#[test]
fn upsert_replaces_record() {
    let mut g = base();
    g.upsert(1, vec![7, 8]);
    assert_eq!(sorted(g.dependencies(1)), vec![7, 8]);
    assert!(g.dependents(2).is_empty());
    assert_eq!(sorted(g.dependents(7)), vec![1]);
}

#[test]
fn delete_erases_outgoing_edges() {
    let mut g = extended();
    g.delete(2);
    assert!(g.dependencies(2).is_empty());
    for b in 0..10 {
        assert!(!g.dependents(b).contains(&2));
    }
    // Records that list the deleted name keep it.
    assert_eq!(sorted(g.dependencies(1)), vec![2, 3]);
}

#[test]
fn upsert_twice_same_as_once() {
    let mut once = base();
    once.upsert(9, vec![1, 4]);
    let mut twice = base();
    twice.upsert(9, vec![1, 4]);
    twice.upsert(9, vec![1, 4]);
    for a in 0..10 {
        assert_eq!(sorted(once.dependencies(a)), sorted(twice.dependencies(a)));
        assert_eq!(sorted(once.dependents(a)), sorted(twice.dependents(a)));
        assert_eq!(
            sorted_map(once.dependencies_cascade(a)),
            sorted_map(twice.dependencies_cascade(a))
        );
    }
}

#[test]
fn duplicates_in_upsert_collapse() {
    let mut g = LineageGraph::new();
    g.upsert(1, vec![2, 2, 3, 2]);
    assert_eq!(sorted(g.dependencies(1)), vec![2, 3]);
    assert_eq!(g.dependents(2), vec![1]);
    assert_eq!(distinct(&vec![5, 5, 6, 5, 7]), vec![5, 6, 7]);
}

#[test]
fn unknown_name_is_empty() {
    let g = base();
    assert!(g.dependencies(42).is_empty());
    assert!(g.dependents(42).is_empty());
    assert!(g.dependencies_cascade(42).is_empty());
    assert!(g.dependents_cascade(42).is_empty());
    assert!(g.dependencies_k(42, 3).is_empty());
}

#[test]
fn delete_unknown_changes_nothing() {
    let mut g = base();
    g.delete(42);
    assert_eq!(
        sorted_map(g.dependencies_cascade(1)),
        expect(&[(1, &[2, 3]), (2, &[4, 5])])
    );
}

#[test]
fn through_trait_object() {
    let mut g = base();
    let l: &mut dyn Lineage = &mut g;
    l.upsert(3, vec![9]);
    assert_eq!(sorted(l.dependencies(3)), vec![9]);
    assert_eq!(sorted(l.dependents(9)), vec![3]);
    assert_eq!(
        sorted_map(l.dependents_k(9, 2)),
        expect(&[(9, &[3]), (3, &[1])])
    );
    l.delete(3);
    assert!(l.dependents(9).is_empty());
}

#[test]
fn largest_names() {
    let mut g = LineageGraph::new();
    g.upsert(u64::MAX, vec![0, u64::MAX - 1]);
    g.upsert(0, vec![u64::MAX]);
    assert_eq!(
        sorted_map(g.dependencies_cascade(0)),
        expect(&[(0, &[u64::MAX]), (u64::MAX, &[0, u64::MAX - 1])])
    );
}
