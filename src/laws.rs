use vstd::prelude::*;
use vstd::set_lib::lemma_len_subset;

use crate::model::{
    cascade, children, has_children, k_hop, lemma_nodes_finite, lemma_reaches_at_fixpoint,
    lemma_within_in_nodes, lemma_within_mono, lemma_within_zero, nodes, reaches, step, wf_graph,
    within, within_set,
};
use crate::Name;

verus! {

/// `b` is a dependency of `a` exactly when `a` is a dependent of `b`.
pub proof fn law_inverse_symmetry(g: Map<Name, Set<Name>>, a: Name, b: Name)
    ensures
        children(g, true, a).contains(b) <==> children(g, false, b).contains(a),
{
}

/// The one-hop answer for `a` is what the unbounded answer holds at key `a`,
/// in either direction.
pub proof fn law_one_hop_in_cascade(g: Map<Name, Set<Name>>, forward: bool, a: Name)
    ensures
        children(g, forward, a) == if cascade(g, forward, a).contains_key(a) {
            cascade(g, forward, a)[a]
        } else {
            Set::<Name>::empty()
        },
{
    lemma_within_zero(g, forward, a, a);
    assert(reaches(g, forward, a, a));
    if !has_children(g, forward, a) {
        assert(children(g, forward, a) =~= Set::<Name>::empty());
    }
}

/// A larger bound keeps every key of a smaller one, with the same names
/// under it.
pub proof fn law_k_hop_monotone(g: Map<Name, Set<Name>>, forward: bool, a: Name, k1: nat, k2: nat)
    requires
        k1 <= k2,
    ensures
        k_hop(g, forward, a, k1).dom().subset_of(k_hop(g, forward, a, k2).dom()),
        forall|x: Name| #[trigger]
            k_hop(g, forward, a, k1).contains_key(x) ==> k_hop(g, forward, a, k1)[x].subset_of(
                k_hop(g, forward, a, k2)[x],
            ),
{
    assert forall|x: Name| #[trigger] k_hop(g, forward, a, k1).contains_key(x) implies k_hop(
        g,
        forward,
        a,
        k2,
    ).contains_key(x) by {
        lemma_within_mono(g, forward, a, x, (k1 - 1) as nat, (k2 - 1) as nat);
    }
}

/// With no hops allowed the answer is empty, for every name.
pub proof fn law_zero_hops_empty(g: Map<Name, Set<Name>>, forward: bool, a: Name)
    ensures
        k_hop(g, forward, a, 0) == Map::<Name, Set<Name>>::empty(),
{
    assert(k_hop(g, forward, a, 0) =~= Map::<Name, Set<Name>>::empty());
}

/// Either the names within `n` hops stopped growing at some round up to
/// `n`, or there are at least `n + 1` of them.
proof fn lemma_growth(g: Map<Name, Set<Name>>, forward: bool, a: Name, n: nat)
    requires
        wf_graph(g),
    ensures
        within_set(g, forward, a, n).finite(),
        (exists|m: nat|
            m <= n && #[trigger] stable_at(g, forward, a, m)) || within_set(g, forward, a, n).len()
            >= n + 1,
    decreases n,
{
    lemma_within_set_finite(g, forward, a, n);
    if n == 0 {
        assert forall|x: Name| within_set(g, forward, a, 0).contains(x) <==> x == a by {
            lemma_within_zero(g, forward, a, x);
        }
        assert(within_set(g, forward, a, 0) =~= Set::empty().insert(a));
    } else {
        let p = (n - 1) as nat;
        lemma_growth(g, forward, a, p);
        if !(exists|m: nat| m <= p && #[trigger] stable_at(g, forward, a, m)) {
            if stable_at(g, forward, a, p) {
                assert(p <= n && stable_at(g, forward, a, p));
            } else {
                let x = choose|x: Name| within(g, forward, a, x, p + 1) && !within(g, forward, a, x, p);
                assert(p + 1 == n);
                let big = within_set(g, forward, a, n);
                let small = within_set(g, forward, a, p);
                assert forall|y: Name| small.contains(y) implies big.remove(x).contains(y) by {
                    lemma_within_mono(g, forward, a, y, p, n);
                }
                lemma_len_subset(small, big.remove(x));
                assert(big.contains(x));
            }
        }
    }
}

/// One more hop than `m` adds no name.
pub open spec fn stable_at(g: Map<Name, Set<Name>>, forward: bool, a: Name, m: nat) -> bool {
    forall|x: Name| within(g, forward, a, x, m + 1) ==> within(g, forward, a, x, m)
}

proof fn lemma_within_set_finite(g: Map<Name, Set<Name>>, forward: bool, a: Name, n: nat)
    requires
        wf_graph(g),
    ensures
        within_set(g, forward, a, n).finite(),
        within_set(g, forward, a, n).subset_of(nodes(g).insert(a)),
{
    lemma_nodes_finite(g);
    assert forall|x: Name| within_set(g, forward, a, n).contains(x) implies nodes(g).insert(
        a,
    ).contains(x) by {
        lemma_within_in_nodes(g, forward, a, x, n);
    }
    lemma_len_subset(within_set(g, forward, a, n), nodes(g).insert(a));
}

/// Bounding queries by `k` hops loses nothing, for every name and in either
/// direction.
pub open spec fn saturates(g: Map<Name, Set<Name>>, k: nat) -> bool {
    forall|forward: bool, a: Name| #[trigger] k_hop(g, forward, a, k) == cascade(g, forward, a)
}

/// Some finite bound makes the bounded answer equal the unbounded one, for
/// every name and in either direction.
pub proof fn law_saturation(g: Map<Name, Set<Name>>)
    requires
        wf_graph(g),
    ensures
        exists|k: nat| #[trigger] saturates(g, k),
{
    lemma_nodes_finite(g);
    let n = nodes(g).len() + 1;
    let k = (n + 1) as nat;
    assert forall|forward: bool, a: Name| #[trigger] k_hop(g, forward, a, k) == cascade(g, forward, a) by {
        lemma_growth(g, forward, a, n);
        lemma_within_set_finite(g, forward, a, n);
        lemma_len_subset(within_set(g, forward, a, n), nodes(g).insert(a));
        assert(nodes(g).insert(a).len() <= nodes(g).len() + 1);
        let m = choose|m: nat| m <= n && #[trigger] stable_at(g, forward, a, m);
        lemma_reaches_at_fixpoint(g, forward, a, m);
        assert forall|x: Name| #[trigger] reaches(g, forward, a, x) <==> within(g, forward, a, x, n) by {
            if reaches(g, forward, a, x) {
                lemma_within_mono(g, forward, a, x, m, n);
            }
        }
        assert(k_hop(g, forward, a, k) =~= cascade(g, forward, a));
    }
    assert(saturates(g, k));
}

/// After two upserts of one name, its dependencies are those of the second.
pub proof fn law_upsert_replaces(g: Map<Name, Set<Name>>, a: Name, first: Seq<Name>, second: Seq<Name>)
    ensures
        children(g.insert(a, first.to_set()).insert(a, second.to_set()), true, a) == second.to_set(),
{
    assert(children(g.insert(a, first.to_set()).insert(a, second.to_set()), true, a)
        =~= second.to_set());
}

/// After a delete, the name has no dependencies and is no one's dependent.
pub proof fn law_delete_erases(g: Map<Name, Set<Name>>, a: Name)
    ensures
        children(g.remove(a), true, a) == Set::<Name>::empty(),
        forall|b: Name| !(#[trigger] children(g.remove(a), false, b)).contains(a),
{
    assert(children(g.remove(a), true, a) =~= Set::<Name>::empty());
}

/// Upserting the same record twice leaves the graph as upserting it once.
pub proof fn law_upsert_idempotent(g: Map<Name, Set<Name>>, a: Name, deps: Seq<Name>)
    ensures
        g.insert(a, deps.to_set()).insert(a, deps.to_set()) == g.insert(a, deps.to_set()),
{
    assert(g.insert(a, deps.to_set()).insert(a, deps.to_set()) =~= g.insert(a, deps.to_set()));
}

} // verus!
