use vstd::prelude::*;
use vstd::set_lib::*;

use crate::Name;

verus! {

/// A graph is well formed when it holds finitely many records, each with
/// finitely many dependencies.
pub open spec fn wf_graph(g: Map<Name, Set<Name>>) -> bool {
    &&& g.dom().finite()
    &&& forall|a: Name| #[trigger] g.contains_key(a) ==> g[a].finite()
}

/// One hop from `a` to `b`: along a declared dependency when `forward`,
/// against it otherwise.
pub open spec fn step(g: Map<Name, Set<Name>>, forward: bool, a: Name, b: Name) -> bool {
    if forward {
        g.contains_key(a) && g[a].contains(b)
    } else {
        g.contains_key(b) && g[b].contains(a)
    }
}

/// The names one hop away from `a`.
pub open spec fn children(g: Map<Name, Set<Name>>, forward: bool, a: Name) -> Set<Name> {
    Set::new(|b: Name| step(g, forward, a, b))
}

/// Whether `a` has at least one name one hop away.
pub open spec fn has_children(g: Map<Name, Set<Name>>, forward: bool, a: Name) -> bool {
    exists|b: Name| step(g, forward, a, b)
}

/// `p` is a walk: every name in it is one hop from the one before.
pub open spec fn is_walk(g: Map<Name, Set<Name>>, forward: bool, p: Seq<Name>) -> bool {
    &&& p.len() >= 1
    &&& forall|i: int| 0 <= i < p.len() - 1 ==> #[trigger] step(g, forward, p[i], p[i + 1])
}

/// `x` is reachable from `a` in at most `n` hops.
pub open spec fn within(g: Map<Name, Set<Name>>, forward: bool, a: Name, x: Name, n: nat) -> bool {
    exists|p: Seq<Name>|
        #![trigger is_walk(g, forward, p), p.len()]
        is_walk(g, forward, p) && p[0] == a && p.last() == x && p.len() <= n + 1
}

/// `x` is reachable from `a` in any finite number of hops.
pub open spec fn reaches(g: Map<Name, Set<Name>>, forward: bool, a: Name, x: Name) -> bool {
    exists|n: nat| within(g, forward, a, x, n)
}

/// The answer to a query bounded by `k` hops: every name within `k - 1` hops
/// of `a` that has children, mapped to its children; nothing when `k` is 0.
pub open spec fn k_hop(g: Map<Name, Set<Name>>, forward: bool, a: Name, k: nat) -> Map<
    Name,
    Set<Name>,
> {
    Map::new(
        |x: Name| k > 0 && within(g, forward, a, x, (k - 1) as nat) && has_children(g, forward, x),
        |x: Name| children(g, forward, x),
    )
}

/// The answer to an unbounded query: every name reachable from `a` that has
/// children, mapped to its children.
pub open spec fn cascade(g: Map<Name, Set<Name>>, forward: bool, a: Name) -> Map<Name, Set<Name>> {
    Map::new(
        |x: Name| reaches(g, forward, a, x) && has_children(g, forward, x),
        |x: Name| children(g, forward, x),
    )
}

/// Reads a map of lists as a map of sets.
pub open spec fn as_sets(m: Map<Name, Vec<Name>>) -> Map<Name, Set<Name>> {
    Map::new(|x: Name| m.contains_key(x), |x: Name| m[x]@.to_set())
}

/// No list in the map repeats a name.
pub open spec fn lists_distinct(m: Map<Name, Vec<Name>>) -> bool {
    forall|x: Name| #[trigger] m.contains_key(x) ==> m[x]@.no_duplicates()
}

/// Every name that the graph mentions: the live records and their dependencies.
pub open spec fn nodes(g: Map<Name, Set<Name>>) -> Set<Name> {
    Set::new(|b: Name| g.contains_key(b) || exists|x: Name| g.contains_key(x) && #[trigger] g[x].contains(b))
}

/// The names within `n` hops of `a`.
pub open spec fn within_set(g: Map<Name, Set<Name>>, forward: bool, a: Name, n: nat) -> Set<Name> {
    Set::new(|x: Name| within(g, forward, a, x, n))
}

/// `s` lists exactly the names within `n` hops of `a`.
pub open spec fn holds_within(s: Seq<Name>, g: Map<Name, Set<Name>>, forward: bool, a: Name, n: nat) -> bool {
    forall|x: Name|
        #![trigger s.contains(x)]
        #![trigger within(g, forward, a, x, n)]
        s.contains(x) <==> within(g, forward, a, x, n)
}

/// A well-formed graph mentions finitely many names.
pub proof fn lemma_nodes_finite(g: Map<Name, Set<Name>>)
    requires
        wf_graph(g),
    ensures
        nodes(g).finite(),
    decreases g.dom().len(),
{
    if g.dom().len() == 0 {
        assert(g.dom() =~= Set::empty());
        assert(nodes(g) =~= Set::empty());
    } else {
        let k = g.dom().choose();
        let h = g.remove(k);
        assert(h.dom() =~= g.dom().remove(k));
        assert(wf_graph(h));
        lemma_nodes_finite(h);
        let bigger = nodes(h).union(g[k]).insert(k);
        assert forall|b: Name| nodes(g).contains(b) implies bigger.contains(b) by {
            if g.contains_key(b) {
                if b != k {
                    assert(h.contains_key(b));
                }
            } else {
                let x = choose|x: Name| g.contains_key(x) && #[trigger] g[x].contains(b);
                if x != k {
                    assert(h.contains_key(x) && h[x].contains(b));
                }
            }
        }
        lemma_set_subset_finite(bigger, nodes(g));
    }
}

/// Every name within any number of hops of `a` is `a` or a name of the graph.
pub proof fn lemma_within_in_nodes(g: Map<Name, Set<Name>>, forward: bool, a: Name, x: Name, n: nat)
    requires
        within(g, forward, a, x, n),
    ensures
        nodes(g).insert(a).contains(x),
{
    let p = choose|p: Seq<Name>|
        #![trigger is_walk(g, forward, p), p.len()]
        is_walk(g, forward, p) && p[0] == a && p.last() == x && p.len() <= n + 1;
    if p.len() > 1 {
        let i = p.len() - 2;
        assert(step(g, forward, p[i], p[i + 1]));
        if forward {
            assert(g.contains_key(p[i]) && g[p[i]].contains(x));
        } else {
            assert(g.contains_key(x));
        }
    }
}

/// Reachability within `n` hops carries over to any larger bound.
pub proof fn lemma_within_mono(g: Map<Name, Set<Name>>, forward: bool, a: Name, x: Name, n: nat, m: nat)
    requires
        n <= m,
        within(g, forward, a, x, n),
    ensures
        within(g, forward, a, x, m),
{
    let p = choose|p: Seq<Name>|
        #![trigger is_walk(g, forward, p), p.len()]
        is_walk(g, forward, p) && p[0] == a && p.last() == x && p.len() <= n + 1;
    assert(is_walk(g, forward, p) && p.len() <= m + 1);
}

/// Within no hops lies `a` alone.
pub proof fn lemma_within_zero(g: Map<Name, Set<Name>>, forward: bool, a: Name, x: Name)
    ensures
        within(g, forward, a, x, 0) <==> x == a,
{
    if x == a {
        let p = seq![a];
        assert(is_walk(g, forward, p) && p[0] == a && p.last() == x && p.len() <= 0 + 1);
    }
}

/// One hop beyond a name within `n` hops is within `n + 1` hops.
pub proof fn lemma_within_step(g: Map<Name, Set<Name>>, forward: bool, a: Name, y: Name, x: Name, n: nat)
    requires
        within(g, forward, a, y, n),
        step(g, forward, y, x),
    ensures
        within(g, forward, a, x, n + 1),
{
    let p = choose|p: Seq<Name>|
        #![trigger is_walk(g, forward, p), p.len()]
        is_walk(g, forward, p) && p[0] == a && p.last() == y && p.len() <= n + 1;
    let q = p.push(x);
    assert forall|i: int| 0 <= i < q.len() - 1 implies #[trigger] step(g, forward, q[i], q[i + 1]) by {
        if i < p.len() - 1 {
            assert(step(g, forward, p[i], p[i + 1]));
        }
    }
    assert(is_walk(g, forward, q) && q[0] == a && q.last() == x && q.len() <= n + 2);
}

/// A name within `n + 1` hops is within `n` hops, or one hop beyond one that is.
pub proof fn lemma_within_split(g: Map<Name, Set<Name>>, forward: bool, a: Name, x: Name, n: nat)
    requires
        within(g, forward, a, x, n + 1),
    ensures
        within(g, forward, a, x, n) || exists|y: Name|
            #[trigger] within(g, forward, a, y, n) && step(g, forward, y, x),
{
    let p = choose|p: Seq<Name>|
        #![trigger is_walk(g, forward, p), p.len()]
        is_walk(g, forward, p) && p[0] == a && p.last() == x && p.len() <= n + 2;
    if p.len() == n + 2 {
        let q = p.drop_last();
        let y = q.last();
        assert(step(g, forward, p[q.len() - 1], p[q.len() as int]));
        assert forall|i: int| 0 <= i < q.len() - 1 implies #[trigger] step(g, forward, q[i], q[i + 1]) by {
            assert(step(g, forward, p[i], p[i + 1]));
        }
        assert(is_walk(g, forward, q) && q[0] == a && q.last() == y && q.len() <= n + 1);
        assert(within(g, forward, a, y, n) && step(g, forward, y, x));
    } else {
        assert(is_walk(g, forward, p) && p[0] == a && p.last() == x && p.len() <= n + 1);
    }
}

/// Once one more hop adds no name, no further hop does.
pub proof fn lemma_within_stable(g: Map<Name, Set<Name>>, forward: bool, a: Name, d: nat, m: nat)
    requires
        d <= m,
        forall|x: Name| within(g, forward, a, x, d + 1) ==> within(g, forward, a, x, d),
    ensures
        forall|x: Name| within(g, forward, a, x, m) ==> within(g, forward, a, x, d),
    decreases m - d,
{
    if d < m {
        lemma_within_stable(g, forward, a, d, (m - 1) as nat);
        assert forall|x: Name| within(g, forward, a, x, m) implies within(g, forward, a, x, d) by {
            lemma_within_split(g, forward, a, x, (m - 1) as nat);
            if !within(g, forward, a, x, (m - 1) as nat) {
                let y = choose|y: Name|
                    #[trigger] within(g, forward, a, y, (m - 1) as nat) && step(g, forward, y, x);
                lemma_within_step(g, forward, a, y, x, d);
            }
        }
    }
}

/// When one more hop adds no name, everything reachable is within `d` hops.
pub proof fn lemma_reaches_at_fixpoint(g: Map<Name, Set<Name>>, forward: bool, a: Name, d: nat)
    requires
        forall|x: Name| within(g, forward, a, x, d + 1) ==> within(g, forward, a, x, d),
    ensures
        forall|x: Name| reaches(g, forward, a, x) <==> within(g, forward, a, x, d),
{
    assert forall|x: Name| reaches(g, forward, a, x) implies within(g, forward, a, x, d) by {
        let n = choose|n: nat| within(g, forward, a, x, n);
        if n <= d {
            lemma_within_mono(g, forward, a, x, n, d);
        } else {
            lemma_within_stable(g, forward, a, d, n);
        }
    }
}

} // verus!
