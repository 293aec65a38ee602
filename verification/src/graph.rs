//! Spec-level theory of the dependency relation: a graph is a finite map
//! from key to declared dependency keys. Edges may dangle (point to keys
//! with no entry); a walk can only continue from keys that have an entry.

use vstd::prelude::*;
use vstd::set_lib::lemma_len_subset;

verus! {

/// There is an edge from `a` to `b`: `a` has an entry that declares `b`.
pub open spec fn edge(g: Map<Seq<char>, Seq<Seq<char>>>, a: Seq<char>, b: Seq<char>) -> bool {
    g.dom().contains(a) && g[a].contains(b)
}

/// A non-empty walk along edges.
pub open spec fn is_path(g: Map<Seq<char>, Seq<Seq<char>>>, p: Seq<Seq<char>>) -> bool {
    p.len() >= 1 && (forall|i: int| 0 <= i < p.len() - 1 ==> edge(g, #[trigger] p[i], p[i + 1]))
}

/// `b` can be reached from `a` by following zero or more edges.
pub open spec fn reaches(g: Map<Seq<char>, Seq<Seq<char>>>, a: Seq<char>, b: Seq<char>) -> bool {
    exists|p: Seq<Seq<char>>| is_path(g, p) && p.first() == a && p.last() == b
}

/// A walk of at least one edge that returns to its starting key.
pub open spec fn is_cycle(g: Map<Seq<char>, Seq<Seq<char>>>, p: Seq<Seq<char>>) -> bool {
    is_path(g, p) && p.len() >= 2 && p.first() == p.last()
}

/// No walk returns to its starting key.
pub open spec fn acyclic(g: Map<Seq<char>, Seq<Seq<char>>>) -> bool {
    forall|p: Seq<Seq<char>>| !is_cycle(g, p)
}

/// Every walk that starts at `a` visits distinct keys.
pub open spec fn no_dup_from(g: Map<Seq<char>, Seq<Seq<char>>>, a: Seq<char>) -> bool {
    forall|p: Seq<Seq<char>>| is_path(g, p) && p.first() == a ==> p.no_duplicates()
}

/// No cycle starts (and therefore ends) at `a`.
pub open spec fn cycle_free_from(g: Map<Seq<char>, Seq<Seq<char>>>, a: Seq<char>) -> bool {
    forall|q: Seq<Seq<char>>| !(is_cycle(g, q) && q.first() == a)
}

/// `p` is a walk whose last key (if any) has an edge to `k`.
pub open spec fn chain_to(
    g: Map<Seq<char>, Seq<Seq<char>>>,
    p: Seq<Seq<char>>,
    k: Seq<char>,
) -> bool {
    &&& forall|i: int| 0 <= i < p.len() - 1 ==> edge(g, #[trigger] p[i], p[i + 1])
    &&& p.len() > 0 ==> edge(g, p.last(), k)
}

/// No edge leaves `s`.
pub open spec fn set_closed(g: Map<Seq<char>, Seq<Seq<char>>>, s: Set<Seq<char>>) -> bool {
    forall|a: Seq<char>, b: Seq<char>| s.contains(a) && edge(g, a, b) ==> s.contains(b)
}

/// A contiguous part of a walk is a walk.
pub proof fn lemma_path_subrange(g: Map<Seq<char>, Seq<Seq<char>>>, p: Seq<Seq<char>>, i: int, j: int)
    requires
        is_path(g, p),
        0 <= i < j <= p.len(),
    ensures
        is_path(g, p.subrange(i, j)),
{
    let q = p.subrange(i, j);
    assert forall|m: int| 0 <= m < q.len() - 1 implies edge(g, #[trigger] q[m], q[m + 1]) by {
        assert(q[m] == p[i + m]);
        assert(q[m + 1] == p[i + m + 1]);
    }
}

/// A walk that repeats a key exhibits a cycle.
pub proof fn lemma_dup_path_cycle(g: Map<Seq<char>, Seq<Seq<char>>>, p: Seq<Seq<char>>, i: int, j: int)
    requires
        is_path(g, p),
        0 <= i < j < p.len(),
        p[i] == p[j],
    ensures
        !acyclic(g),
{
    let q = p.subrange(i, j + 1);
    lemma_path_subrange(g, p, i, j + 1);
    assert(q.first() == p[i]);
    assert(q.last() == p[j]);
    assert(is_cycle(g, q));
}

/// A cycle can be rotated to start at any key it visits, and a cycle
/// always repeats a key.
pub proof fn lemma_cycle_rotate(g: Map<Seq<char>, Seq<Seq<char>>>, p: Seq<Seq<char>>, i: int)
    requires
        is_cycle(g, p),
        0 <= i < p.len(),
    ensures
        exists|q: Seq<Seq<char>>|
            is_path(g, q) && q.first() == p[i] && !q.no_duplicates(),
{
    let ln = p.len() as int;
    if i == 0 || i == ln - 1 {
        assert(is_path(g, p) && p.first() == p[0] && !p.no_duplicates()) by {
            assert(p[0] == p[ln - 1]);
        }
        assert(p.first() == p[i]);
    } else {
        let q = p.subrange(i, ln) + p.subrange(1, i + 1);
        assert(q.len() == ln);
        assert forall|m: int| 0 <= m < q.len() - 1 implies edge(g, #[trigger] q[m], q[m + 1]) by {
            if m < ln - i - 1 {
                assert(q[m] == p[i + m]);
                assert(q[m + 1] == p[i + m + 1]);
            } else if m == ln - i - 1 {
                assert(q[m] == p[ln - 1]);
                assert(q[m + 1] == p[1]);
                assert(p[ln - 1] == p[0]);
                assert(edge(g, p[0], p[1]));
            } else {
                assert(q[m] == p[m - (ln - i) + 1]);
                assert(q[m + 1] == p[m - (ln - i) + 2]);
            }
        }
        assert(q.first() == p[i]);
        assert(q.last() == p[i]) by {
            assert(q[ln - 1] == p.subrange(1, i + 1)[i - 1]);
        }
        assert(!q.no_duplicates()) by {
            assert(q[0] == q[ln - 1]);
        }
        assert(is_path(g, q));
    }
}

/// A closed set that contains the start of a walk contains every key on it.
pub proof fn lemma_closed_path(
    g: Map<Seq<char>, Seq<Seq<char>>>,
    s: Set<Seq<char>>,
    p: Seq<Seq<char>>,
)
    requires
        set_closed(g, s),
        is_path(g, p),
        s.contains(p.first()),
    ensures
        forall|i: int| 0 <= i < p.len() ==> s.contains(p[i]),
    decreases p.len(),
{
    if p.len() > 1 {
        assert(edge(g, p[0], p[1]));
        let q = p.subrange(1, p.len() as int);
        lemma_path_subrange(g, p, 1, p.len() as int);
        assert(s.contains(q.first()));
        lemma_closed_path(g, s, q);
        assert forall|i: int| 0 <= i < p.len() implies s.contains(p[i]) by {
            if i >= 1 {
                assert(q[i - 1] == p[i]);
            }
        }
    }
}

/// Reachability is reflexive.
pub proof fn lemma_reaches_self(g: Map<Seq<char>, Seq<Seq<char>>>, a: Seq<char>)
    ensures
        reaches(g, a, a),
{
    let p = seq![a];
    assert(is_path(g, p) && p.first() == a && p.last() == a);
}

/// Reachability extends across one more edge.
pub proof fn lemma_reaches_extend(
    g: Map<Seq<char>, Seq<Seq<char>>>,
    a: Seq<char>,
    b: Seq<char>,
    c: Seq<char>,
)
    requires
        reaches(g, a, b),
        edge(g, b, c),
    ensures
        reaches(g, a, c),
{
    let p = choose|p: Seq<Seq<char>>| is_path(g, p) && p.first() == a && p.last() == b;
    let q = p.push(c);
    assert forall|i: int| 0 <= i < q.len() - 1 implies edge(g, #[trigger] q[i], q[i + 1]) by {
        if i < p.len() - 1 {
            assert(q[i] == p[i]);
            assert(q[i + 1] == p[i + 1]);
        } else {
            assert(q[i] == p.last());
            assert(q[i + 1] == c);
        }
    }
    assert(is_path(g, q) && q.first() == a && q.last() == c);
}

/// Reachability extends backwards across one edge.
pub proof fn lemma_reaches_prepend(
    g: Map<Seq<char>, Seq<Seq<char>>>,
    a: Seq<char>,
    b: Seq<char>,
    c: Seq<char>,
)
    requires
        edge(g, a, b),
        reaches(g, b, c),
    ensures
        reaches(g, a, c),
{
    let q = choose|q: Seq<Seq<char>>| is_path(g, q) && q.first() == b && q.last() == c;
    let p = seq![a] + q;
    assert forall|i: int| 0 <= i < p.len() - 1 implies edge(g, #[trigger] p[i], p[i + 1]) by {
        if i == 0 {
            assert(p[0] == a);
            assert(p[1] == q[0]);
        } else {
            assert(p[i] == q[i - 1]);
            assert(p[i + 1] == q[i]);
        }
    }
    assert(is_path(g, p) && p.first() == a && p.last() == c);
}

/// A key reached from `a` in at least one step is reached through one of
/// `a`'s direct dependencies.
pub proof fn lemma_reaches_first_step(g: Map<Seq<char>, Seq<Seq<char>>>, a: Seq<char>, k: Seq<char>)
    requires
        reaches(g, a, k),
        k != a,
    ensures
        exists|b: Seq<char>| edge(g, a, b) && reaches(g, b, k),
{
    let p = choose|p: Seq<Seq<char>>| is_path(g, p) && p.first() == a && p.last() == k;
    assert(p.len() >= 2);
    assert(edge(g, p[0], p[1]));
    let q = p.subrange(1, p.len() as int);
    lemma_path_subrange(g, p, 1, p.len() as int);
    assert(q.first() == p[1] && q.last() == k);
    assert(edge(g, a, p[1]) && reaches(g, p[1], k));
}

/// Inserting a fresh key keeps the graph acyclic, provided no walk from
/// the new key repeats a key.
pub proof fn lemma_insert_acyclic(
    g: Map<Seq<char>, Seq<Seq<char>>>,
    k: Seq<char>,
    ds: Seq<Seq<char>>,
)
    requires
        acyclic(g),
        !g.dom().contains(k),
        no_dup_from(g.insert(k, ds), k),
    ensures
        acyclic(g.insert(k, ds)),
{
    let g2 = g.insert(k, ds);
    assert forall|p: Seq<Seq<char>>| !is_cycle(g2, p) by {
        if is_cycle(g2, p) {
            if exists|i: int| 0 <= i < p.len() && #[trigger] p[i] == k {
                let i = choose|i: int| 0 <= i < p.len() && #[trigger] p[i] == k;
                lemma_cycle_rotate(g2, p, i);
                let q = choose|q: Seq<Seq<char>>|
                    is_path(g2, q) && q.first() == p[i] && !q.no_duplicates();
                assert(q.no_duplicates());
            } else {
                assert forall|m: int| 0 <= m < p.len() - 1 implies edge(g, #[trigger] p[m], p[m + 1]) by {
                    assert(edge(g2, p[m], p[m + 1]));
                    assert(p[m] != k);
                }
                assert(is_cycle(g, p));
            }
        }
    }
}

/// A graph that keeps a subset of the entries, unchanged, of an acyclic
/// graph is acyclic.
pub proof fn lemma_subgraph_acyclic(
    g: Map<Seq<char>, Seq<Seq<char>>>,
    g2: Map<Seq<char>, Seq<Seq<char>>>,
)
    requires
        acyclic(g),
        forall|a: Seq<char>| g2.dom().contains(a) ==> g.dom().contains(a) && g2[a] == g[a],
    ensures
        acyclic(g2),
{
    assert forall|p: Seq<Seq<char>>| !is_cycle(g2, p) by {
        if is_cycle(g2, p) {
            assert forall|m: int| 0 <= m < p.len() - 1 implies edge(g, #[trigger] p[m], p[m + 1]) by {
                assert(edge(g2, p[m], p[m + 1]));
            }
            assert(is_cycle(g, p));
        }
    }
}

/// Keys whose entries declare no dependencies reach only themselves: a
/// key reachable from such a set of keys is one of them. Culling for
/// keys with no outgoing dependencies therefore retains exactly those
/// keys.
pub proof fn lemma_leaves_reach_only_themselves(
    g: Map<Seq<char>, Seq<Seq<char>>>,
    roots: Seq<Seq<char>>,
    k: Seq<char>,
)
    requires
        forall|i: int|
            0 <= i < roots.len() ==> g.dom().contains(#[trigger] roots[i]) && g[roots[i]].len()
                == 0,
        exists|i: int| 0 <= i < roots.len() && reaches(g, #[trigger] roots[i], k),
    ensures
        roots.contains(k),
{
    let i = choose|i: int| 0 <= i < roots.len() && reaches(g, #[trigger] roots[i], k);
    let p = choose|p: Seq<Seq<char>>| is_path(g, p) && p.first() == roots[i] && p.last() == k;
    if p.len() == 1 {
        assert(roots[i] == k);
    } else {
        assert(edge(g, p[0], p[1]));
        assert(g[roots[i]].contains(p[1]));
    }
}

/// A sequence of distinct keys drawn from a finite set is no longer than
/// the set's cardinality.
pub proof fn lemma_distinct_in_set_bound(p: Seq<Seq<char>>, s: Set<Seq<char>>)
    requires
        p.no_duplicates(),
        forall|i: int| 0 <= i < p.len() ==> s.contains(p[i]),
        s.finite(),
    ensures
        p.len() <= s.len(),
{
    p.unique_seq_to_set();
    assert(p.to_set().subset_of(s)) by {
        assert forall|x: Seq<char>| p.to_set().contains(x) implies s.contains(x) by {
            let i = choose|i: int| 0 <= i < p.len() && p[i] == x;
            assert(s.contains(p[i]));
        }
    }
    lemma_len_subset(p.to_set(), s);
}

/// Extending a clean, closed set with a key whose edges all land in the
/// set keeps it clean and closed.
pub proof fn lemma_done_extend(
    g: Map<Seq<char>, Seq<Seq<char>>>,
    done: Set<Seq<char>>,
    k: Seq<char>,
)
    requires
        set_closed(g, done),
        forall|d: Seq<char>| done.contains(d) ==> cycle_free_from(g, d),
        !done.contains(k),
        forall|b: Seq<char>| edge(g, k, b) ==> done.contains(b),
    ensures
        set_closed(g, done.insert(k)),
        forall|d: Seq<char>| done.insert(k).contains(d) ==> cycle_free_from(g, d),
{
    assert(cycle_free_from(g, k)) by {
        assert forall|q: Seq<Seq<char>>| !(is_cycle(g, q) && q.first() == k) by {
            if is_cycle(g, q) && q.first() == k {
                assert(edge(g, q[0], q[1]));
                assert(done.contains(q[1]));
                let r = q.subrange(1, q.len() as int);
                lemma_path_subrange(g, q, 1, q.len() as int);
                assert(r.first() == q[1]);
                lemma_closed_path(g, done, r);
                assert(done.contains(r[r.len() - 1]));
                assert(r.last() == q.last());
            }
        }
    }
}

} // verus!
