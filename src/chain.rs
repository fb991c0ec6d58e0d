//! Lookup chains: following lookup edges from cell to cell.
use vstd::prelude::*;

use crate::table::CellAddr;

verus! {

/// The cell reached from `a` after `n` steps along `edges`; a walk stays put
/// at a cell with no outgoing edge.
pub open spec fn walk(edges: Map<CellAddr, CellAddr>, a: CellAddr, n: nat) -> CellAddr
    decreases n,
{
    if n == 0 || !edges.contains_key(a) {
        a
    } else {
        walk(edges, edges[a], (n - 1) as nat)
    }
}

/// The walk from `a` has come to rest after `n` steps.
pub open spec fn ends_within(edges: Map<CellAddr, CellAddr>, a: CellAddr, n: nat) -> bool {
    !edges.contains_key(walk(edges, a, n))
}

pub open spec fn terminates(edges: Map<CellAddr, CellAddr>, a: CellAddr) -> bool {
    exists|n: nat| ends_within(edges, a, n)
}

/// Every walk comes to rest: the edges hold no cycle.
pub open spec fn acyclic(edges: Map<CellAddr, CellAddr>) -> bool {
    forall|a: CellAddr| #[trigger] terminates(edges, a)
}

/// No walk of one step or more leads from a cell with an edge back to it.
pub open spec fn no_cycle(edges: Map<CellAddr, CellAddr>) -> bool {
    forall|a: CellAddr, n: nat|
        n >= 1 && edges.contains_key(a) ==> #[trigger] walk(edges, a, n) != a
}

/// Some walk from `a` passes through `b` (`b == a` included).
pub open spec fn reaches(edges: Map<CellAddr, CellAddr>, a: CellAddr, b: CellAddr) -> bool {
    exists|n: nat| #[trigger] walk(edges, a, n) == b
}

/// The cell at which the chain starting at `a` ends.
pub open spec fn terminal(edges: Map<CellAddr, CellAddr>, a: CellAddr) -> CellAddr {
    walk(edges, a, choose|n: nat| ends_within(edges, a, n))
}

pub open spec fn next(edges: Map<CellAddr, CellAddr>, a: CellAddr) -> CellAddr {
    if edges.contains_key(a) {
        edges[a]
    } else {
        a
    }
}

pub proof fn lemma_walk_step(edges: Map<CellAddr, CellAddr>, a: CellAddr, n: nat)
    ensures
        walk(edges, a, n + 1) == next(edges, walk(edges, a, n)),
    decreases n,
{
    if n > 0 && edges.contains_key(a) {
        lemma_walk_step(edges, edges[a], (n - 1) as nat);
    } else if n == 0 && edges.contains_key(a) {
        assert(walk(edges, edges[a], 0) == edges[a]);
    }
}

pub proof fn lemma_walk_add(edges: Map<CellAddr, CellAddr>, a: CellAddr, n: nat, m: nat)
    ensures
        walk(edges, a, n + m) == walk(edges, walk(edges, a, n), m),
    decreases n,
{
    if n > 0 && edges.contains_key(a) {
        lemma_walk_add(edges, edges[a], (n - 1) as nat, m);
    } else if n > 0 {
        assert(walk(edges, a, m) == a) by {
            if m > 0 {
            }
        }
    }
}

pub proof fn lemma_walk_stays(edges: Map<CellAddr, CellAddr>, a: CellAddr, n: nat, m: nat)
    requires
        ends_within(edges, a, n),
        n <= m,
    ensures
        walk(edges, a, m) == walk(edges, a, n),
{
    lemma_walk_add(edges, a, n, (m - n) as nat);
    let t = walk(edges, a, n);
    assert(walk(edges, t, (m - n) as nat) == t);
}

/// A cell with no edge is its own chain's end.
pub proof fn lemma_terminal_at_rest(edges: Map<CellAddr, CellAddr>, a: CellAddr)
    requires
        !edges.contains_key(a),
    ensures
        terminates(edges, a),
        terminal(edges, a) == a,
{
    assert(ends_within(edges, a, 0));
    let n = choose|n: nat| ends_within(edges, a, n);
    assert(walk(edges, a, n) == a);
}

/// A cell with an edge ends where the cell it refers to ends.
pub proof fn lemma_terminal_follow(edges: Map<CellAddr, CellAddr>, a: CellAddr)
    requires
        terminates(edges, a),
        edges.contains_key(a),
    ensures
        terminates(edges, edges[a]),
        terminal(edges, a) == terminal(edges, edges[a]),
        !edges.contains_key(terminal(edges, a)),
{
    let n = choose|n: nat| ends_within(edges, a, n);
    assert(n > 0);
    assert(ends_within(edges, edges[a], (n - 1) as nat));
    let m = choose|m: nat| ends_within(edges, edges[a], m);
    let k = if m > n { m } else { n };
    lemma_walk_stays(edges, edges[a], m, k);
    lemma_walk_stays(edges, edges[a], (n - 1) as nat, k);
}

/// Any cell a chain passes through ends where the chain ends.
pub proof fn lemma_terminal_along(edges: Map<CellAddr, CellAddr>, a: CellAddr, i: nat)
    requires
        terminates(edges, a),
    ensures
        terminates(edges, walk(edges, a, i)),
        terminal(edges, walk(edges, a, i)) == terminal(edges, a),
    decreases i,
{
    if i > 0 {
        lemma_terminal_along(edges, a, (i - 1) as nat);
        lemma_walk_step(edges, a, (i - 1) as nat);
        let c = walk(edges, a, (i - 1) as nat);
        if edges.contains_key(c) {
            lemma_terminal_follow(edges, c);
        }
    }
}

/// A walk that never passes through `s` does not see the edge of `s`.
pub proof fn lemma_walk_avoiding(
    edges: Map<CellAddr, CellAddr>,
    s: CellAddr,
    t: CellAddr,
    a: CellAddr,
    n: nat,
)
    requires
        forall|k: nat| k <= n ==> #[trigger] walk(edges, a, k) != s,
    ensures
        walk(edges.insert(s, t), a, n) == walk(edges, a, n),
        walk(edges.remove(s), a, n) == walk(edges, a, n),
    decreases n,
{
    assert(walk(edges, a, 0) != s);
    if n > 0 && edges.contains_key(a) {
        assert forall|k: nat| k <= n - 1 implies #[trigger] walk(edges, edges[a], k) != s by {
            assert(walk(edges, a, k + 1) != s);
        }
        lemma_walk_avoiding(edges, s, t, edges[a], (n - 1) as nat);
    }
}

/// Removing an edge keeps every walk finite.
pub proof fn lemma_remove_acyclic(edges: Map<CellAddr, CellAddr>, s: CellAddr)
    requires
        acyclic(edges),
    ensures
        acyclic(edges.remove(s)),
{
    assert forall|a: CellAddr| #[trigger] terminates(edges.remove(s), a) by {
        assert(terminates(edges, a));
        let n = choose|n: nat| ends_within(edges, a, n);
        lemma_remove_ends(edges, s, a, n);
    }
}

proof fn lemma_remove_ends(edges: Map<CellAddr, CellAddr>, s: CellAddr, a: CellAddr, n: nat)
    requires
        ends_within(edges, a, n),
    ensures
        ends_within(edges.remove(s), a, n),
    decreases n,
{
    let e2 = edges.remove(s);
    if a == s {
        assert(walk(e2, a, n) == a);
    } else if !edges.contains_key(a) {
        assert(walk(edges, a, n) == a);
        assert(walk(e2, a, n) == a);
    } else if n > 0 {
        lemma_remove_ends(edges, s, edges[a], (n - 1) as nat);
        assert(e2[a] == edges[a]);
    }
}

/// Adding the edge `s -> t`, where no walk from `t` passes through `s`,
/// keeps every walk finite.
pub proof fn lemma_insert_acyclic(edges: Map<CellAddr, CellAddr>, s: CellAddr, t: CellAddr)
    requires
        acyclic(edges),
        !reaches(edges, t, s),
    ensures
        acyclic(edges.insert(s, t)),
        !reaches(edges.insert(s, t), t, s),
{
    let e2 = edges.insert(s, t);
    assert forall|n: nat| #[trigger] walk(e2, t, n) == walk(edges, t, n) by {
        assert forall|k: nat| k <= n implies #[trigger] walk(edges, t, k) != s by {
            if walk(edges, t, k) == s {
                assert(reaches(edges, t, s));
            }
        }
        lemma_walk_avoiding(edges, s, t, t, n);
    }
    assert(terminates(edges, t));
    let m = choose|m: nat| ends_within(edges, t, m);
    assert(walk(e2, t, m) == walk(edges, t, m));
    assert(walk(edges, t, m) != s) by {
        if walk(edges, t, m) == s {
            assert(reaches(edges, t, s));
        }
    }
    assert(ends_within(e2, t, m));
    assert forall|a: CellAddr| #[trigger] terminates(e2, a) by {
        assert(terminates(edges, a));
        let n = choose|n: nat| ends_within(edges, a, n);
        lemma_insert_ends(edges, s, t, a, n, m);
    }
    if reaches(e2, t, s) {
        let k = choose|k: nat| #[trigger] walk(e2, t, k) == s;
        assert(walk(edges, t, k) == s);
        assert(reaches(edges, t, s));
    }
}

proof fn lemma_insert_ends(
    edges: Map<CellAddr, CellAddr>,
    s: CellAddr,
    t: CellAddr,
    a: CellAddr,
    n: nat,
    m: nat,
)
    requires
        ends_within(edges, a, n),
        ends_within(edges.insert(s, t), t, m),
    ensures
        terminates(edges.insert(s, t), a),
    decreases n,
{
    let e2 = edges.insert(s, t);
    if a == s {
        assert(walk(e2, a, m + 1) == walk(e2, t, m));
        assert(ends_within(e2, a, m + 1));
    } else if !edges.contains_key(a) {
        assert(ends_within(e2, a, 0));
    } else {
        assert(n > 0);
        lemma_insert_ends(edges, s, t, edges[a], (n - 1) as nat, m);
        let k = choose|k: nat| ends_within(e2, edges[a], k);
        assert(walk(e2, a, k + 1) == walk(e2, edges[a], k));
        assert(ends_within(e2, a, k + 1));
    }
}

/// Finite walks everywhere means no cycle, self-loops included.
pub proof fn lemma_acyclic_no_cycle(edges: Map<CellAddr, CellAddr>)
    requires
        acyclic(edges),
    ensures
        no_cycle(edges),
{
    assert forall|a: CellAddr, n: nat|
        n >= 1 && edges.contains_key(a) implies #[trigger] walk(edges, a, n) != a by {
        if walk(edges, a, n) == a {
            assert(terminates(edges, a));
            let m = choose|m: nat| ends_within(edges, a, m);
            lemma_walk_periodic(edges, a, n, m);
            assert(m <= n * m) by (nonlinear_arith)
                requires
                    n >= 1,
            ;
            lemma_walk_stays(edges, a, m, n * m);
        }
    }
}

proof fn lemma_walk_periodic(edges: Map<CellAddr, CellAddr>, a: CellAddr, n: nat, k: nat)
    requires
        walk(edges, a, n) == a,
    ensures
        walk(edges, a, n * k) == a,
    decreases k,
{
    if k > 0 {
        let j = (k - 1) as nat;
        lemma_walk_periodic(edges, a, n, j);
        assert(n * k == n * j + n) by (nonlinear_arith)
            requires
                k == j + 1,
        ;
        lemma_walk_add(edges, a, n * j, n);
    } else {
        assert(n * k == 0) by (nonlinear_arith)
            requires
                k == 0,
        ;
    }
}

} // verus!
