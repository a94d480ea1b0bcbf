//! The mathematical model: nodes, successor relations, walks, and the set of
//! nodes that a traversal can reach from a start node.

use vstd::prelude::*;

verus! {

/// A node identifier, as the sequence of characters of its URL.
pub type Node = Seq<char>;

/// A successor relation: the ordered neighbor list of every node. A node
/// whose lookup fails has the empty list.
pub type Graph = spec_fn(Node) -> Seq<Node>;

/// There is an edge of `g` from `p[i]` to `p[i + 1]`.
pub open spec fn edge_at(g: Graph, p: Seq<Node>, i: int) -> bool {
    g(p[i]).contains(p[i + 1])
}

/// `p` is a non-empty walk along edges of `g`.
pub open spec fn is_walk(g: Graph, p: Seq<Node>) -> bool {
    &&& p.len() > 0
    &&& forall|i: int| 0 <= i < p.len() - 1 ==> #[trigger] edge_at(g, p, i)
}

/// No node of `p` is in `blocked`.
pub open spec fn avoids(p: Seq<Node>, blocked: Set<Node>) -> bool {
    forall|i: int| 0 <= i < p.len() ==> !blocked.contains(#[trigger] p[i])
}

/// `p` is a walk of `g` from `from` to `to` that stays outside `blocked`.
pub open spec fn connects(g: Graph, blocked: Set<Node>, from: Node, to: Node, p: Seq<Node>) -> bool {
    &&& is_walk(g, p)
    &&& p[0] == from
    &&& p.last() == to
    &&& avoids(p, blocked)
}

/// Some walk of `g` leads from `from` to `to` without touching `blocked`.
pub open spec fn reaches(g: Graph, blocked: Set<Node>, from: Node, to: Node) -> bool {
    exists|p: Seq<Node>| connects(g, blocked, from, to, p)
}

/// The nodes that a traversal starting at `from` discovers when the nodes of
/// `blocked` are already claimed: those with a walk from `from` that stays
/// outside `blocked`. It is empty when `from` itself is blocked.
pub open spec fn reachable_avoiding(g: Graph, blocked: Set<Node>, from: Node) -> Set<Node> {
    Set::new(|to: Node| reaches(g, blocked, from, to))
}

/// The reachable-node closure of `from`: every node with a walk from `from`.
pub open spec fn reachable(g: Graph, from: Node) -> Set<Node> {
    reachable_avoiding(g, Set::empty(), from)
}

/// Every successor of a node of `inside` that is neither blocked nor in
/// `frontier` lies in `inside` or is itself blocked.
pub open spec fn closed_outside(g: Graph, blocked: Set<Node>, frontier: Set<Node>, inside: Set<Node>) -> bool {
    forall|x: Node, k: int|
        inside.contains(x) && !blocked.contains(x) && !frontier.contains(x) && 0 <= k < g(x).len()
            ==> blocked.contains(#[trigger] g(x)[k]) || inside.contains(g(x)[k])
}

/// An unblocked node reaches itself.
pub proof fn lemma_reaches_self(g: Graph, blocked: Set<Node>, u: Node)
    requires
        !blocked.contains(u),
    ensures
        reaches(g, blocked, u, u),
        reachable_avoiding(g, blocked, u).contains(u),
{
    let p = seq![u];
    assert(connects(g, blocked, u, u, p));
}

/// Nothing is discovered from a node that is already claimed.
pub proof fn lemma_blocked_start(g: Graph, blocked: Set<Node>, u: Node)
    requires
        blocked.contains(u),
    ensures
        reachable_avoiding(g, blocked, u) == Set::<Node>::empty(),
{
    assert forall|w: Node| !reaches(g, blocked, u, w) by {
        if reaches(g, blocked, u, w) {
            let p = choose|p: Seq<Node>| connects(g, blocked, u, w, p);
            assert(!blocked.contains(p[0]));
        }
    }
    assert(reachable_avoiding(g, blocked, u) =~= Set::<Node>::empty());
}

/// A walk that ends in `x` goes on to any unblocked successor of `x`.
pub proof fn lemma_reaches_step(g: Graph, blocked: Set<Node>, u: Node, x: Node, y: Node)
    requires
        reaches(g, blocked, u, x),
        g(x).contains(y),
        !blocked.contains(y),
    ensures
        reaches(g, blocked, u, y),
{
    let p = choose|p: Seq<Node>| connects(g, blocked, u, x, p);
    let q = p.push(y);
    assert forall|i: int| 0 <= i < q.len() - 1 implies #[trigger] edge_at(g, q, i) by {
        if i < p.len() - 1 {
            assert(edge_at(g, p, i));
        }
    }
    assert forall|i: int| 0 <= i < q.len() implies !blocked.contains(#[trigger] q[i]) by {
        if i < p.len() {
            assert(!blocked.contains(p[i]));
        }
    }
    assert(connects(g, blocked, u, y, q));
}

/// What a successor `n` of an unblocked node `u` reaches while more is
/// blocked, `u` reaches too.
pub proof fn lemma_reaches_through(
    g: Graph,
    blocked: Set<Node>,
    more: Set<Node>,
    u: Node,
    n: Node,
    w: Node,
)
    requires
        !blocked.contains(u),
        g(u).contains(n),
        blocked.subset_of(more),
        reaches(g, more, n, w),
    ensures
        reaches(g, blocked, u, w),
{
    let p = choose|p: Seq<Node>| connects(g, more, n, w, p);
    let q = seq![u] + p;
    assert forall|i: int| 0 <= i < q.len() - 1 implies #[trigger] edge_at(g, q, i) by {
        if i > 0 {
            assert(edge_at(g, p, i - 1));
        }
    }
    assert forall|i: int| 0 <= i < q.len() implies !blocked.contains(#[trigger] q[i]) by {
        if i > 0 {
            assert(!more.contains(p[i - 1]));
        }
    }
    assert(connects(g, blocked, u, w, q));
}

/// Blocking more nodes discovers no more.
pub proof fn lemma_reachable_antitone(g: Graph, blocked: Set<Node>, more: Set<Node>, u: Node)
    requires
        blocked.subset_of(more),
    ensures
        reachable_avoiding(g, more, u).subset_of(reachable_avoiding(g, blocked, u)),
{
    assert forall|w: Node| reaches(g, more, u, w) implies reaches(g, blocked, u, w) by {
        let p = choose|p: Seq<Node>| connects(g, more, u, w, p);
        assert forall|i: int| 0 <= i < p.len() implies !blocked.contains(#[trigger] p[i]) by {
            assert(!more.contains(p[i]));
        }
        assert(connects(g, blocked, u, w, p));
    }
}

/// What a successor `n` of an unblocked node `u` discovers once `u` is
/// claimed is part of what `u` discovers, and does not hold `u`.
pub proof fn lemma_child_discovers_less(
    g: Graph,
    blocked: Set<Node>,
    more: Set<Node>,
    u: Node,
    n: Node,
)
    requires
        !blocked.contains(u),
        g(u).contains(n),
        blocked.subset_of(more),
        more.contains(u),
    ensures
        reachable_avoiding(g, more, n).subset_of(reachable_avoiding(g, blocked, u).remove(u)),
{
    assert forall|w: Node| reaches(g, more, n, w) implies reaches(g, blocked, u, w) && w != u by {
        lemma_reaches_through(g, blocked, more, u, n, w);
        let p = choose|p: Seq<Node>| connects(g, more, n, w, p);
        assert(!more.contains(p[p.len() - 1]));
    }
}

/// The set discovered from `u` is closed: a successor of a discovered node
/// is discovered or blocked.
pub proof fn lemma_reachable_closed(g: Graph, blocked: Set<Node>, u: Node)
    ensures
        closed_outside(g, blocked, Set::empty(), reachable_avoiding(g, blocked, u)),
{
    let r = reachable_avoiding(g, blocked, u);
    assert forall|x: Node, k: int|
        r.contains(x) && 0 <= k < g(x).len() implies blocked.contains(#[trigger] g(x)[k])
        || r.contains(g(x)[k]) by {
        if !blocked.contains(g(x)[k]) {
            lemma_reaches_step(g, blocked, u, x, g(x)[k]);
        }
    }
}

/// Along a walk from a node of a closed set that stays outside `blocked`,
/// every node lies in the set.
proof fn lemma_walk_stays_inside(g: Graph, blocked: Set<Node>, inside: Set<Node>, p: Seq<Node>, i: int)
    requires
        is_walk(g, p),
        avoids(p, blocked),
        inside.contains(p[0]),
        closed_outside(g, blocked, Set::empty(), inside),
        0 <= i < p.len(),
    ensures
        inside.contains(p[i]),
    decreases i,
{
    if i > 0 {
        lemma_walk_stays_inside(g, blocked, inside, p, i - 1);
        let x = p[i - 1];
        assert(edge_at(g, p, i - 1));
        assert(!blocked.contains(p[i - 1]));
        assert(!blocked.contains(p[i]));
        let k = choose|k: int| 0 <= k < g(x).len() && #[trigger] g(x)[k] == p[i];
        assert(blocked.contains(g(x)[k]) || inside.contains(g(x)[k]));
    }
}

/// A closed set that holds `u` holds everything discovered from `u`.
pub proof fn lemma_closed_holds_reachable(g: Graph, blocked: Set<Node>, u: Node, inside: Set<Node>)
    requires
        inside.contains(u),
        closed_outside(g, blocked, Set::empty(), inside),
    ensures
        reachable_avoiding(g, blocked, u).subset_of(inside),
{
    assert forall|w: Node| reaches(g, blocked, u, w) implies inside.contains(w) by {
        let p = choose|p: Seq<Node>| connects(g, blocked, u, w, p);
        lemma_walk_stays_inside(g, blocked, inside, p, p.len() - 1);
    }
}

/// From an unclaimed node without successors, a node whose fetch fails or
/// finds no neighbor, exactly the node itself is discovered.
pub proof fn lemma_dead_end(g: Graph, blocked: Set<Node>, u: Node)
    requires
        !blocked.contains(u),
        g(u).len() == 0,
    ensures
        reachable_avoiding(g, blocked, u) == set![u],
{
    lemma_reaches_self(g, blocked, u);
    lemma_closed_holds_reachable(g, blocked, u, set![u]);
    assert(reachable_avoiding(g, blocked, u) =~= set![u]);
}

/// A node whose neighbors are dead ends, because their fetches fail or find
/// nothing, reaches itself and every one of its neighbors: a branch that
/// fails hides none of its siblings.
pub proof fn lemma_dead_end_neighbors(g: Graph, u: Node)
    requires
        forall|k: int| 0 <= k < g(u).len() ==> g(#[trigger] g(u)[k]).len() == 0,
    ensures
        reachable(g, u) == g(u).to_set().insert(u),
{
    let all = g(u).to_set().insert(u);
    lemma_reaches_self(g, Set::empty(), u);
    assert forall|x: Node| all.contains(x) implies reachable(g, u).contains(x) by {
        if x != u {
            lemma_reaches_step(g, Set::empty(), u, u, x);
        }
    }
    assert(closed_outside(g, Set::empty(), Set::empty(), all)) by {
        assert forall|x: Node, k: int| all.contains(x) && 0 <= k < g(x).len() implies all.contains(
            #[trigger] g(x)[k],
        ) by {
            if x != u {
                let at = choose|at: int| 0 <= at < g(u).len() && #[trigger] g(u)[at] == x;
                assert(g(g(u)[at]).len() == 0);
            } else {
                assert(g(u).contains(g(u)[k]));
            }
        }
    }
    lemma_closed_holds_reachable(g, Set::empty(), u, all);
    assert(reachable(g, u) =~= all);
}

/// Two nodes that lead to each other and nowhere else are all that either
/// of them reaches.
pub proof fn lemma_two_cycle(g: Graph, a: Node, b: Node)
    requires
        g(a) == seq![b],
        g(b) == seq![a],
    ensures
        reachable(g, a) == set![a, b],
{
    let both = set![a, b];
    lemma_reaches_self(g, Set::empty(), a);
    assert(g(a)[0] == b);
    assert(g(a).contains(b));
    lemma_reaches_step(g, Set::empty(), a, a, b);
    lemma_closed_holds_reachable(g, Set::empty(), a, both);
    assert(reachable(g, a) =~= both);
}

} // verus!
