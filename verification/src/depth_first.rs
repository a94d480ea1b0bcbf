//! The order in which a depth-first walk claims the nodes that it discovers.

use vstd::prelude::*;
use vstd::set_lib::lemma_len_subset;
use crate::graph::{
    closed_outside, lemma_blocked_start, lemma_child_discovers_less, lemma_closed_holds_reachable,
    lemma_reachable_antitone, lemma_reachable_closed, lemma_reaches_self, reachable_avoiding,
    reaches, Graph, Node,
};

verus! {

/// The claims after a walk from `url` that began with the claims `seen` and
/// goes at most `depth` nodes deep: `url` is claimed unless it was, and then
/// its neighbors are walked, one after the other in their order, each one
/// with all the claims made until then.
pub open spec fn walk(g: Graph, depth: nat, seen: Seq<Node>, url: Node) -> Seq<Node>
    decreases depth, 0nat,
{
    if depth == 0 || seen.contains(url) {
        seen
    } else {
        walk_each(g, (depth - 1) as nat, seen.push(url), g(url))
    }
}

/// The claims after the walks from each of `urls`, in their order.
pub open spec fn walk_each(g: Graph, depth: nat, seen: Seq<Node>, urls: Seq<Node>) -> Seq<Node>
    decreases depth, urls.len() + 1,
{
    if urls.len() == 0 {
        seen
    } else {
        walk_each(g, depth, walk(g, depth, seen, urls[0]), urls.drop_first())
    }
}

/// The claims after a depth-first walk from `url` that began with the
/// claims `seen`, where the walk discovers finitely many nodes: no walk
/// goes deeper than the number of nodes that it discovers.
pub open spec fn depth_first(g: Graph, seen: Seq<Node>, url: Node) -> Seq<Node> {
    walk(g, reachable_avoiding(g, seen.to_set(), url).len() + 1, seen, url)
}

/// From each of `urls`, fewer than `depth` nodes are discovered.
pub open spec fn within(g: Graph, seen: Seq<Node>, urls: Seq<Node>, depth: nat) -> bool {
    forall|k: int|
        0 <= k < urls.len() ==> {
            &&& (#[trigger] reachable_avoiding(g, seen.to_set(), urls[k])).finite()
            &&& reachable_avoiding(g, seen.to_set(), urls[k]).len() < depth
        }
}

/// What a walk from some node of `urls` reaches outside `blocked`.
pub open spec fn reached_from_any(g: Graph, blocked: Set<Node>, urls: Seq<Node>) -> Set<Node> {
    Set::new(|to: Node| exists|k: int| 0 <= k < urls.len() && reaches(g, blocked, #[trigger] urls[k], to))
}

/// A sequence holds what its prefixes hold, and prefixes of prefixes are
/// prefixes.
proof fn lemma_prefix(a: Seq<Node>, b: Seq<Node>, c: Seq<Node>)
    requires
        a.is_prefix_of(b),
        b.is_prefix_of(c),
    ensures
        a.is_prefix_of(c),
        a.to_set().subset_of(b.to_set()),
{
    assert forall|x: Node| a.contains(x) implies b.contains(x) by {
        let i = choose|i: int| 0 <= i < a.len() && a[i] == x;
        assert(b.subrange(0, a.len() as int)[i] == x);
    }
    assert(a =~= c.subrange(0, a.len() as int)) by {
        assert forall|i: int| 0 <= i < a.len() implies a[i] == c[i] by {
            assert(b.subrange(0, a.len() as int)[i] == a[i]);
            assert(c.subrange(0, b.len() as int)[i] == b[i]);
        }
    }
}

/// A walk that may go deeper than the number of nodes that it discovers
/// goes as if unbounded: it extends the claims by exactly the discovered
/// nodes, and the bound does not matter.
pub proof fn lemma_walk(g: Graph, depth: nat, other: nat, seen: Seq<Node>, url: Node)
    requires
        reachable_avoiding(g, seen.to_set(), url).finite(),
        depth > reachable_avoiding(g, seen.to_set(), url).len(),
        other > reachable_avoiding(g, seen.to_set(), url).len(),
    ensures
        walk(g, depth, seen, url) == walk(g, other, seen, url),
        seen.is_prefix_of(walk(g, depth, seen, url)),
        walk(g, depth, seen, url).to_set() == seen.to_set().union(
            reachable_avoiding(g, seen.to_set(), url),
        ),
    decreases depth, 0nat,
{
    let claimed = seen.to_set();
    let all = reachable_avoiding(g, claimed, url);
    if seen.contains(url) {
        lemma_blocked_start(g, claimed, url);
        assert(seen.to_set() =~= claimed.union(all));
        assert(seen =~= seen.subrange(0, seen.len() as int));
    } else {
        lemma_reaches_self(g, claimed, url);
        let first = seen.push(url);
        let urls = g(url);
        let below = (depth - 1) as nat;
        let below_other = (other - 1) as nat;
        seen.lemma_push_to_set_commute(url);
        assert forall|k: int| 0 <= k < urls.len() implies (#[trigger] reachable_avoiding(
            g,
            first.to_set(),
            urls[k],
        )).finite() && reachable_avoiding(g, first.to_set(), urls[k]).len() < below
            && reachable_avoiding(g, first.to_set(), urls[k]).len() < below_other by {
            assert(urls.contains(urls[k]));
            lemma_child_discovers_less(g, claimed, first.to_set(), url, urls[k]);
            lemma_len_subset(reachable_avoiding(g, first.to_set(), urls[k]), all.remove(url));
        }
        lemma_walk_each(g, below, below_other, first, urls);
        let out = walk_each(g, below, first, urls);
        assert(out == walk(g, depth, seen, url));
        assert(walk_each(g, below_other, first, urls) == walk(g, other, seen, url));
        assert(seen.is_prefix_of(first)) by {
            assert(seen =~= first.subrange(0, seen.len() as int));
        }
        lemma_prefix(seen, first, out);
        lemma_prefix(first, out, out);
        assert(out.to_set().contains(url)) by {
            assert(first.to_set().contains(url));
        }
        assert forall|x: Node| out.to_set().contains(x) implies claimed.union(all).contains(
            x,
        ) by {
            if !first.to_set().contains(x) {
                assert(reached_from_any(g, first.to_set(), urls).contains(x));
                let k = choose|k: int|
                    0 <= k < urls.len() && reaches(g, first.to_set(), #[trigger] urls[k], x);
                assert(urls.contains(urls[k]));
                lemma_child_discovers_less(g, claimed, first.to_set(), url, urls[k]);
                assert(reachable_avoiding(g, first.to_set(), urls[k]).contains(x));
            }
        }
        assert(closed_outside(g, claimed, Set::empty(), out.to_set())) by {
            assert forall|x: Node, k: int|
                out.to_set().contains(x) && !claimed.contains(x) && 0 <= k < g(x).len() implies
                claimed.contains(#[trigger] g(x)[k]) || out.to_set().contains(g(x)[k]) by {
                if x == url {
                    assert(out.to_set().contains(urls[k]));
                } else {
                    assert(!first.to_set().contains(x));
                }
            }
        }
        lemma_closed_holds_reachable(g, claimed, url, out.to_set());
        assert(out.to_set() =~= claimed.union(all));
    }
}

/// The walks from each of a list of nodes, where none may go too deep:
/// they extend the claims by nodes that some walk from one of the nodes
/// reaches, they claim each of the nodes, what they add is closed, and the
/// bound does not matter.
pub proof fn lemma_walk_each(g: Graph, depth: nat, other: nat, seen: Seq<Node>, urls: Seq<Node>)
    requires
        within(g, seen, urls, depth),
        within(g, seen, urls, other),
    ensures
        walk_each(g, depth, seen, urls) == walk_each(g, other, seen, urls),
        seen.is_prefix_of(walk_each(g, depth, seen, urls)),
        walk_each(g, depth, seen, urls).to_set().subset_of(
            seen.to_set().union(reached_from_any(g, seen.to_set(), urls)),
        ),
        forall|k: int|
            0 <= k < urls.len() ==> walk_each(g, depth, seen, urls).to_set().contains(
                #[trigger] urls[k],
            ),
        closed_outside(g, seen.to_set(), Set::empty(), walk_each(g, depth, seen, urls).to_set()),
    decreases depth, urls.len() + 1,
{
    let claimed = seen.to_set();
    if urls.len() == 0 {
        assert(seen =~= seen.subrange(0, seen.len() as int));
    } else {
        let node = urls[0];
        let rest = urls.drop_first();
        assert(reachable_avoiding(g, claimed, urls[0]).finite());
        lemma_walk(g, depth, other, seen, node);
        let first = walk(g, depth, seen, node);
        lemma_prefix(seen, first, first);
        assert forall|k: int| 0 <= k < rest.len() implies (#[trigger] reachable_avoiding(
            g,
            first.to_set(),
            rest[k],
        )).finite() && reachable_avoiding(g, first.to_set(), rest[k]).len() < depth
            && reachable_avoiding(g, first.to_set(), rest[k]).len() < other by {
            assert(rest[k] == urls[k + 1]);
            assert(reachable_avoiding(g, claimed, urls[k + 1]).finite());
            lemma_reachable_antitone(g, claimed, first.to_set(), rest[k]);
            lemma_len_subset(
                reachable_avoiding(g, first.to_set(), rest[k]),
                reachable_avoiding(g, claimed, rest[k]),
            );
        }
        lemma_walk_each(g, depth, other, first, rest);
        let out = walk_each(g, depth, first, rest);
        assert(out == walk_each(g, depth, seen, urls));
        assert(walk_each(g, other, first, rest) == walk_each(g, other, seen, urls));
        lemma_prefix(seen, first, out);
        lemma_prefix(first, out, out);
        lemma_reachable_closed(g, claimed, node);
        assert forall|x: Node| out.to_set().contains(x) implies claimed.union(
            reached_from_any(g, claimed, urls),
        ).contains(x) by {
            if first.to_set().contains(x) {
                if !claimed.contains(x) {
                    assert(reaches(g, claimed, urls[0], x));
                }
            } else {
                assert(reached_from_any(g, first.to_set(), rest).contains(x));
                let k = choose|k: int|
                    0 <= k < rest.len() && reaches(g, first.to_set(), #[trigger] rest[k], x);
                lemma_reachable_antitone(g, claimed, first.to_set(), rest[k]);
                assert(reachable_avoiding(g, first.to_set(), rest[k]).contains(x));
                assert(reaches(g, claimed, urls[k + 1], x));
            }
        }
        assert forall|k: int| 0 <= k < urls.len() implies out.to_set().contains(
            #[trigger] urls[k],
        ) by {
            if k == 0 {
                if !claimed.contains(node) {
                    lemma_reaches_self(g, claimed, node);
                }
                assert(first.to_set().contains(node));
            } else {
                assert(rest[k - 1] == urls[k]);
            }
        }
        assert(closed_outside(g, claimed, Set::empty(), out.to_set())) by {
            assert forall|x: Node, k: int|
                out.to_set().contains(x) && !claimed.contains(x) && 0 <= k < g(x).len() implies
                claimed.contains(#[trigger] g(x)[k]) || out.to_set().contains(g(x)[k]) by {
                if first.to_set().contains(x) {
                    assert(reachable_avoiding(g, claimed, node).contains(x));
                    assert(claimed.contains(g(x)[k]) || reachable_avoiding(
                        g,
                        claimed,
                        node,
                    ).contains(g(x)[k]));
                }
            }
        }
    }
}

} // verus!
