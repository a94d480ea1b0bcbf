//! The serial traversal engine: a depth-first walk on one thread, and the
//! baseline for the result of the other engines.

use vstd::prelude::*;
use vstd::set_lib::lemma_len_subset;
use crate::depth_first::{depth_first, lemma_walk, walk, walk_each, within};
use crate::fetch::{graph_of, Fetcher};
use crate::graph::{
    lemma_child_discovers_less, lemma_reachable_antitone, lemma_reaches_self, reachable_avoiding,
    Graph, Node,
};
use crate::ledger::Ledger;

verus! {

/// What the ledger holds after a serial walk of `g` from `url` that began
/// with the ledger `before`: what it held, and every node with a walk from
/// `url` through nodes that were unclaimed.
pub open spec fn serial_result(g: Graph, before: Set<Node>, url: Node) -> Set<Node> {
    before.union(reachable_avoiding(g, before, url))
}

/// Once `url` is claimed, from each of its neighbors fewer nodes are
/// discovered than were from `url`.
proof fn lemma_neighbors_within(g: Graph, seen: Seq<Node>, url: Node)
    requires
        !seen.contains(url),
        reachable_avoiding(g, seen.to_set(), url).finite(),
    ensures
        within(g, seen.push(url), g(url), reachable_avoiding(g, seen.to_set(), url).len()),
{
    let claimed = seen.to_set();
    let all = reachable_avoiding(g, claimed, url);
    let first = seen.push(url);
    let urls = g(url);
    lemma_reaches_self(g, claimed, url);
    seen.lemma_push_to_set_commute(url);
    assert forall|k: int| 0 <= k < urls.len() implies (#[trigger] reachable_avoiding(
        g,
        first.to_set(),
        urls[k],
    )).finite() && reachable_avoiding(g, first.to_set(), urls[k]).len() < all.len() by {
        assert(urls.contains(urls[k]));
        lemma_child_discovers_less(g, claimed, first.to_set(), url, urls[k]);
        lemma_len_subset(reachable_avoiding(g, first.to_set(), urls[k]), all.remove(url));
    }
}

/// With more claimed, from each node as few nodes are discovered as before,
/// or fewer.
proof fn lemma_within_after(g: Graph, seen: Seq<Node>, later: Seq<Node>, urls: Seq<Node>, depth: nat)
    requires
        within(g, seen, urls, depth),
        seen.to_set().subset_of(later.to_set()),
        urls.len() > 0,
    ensures
        within(g, later, urls.drop_first(), depth),
{
    let rest = urls.drop_first();
    assert forall|k: int| 0 <= k < rest.len() implies (#[trigger] reachable_avoiding(
        g,
        later.to_set(),
        rest[k],
    )).finite() && reachable_avoiding(g, later.to_set(), rest[k]).len() < depth by {
        assert(rest[k] == urls[k + 1]);
        assert(reachable_avoiding(g, seen.to_set(), urls[k + 1]).finite());
        lemma_reachable_antitone(g, seen.to_set(), later.to_set(), rest[k]);
        lemma_len_subset(
            reachable_avoiding(g, later.to_set(), rest[k]),
            reachable_avoiding(g, seen.to_set(), rest[k]),
        );
    }
}

/// Visits `url` and, depth first and in the order in which each fetch
/// returns them, everything that it leads to: claims `url` in `fetched`,
/// and, unless it was claimed already, fetches it and visits every neighbor
/// that the fetch returns. A fetch that fails leaves its node claimed and
/// discovers nothing.
///
/// Afterwards `fetched` holds what it held before and every node with a
/// walk from `url` through nodes that were unclaimed before, claimed in the
/// order of the depth-first walk. The walk needs the set of these nodes to
/// be finite: it does not return from a graph that never ends.
pub fn serial_crawler(url: String, fetcher: &impl Fetcher, fetched: &mut Ledger)
    requires
        reachable_avoiding(graph_of(fetcher), old(fetched)@, url@).finite(),
    ensures
        final(fetched)@ == serial_result(graph_of(fetcher), old(fetched)@, url@),
        final(fetched).claims() == depth_first(graph_of(fetcher), old(fetched).claims(), url@),
        old(fetched).claims().is_prefix_of(final(fetched).claims()),
    decreases reachable_avoiding(graph_of(fetcher), old(fetched)@, url@).len(),
{
    let ghost g = graph_of(fetcher);
    let ghost seen = fetched.claims();
    let ghost u = url@;
    let ghost all = reachable_avoiding(g, seen.to_set(), u);
    let ghost depth = all.len() + 1;
    proof {
        lemma_walk(g, depth, depth, seen, u);
    }
    if !fetched.claim(url.as_str()) {
        return ;
    }
    let ghost first = seen.push(u);
    let ghost below = all.len();
    let ghost links = g(u);
    proof {
        lemma_neighbors_within(g, seen, u);
        assert(walk(g, depth, seen, u) == walk_each(g, below, first, links));
    }
    if let Ok(fetched_urls) = fetcher.fetch(url.as_str()) {
        assert(links == fetched_urls.deep_view());
        assert(links.skip(0) =~= links);
        for next in it: fetched_urls
            invariant
                it.seq().len() == links.len(),
                forall|j: int| 0 <= j < links.len() ==> (#[trigger] it.seq()[j])@ == links[j],
                g == graph_of(fetcher),
                seen == old(fetched).claims(),
                u == url@,
                all == reachable_avoiding(g, seen.to_set(), u),
                all.finite(),
                below == all.len(),
                within(g, fetched.claims(), links.skip(it.index() as int), below),
                walk_each(g, below, fetched.claims(), links.skip(it.index() as int)) == walk_each(
                    g,
                    below,
                    first,
                    links,
                ),
        {
            let ghost at = it.index() as int;
            let ghost left = links.skip(at);
            let ghost claims = fetched.claims();
            let ghost more = reachable_avoiding(g, claims.to_set(), next@);
            proof {
                assert(left[0] == next@);
                assert(more.finite() && more.len() < below);
                lemma_walk(g, below, more.len() + 1, claims, next@);
            }
            serial_crawler(next, fetcher, fetched);
            proof {
                assert(fetched.claims() == walk(g, below, claims, left[0]));
                assert(left.drop_first() =~= links.skip(at + 1));
                lemma_within_after(g, claims, fetched.claims(), left, below);
            }
        }
        proof {
            assert(links.skip(links.len() as int) =~= Seq::<Node>::empty());
        }
    }
}

} // verus!
