//! The fetch capability that the traversal engines consume, with two
//! fetchers: one that answers from a table of canned results, and one that
//! calls a function.

use vstd::prelude::*;
use vstd::hash_map::StringHashMap;
use vstd::string::StringExecFns;
use vstd::set_lib::lemma_len_subset;
use crate::graph::{connects, edge_at, reachable_avoiding, Graph, Node};

verus! {

/// What a fetch yields, in the model: the ordered neighbor list of the node,
/// or the reason of the failure.
pub type Outcome = Result<Seq<Node>, Seq<char>>;

/// The model of a fetch result.
pub open spec fn outcome_of(found: Result<Vec<String>, String>) -> Outcome {
    match found {
        Ok(urls) => Ok(urls.deep_view()),
        Err(reason) => Err(reason@),
    }
}

/// The neighbors that an outcome discovers: a failed fetch discovers none.
pub open spec fn links_of(outcome: Outcome) -> Seq<Node> {
    match outcome {
        Ok(urls) => urls,
        Err(_) => Seq::empty(),
    }
}

/// The behavior of a fetcher. A fetcher is a fixed capability: what it
/// yields for a node depends on the node alone, and a failure is an ordinary
/// outcome.
pub trait Fetcher {
    /// What the fetch of `url` yields.
    spec fn outcome(&self, url: Node) -> Outcome;

    /// Returns the list of URLs found on the page, or an error.
    fn fetch(&self, url: &str) -> (found: Result<Vec<String>, String>)
        ensures
            outcome_of(found) == self.outcome(url@),
    ;
}

/// The graph that a fetcher lays open: the successors of a node are the
/// neighbors that its fetch discovers.
pub open spec fn graph_of<F: Fetcher>(fetcher: &F) -> Graph {
    |url: Node| links_of(fetcher.outcome(url))
}

/// The reason that a fake fetcher gives for a node that its table lacks.
pub open spec fn not_found(url: Node) -> Seq<char> {
    "not found: "@ + url
}

/// A fake fetcher that returns canned results. It stores fetch results, so
/// that it can stand for fetches that fail.
pub struct FakeFetcher {
    results: StringHashMap<Result<Vec<String>, String>>,
}

impl FakeFetcher {
    /// The canned outcome of every node that the table holds.
    pub closed spec fn table(&self) -> Map<Node, Outcome> {
        Map::new(
            |url: Node| self.results@.contains_key(url),
            |url: Node| outcome_of(self.results@[url]),
        )
    }

    /// A fetcher with an empty table: every fetch fails.
    pub fn new() -> (fetcher: FakeFetcher)
        ensures
            fetcher.table() == Map::<Node, Outcome>::empty(),
    {
        let fetcher = FakeFetcher { results: StringHashMap::new() };
        assert(fetcher.table() =~= Map::<Node, Outcome>::empty());
        fetcher
    }

    /// Whether the table holds a result for `url`.
    pub fn contains(&self, url: &str) -> (held: bool)
        ensures
            held == self.table().contains_key(url@),
    {
        self.results.contains_key(url)
    }

    /// Sets the canned result of `url`, in place of an earlier one.
    pub fn insert(&mut self, url: String, result: Result<Vec<String>, String>)
        ensures
            final(self).table() == old(self).table().insert(url@, outcome_of(result)),
    {
        self.results.insert(url, result);
        assert(self.table() =~= old(self).table().insert(url@, outcome_of(result)));
    }
}

impl Fetcher for FakeFetcher {
    /// The canned outcome of `url`, or a failure for a node that the table
    /// lacks.
    open spec fn outcome(&self, url: Node) -> Outcome {
        if self.table().contains_key(url) {
            self.table()[url]
        } else {
            Err(not_found(url))
        }
    }

    fn fetch(&self, url: &str) -> (found: Result<Vec<String>, String>) {
        match self.results.get(url) {
            Some(Ok(urls)) => {
                let copy = urls.clone();
                assert(copy.deep_view() =~= urls.deep_view());
                Ok(copy)
            },
            Some(Err(e)) => Err(e.clone()),
            None => Err(String::from_str("not found: ").concat(url)),
        }
    }
}

/// The nodes that some entry of `table` lists as a neighbor.
pub open spec fn targets(table: Map<Node, Outcome>) -> Set<Node> {
    Set::new(
        |to: Node| exists|from: Node| table.contains_key(from) && links_of(table[from]).contains(to),
    )
}

/// A finite table lists finitely many neighbors.
pub proof fn lemma_targets_finite(table: Map<Node, Outcome>)
    requires
        table.dom().finite(),
    ensures
        targets(table).finite(),
    decreases table.dom().len(),
{
    if table.dom().is_empty() {
        assert(targets(table) =~= Set::<Node>::empty());
    } else {
        let key = table.dom().choose();
        let rest = table.remove(key);
        lemma_targets_finite(rest);
        let listed = links_of(table[key]).to_set();
        assert forall|to: Node| targets(table).contains(to) implies targets(rest).union(
            listed,
        ).contains(to) by {
            let from = choose|from: Node|
                table.contains_key(from) && links_of(table[from]).contains(to);
            if from != key {
                assert(rest.contains_key(from) && links_of(rest[from]).contains(to));
            }
        }
        lemma_len_subset(targets(table), targets(rest).union(listed));
    }
}

impl FakeFetcher {
    /// Through a finite table, a traversal discovers finitely many nodes:
    /// the start node and neighbors that the table lists.
    pub proof fn lemma_discovers_finitely(&self, blocked: Set<Node>, start: Node)
        requires
            self.table().dom().finite(),
        ensures
            reachable_avoiding(graph_of(self), blocked, start).subset_of(
                targets(self.table()).insert(start),
            ),
            reachable_avoiding(graph_of(self), blocked, start).finite(),
    {
        let g = graph_of(self);
        let found = reachable_avoiding(g, blocked, start);
        let listed = targets(self.table()).insert(start);
        assert forall|to: Node| found.contains(to) implies listed.contains(to) by {
            if to != start {
                let p = choose|p: Seq<Node>| connects(g, blocked, start, to, p);
                let last = p.len() - 2;
                assert(edge_at(g, p, last));
                let from = p[last];
                assert(links_of(self.outcome(from)).contains(to));
                assert(self.table().contains_key(from));
            }
        }
        lemma_targets_finite(self.table());
        lemma_len_subset(found, listed);
    }
}

/// The example site: five pages that link to each other, with cycles and
/// with a page that two pages link to.
pub open spec fn example_site() -> Map<Node, Outcome> {
    Map::<Node, Outcome>::empty().insert(
        "https://example.com/"@,
        Ok(seq!["https://example.com/page1"@, "https://example.com/page2"@]),
    ).insert(
        "https://example.com/page1"@,
        Ok(seq!["https://example.com/"@, "https://example.com/page3"@]),
    ).insert("https://example.com/page2"@, Ok(seq!["https://example.com/"@])).insert(
        "https://example.com/page3"@,
        Ok(seq!["https://example.com/page1"@, "https://example.com/page4"@]),
    ).insert("https://example.com/page4"@, Ok(Seq::<Node>::empty()))
}

/// A fake fetcher that holds the example site.
pub fn get_fake_fetcher() -> (fetcher: FakeFetcher)
    ensures
        fetcher.table() == example_site(),
        fetcher.table().dom().finite(),
{
    let mut fetcher = FakeFetcher::new();
    let home = vec!["https://example.com/page1".to_owned(), "https://example.com/page2".to_owned()];
    assert(home.deep_view() =~= seq!["https://example.com/page1"@, "https://example.com/page2"@]);
    fetcher.insert("https://example.com/".to_owned(), Ok(home));
    let page1 = vec!["https://example.com/".to_owned(), "https://example.com/page3".to_owned()];
    assert(page1.deep_view() =~= seq!["https://example.com/"@, "https://example.com/page3"@]);
    fetcher.insert("https://example.com/page1".to_owned(), Ok(page1));
    let page2 = vec!["https://example.com/".to_owned()];
    assert(page2.deep_view() =~= seq!["https://example.com/"@]);
    fetcher.insert("https://example.com/page2".to_owned(), Ok(page2));
    let page3 = vec!["https://example.com/page1".to_owned(), "https://example.com/page4".to_owned()];
    assert(page3.deep_view() =~= seq!["https://example.com/page1"@, "https://example.com/page4"@]);
    fetcher.insert("https://example.com/page3".to_owned(), Ok(page3));
    let page4: Vec<String> = vec![];
    assert(page4.deep_view() =~= Seq::<Node>::empty());
    fetcher.insert("https://example.com/page4".to_owned(), Ok(page4));
    fetcher
}

/// A fetcher made of a function: each fetch is one call of it. It lets any
/// source of pages stand behind the engines, one that reads from a network
/// as well as a double.
pub struct FetchFn<F: Fn(String) -> Result<Vec<String>, String>> {
    run: F,
}

/// `run` can be called on every node, and what it returns for a node
/// depends on the node alone.
pub open spec fn is_fixed<F: Fn(String) -> Result<Vec<String>, String>>(run: F) -> bool {
    &&& forall|url: String| call_requires(run, (url,))
    &&& forall|a: String, b: String, x: Result<Vec<String>, String>, y: Result<Vec<String>, String>|
        a@ == b@ && #[trigger] call_ensures(run, (a,), x) && #[trigger] call_ensures(run, (b,), y)
            ==> outcome_of(x) == outcome_of(y)
}

/// Some call of `run` on `url` returns the outcome `outcome`.
pub open spec fn yields<F: Fn(String) -> Result<Vec<String>, String>>(
    run: F,
    url: Node,
    outcome: Outcome,
) -> bool {
    exists|u: String, found: Result<Vec<String>, String>|
        u@ == url && #[trigger] call_ensures(run, (u,), found) && outcome == outcome_of(found)
}

impl<F: Fn(String) -> Result<Vec<String>, String>> FetchFn<F> {
    #[verifier::type_invariant]
    spec fn inv(self) -> bool {
        is_fixed(self.run)
    }

    /// The function that fetches.
    pub closed spec fn run(&self) -> F {
        self.run
    }

    /// The fetcher that fetches by a call of `run`.
    pub fn new(run: F) -> (fetcher: FetchFn<F>)
        requires
            is_fixed(run),
        ensures
            fetcher.run() == run,
    {
        FetchFn { run }
    }

    /// The outcome of a node is what any call of the function on it returns.
    pub proof fn lemma_outcome(&self, url: String, found: Result<Vec<String>, String>)
        requires
            is_fixed(self.run()),
            call_ensures(self.run(), (url,), found),
        ensures
            self.outcome(url@) == outcome_of(found),
    {
        assert(yields(self.run, url@, outcome_of(found)));
    }
}

impl<F: Fn(String) -> Result<Vec<String>, String>> Fetcher for FetchFn<F> {
    /// What the function returns for `url`.
    closed spec fn outcome(&self, url: Node) -> Outcome {
        choose|outcome: Outcome| yields(self.run, url, outcome)
    }

    fn fetch(&self, url: &str) -> (found: Result<Vec<String>, String>)
        ensures
            yields(self.run(), url@, outcome_of(found)),
    {
        proof {
            use_type_invariant(self);
        }
        let owned = url.to_owned();
        let found = (self.run)(owned);
        proof {
            assert(call_ensures(self.run, (owned,), found));
            assert(yields(self.run, url@, outcome_of(found)));
        }
        found
    }
}

} // verus!
