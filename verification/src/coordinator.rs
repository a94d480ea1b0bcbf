//! The coordinator engine: one owner of the ledger that hands fetches out to
//! workers and detects the end of the run from a count of outstanding work.
//!
//! The coordinator decides; it neither fetches nor waits. Its caller hands
//! out every fetch that the coordinator names, each to a worker of its own,
//! and hands back every result as it arrives, in any order.

use vstd::prelude::*;
use vstd::seq_lib::{lemma_no_dup_in_concat, seq_to_set_distributes_over_add};
use vstd::set_lib::lemma_len_subset;
use crate::fetch::{links_of, outcome_of};
use crate::graph::{
    closed_outside, lemma_closed_holds_reachable, lemma_reaches_self, lemma_reaches_step, reachable,
    Graph, Node,
};
use crate::ledger::Ledger;

verus! {

/// The nodes of `urls` that are not in `claimed`, each once, in the order
/// of their first occurrence: the fetches that a coordinator hands out when
/// it learns of the neighbors `urls`.
pub open spec fn fresh(claimed: Set<Node>, urls: Seq<Node>) -> Seq<Node>
    decreases urls.len(),
{
    if urls.len() == 0 {
        Seq::empty()
    } else {
        let earlier = urls.drop_last();
        if claimed.contains(urls.last()) || earlier.contains(urls.last()) {
            fresh(claimed, earlier)
        } else {
            fresh(claimed, earlier).push(urls.last())
        }
    }
}

/// The fresh nodes of a neighbor list are exactly its unclaimed nodes, and
/// none of them occurs twice.
pub proof fn lemma_fresh(claimed: Set<Node>, urls: Seq<Node>)
    ensures
        fresh(claimed, urls).no_duplicates(),
        fresh(claimed, urls).to_set() == urls.to_set().difference(claimed),
    decreases urls.len(),
{
    if urls.len() == 0 {
        assert(fresh(claimed, urls).to_set() =~= urls.to_set().difference(claimed));
    } else {
        let earlier = urls.drop_last();
        let last = urls.last();
        lemma_fresh(claimed, earlier);
        assert(urls =~= earlier.push(last));
        earlier.lemma_push_to_set_commute(last);
        let sent = fresh(claimed, earlier);
        if claimed.contains(last) || earlier.contains(last) {
            assert(sent.to_set() =~= urls.to_set().difference(claimed));
        } else {
            sent.lemma_push_to_set_commute(last);
            assert(!sent.to_set().contains(last));
            assert(sent.push(last).to_set() =~= urls.to_set().difference(claimed));
        }
    }
}

/// The coordinator of one run: the ledger, which it alone touches, and the
/// count of the fetches that it has handed out and whose results it has not
/// absorbed yet.
///
/// A run is idle until `start` makes its coordinator. `start` and `absorb`
/// dispatch: they name the fetches that are to be handed out. Between two
/// calls the run drains: its caller waits for the next result. The run is
/// done when the count is zero.
pub struct Coordinator {
    fetched: Ledger,
    outstanding: usize,
}

impl Coordinator {
    #[verifier::type_invariant]
    spec fn inv(self) -> bool {
        self.outstanding <= self.fetched.claims().len()
    }

    /// The claimed nodes in the order of their claims.
    pub closed spec fn claims(&self) -> Seq<Node> {
        self.fetched.claims()
    }

    /// The nodes that the coordinator has claimed.
    pub open spec fn claimed(&self) -> Set<Node> {
        self.claims().to_set()
    }

    /// The outstanding-work counter.
    pub closed spec fn outstanding(&self) -> nat {
        self.outstanding as nat
    }

    /// Starts a run at `url`: claims it and counts its fetch as outstanding.
    /// The caller hands out the fetch of `url`.
    pub fn start(url: &str) -> (coordinator: Coordinator)
        ensures
            coordinator.claimed() == set![url@],
            coordinator.claims() == seq![url@],
            coordinator.outstanding() == 1,
    {
        let mut fetched = Ledger::new();
        fetched.claim(url);
        assert(fetched@ =~= set![url@]);
        assert(fetched.claims() =~= seq![url@]);
        Coordinator { fetched, outstanding: 1 }
    }

    /// The number of fetches that are handed out and not absorbed yet.
    pub fn outstanding_fetches(&self) -> (count: usize)
        ensures
            count == self.outstanding(),
    {
        self.outstanding
    }

    /// Whether the run is complete: no fetch is outstanding.
    pub fn is_done(&self) -> (done: bool)
        ensures
            done == (self.outstanding() == 0),
    {
        self.outstanding == 0
    }

    /// The ledger of the run.
    pub fn fetched(&self) -> (ledger: &Ledger)
        ensures
            ledger@ == self.claimed(),
            ledger.claims() == self.claims(),
    {
        &self.fetched
    }

    /// Ends the run and gives its ledger: the result set.
    pub fn into_fetched(self) -> (ledger: Ledger)
        ensures
            ledger@ == self.claimed(),
            ledger.claims() == self.claims(),
    {
        self.fetched
    }

    /// Absorbs the result of one outstanding fetch: counts it as done and,
    /// if the fetch succeeded, claims every neighbor that it discovered.
    /// Returns the newly claimed neighbors, each now counted as
    /// outstanding: the caller hands out their fetches. A failed fetch
    /// claims and hands out nothing.
    pub fn absorb(&mut self, found: Result<Vec<String>, String>) -> (dispatch: Vec<String>)
        requires
            old(self).outstanding() > 0,
        ensures
            final(self).claimed() == old(self).claimed().union(links_of(outcome_of(found)).to_set()),
            final(self).claims() == old(self).claims() + dispatch.deep_view(),
            dispatch.deep_view() == fresh(old(self).claimed(), links_of(outcome_of(found))),
            final(self).outstanding() == old(self).outstanding() - 1 + dispatch.len(),
    {
        proof {
            use_type_invariant(&*self);
        }
        let mut taken = Coordinator { fetched: Ledger::new(), outstanding: 0 };
        std::mem::swap(self, &mut taken);
        let Coordinator { fetched: mut fetched, outstanding: mut outstanding } = taken;
        let ghost before = fetched@;
        let ghost claims = fetched.claims();
        let ghost links = links_of(outcome_of(found));
        outstanding -= 1;
        let mut dispatch: Vec<String> = Vec::new();
        assert(fetched.claims() =~= claims + dispatch.deep_view());
        if let Ok(urls) = found {
            for u in it: urls
                invariant
                    it.seq().len() == links.len(),
                    forall|j: int| 0 <= j < links.len() ==> (#[trigger] it.seq()[j])@ == links[j],
                    fetched@ == before.union(links.take(it.index() as int).to_set()),
                    dispatch.deep_view() == fresh(before, links.take(it.index() as int)),
                    fetched.claims() == claims + dispatch.deep_view(),
                    outstanding + 1 <= fetched.claims().len(),
                    outstanding == old(self).outstanding() - 1 + dispatch.len(),
            {
                let ghost seen = links.take(it.index() as int);
                let ghost next = links.take(it.index() + 1);
                proof {
                    assert(next.drop_last() =~= seen);
                    assert(next.last() == u@);
                    seen.lemma_push_to_set_commute(u@);
                    assert(next =~= seen.push(u@));
                }
                let ghost sent = dispatch.deep_view();
                if fetched.claim(u.as_str()) {
                    outstanding += 1;
                    dispatch.push(u);
                    proof {
                        assert(dispatch.deep_view() =~= sent.push(u@));
                        assert(fetched.claims() =~= claims + dispatch.deep_view());
                    }
                }
            }
            proof {
                assert(links.take(links.len() as int) =~= links);
            }
        } else {
            proof {
                assert(fetched@ =~= before.union(links.to_set()));
                assert(dispatch.deep_view() =~= Seq::<Node>::empty());
            }
        }
        *self = Coordinator { fetched, outstanding };
        dispatch
    }
}

/// A run of the coordinator engine as an observer sees it: besides the
/// ledger and the counter, the fetches that are in flight, which the
/// coordinator itself does not record.
pub struct Run {
    /// The claimed nodes in the order of their claims.
    pub claims: Seq<Node>,
    /// The nodes whose fetch was handed out and has not reported yet.
    pub in_flight: Seq<Node>,
    /// The outstanding-work counter.
    pub outstanding: int,
}

impl Run {
    /// The claimed nodes.
    pub open spec fn claimed(self) -> Set<Node> {
        self.claims.to_set()
    }
}

impl Coordinator {
    /// The coordinator holds the ledger and the counter of `run`.
    pub open spec fn tracks(&self, run: Run) -> bool {
        self.claims() == run.claims && self.outstanding() == run.outstanding
    }
}

/// The run after its start at `start`.
pub open spec fn run_start(start: Node) -> Run {
    Run { claims: seq![start], in_flight: seq![start], outstanding: 1 }
}

/// The run after the fetch at position `k` of the fetches in flight has
/// reported and the coordinator has absorbed its result.
pub open spec fn run_report(g: Graph, run: Run, k: int) -> Run {
    let links = g(run.in_flight[k]);
    let sent = fresh(run.claimed(), links);
    Run {
        claims: run.claims + sent,
        in_flight: run.in_flight.remove(k) + sent,
        outstanding: run.outstanding - 1 + sent.len(),
    }
}

/// The run after the reports that `schedule` lists: each entry is the
/// position, among the fetches then in flight, of the one that reports next.
pub open spec fn run_after(g: Graph, start: Node, schedule: Seq<int>) -> Run
    decreases schedule.len(),
{
    if schedule.len() == 0 {
        run_start(start)
    } else {
        run_report(g, run_after(g, start, schedule.drop_last()), schedule.last())
    }
}

/// Every entry of `schedule` names a fetch that is in flight when its turn
/// comes. The fetches may report in any order.
pub open spec fn is_schedule(g: Graph, start: Node, schedule: Seq<int>) -> bool
    decreases schedule.len(),
{
    schedule.len() == 0 || {
        &&& is_schedule(g, start, schedule.drop_last())
        &&& 0 <= schedule.last() < run_after(g, start, schedule.drop_last()).in_flight.len()
    }
}

/// The fetch of `node` has reported.
pub open spec fn reported(run: Run, node: Node) -> bool {
    run.claimed().contains(node) && !run.in_flight.contains(node)
}

/// Every claimed node but the start node is a neighbor that a fetch
/// reported: no fetch is handed out before the fetch that discovered its
/// node has reported.
pub open spec fn caused(g: Graph, start: Node, run: Run) -> bool {
    forall|x: Node| #[trigger]
        run.claimed().contains(x) && x != start ==> exists|y: Node| #[trigger]
            reported(run, y) && g(y).contains(x)
}

/// What holds of a run after `reports` reports, whatever their order.
pub open spec fn run_inv(g: Graph, start: Node, reports: nat, run: Run) -> bool {
    &&& run.outstanding == run.in_flight.len()
    &&& run.in_flight.no_duplicates()
    &&& run.in_flight.to_set().subset_of(run.claimed())
    &&& run.claimed().contains(start)
    &&& run.claimed().subset_of(reachable(g, start))
    &&& closed_outside(g, Set::empty(), run.in_flight.to_set(), run.claimed())
    &&& run.claims.no_duplicates()
    &&& run.claims.len() == reports + run.in_flight.len()
    &&& caused(g, start, run)
}

/// A report keeps what holds of a run.
pub proof fn lemma_report_keeps_inv(g: Graph, start: Node, reports: nat, run: Run, k: int)
    requires
        run_inv(g, start, reports, run),
        0 <= k < run.in_flight.len(),
    ensures
        run_inv(g, start, reports + 1, run_report(g, run, k)),
{
    let node = run.in_flight[k];
    let links = g(node);
    let sent = fresh(run.claimed(), links);
    let rest = run.in_flight.remove(k);
    let next = run_report(g, run, k);
    lemma_fresh(run.claimed(), links);
    seq_to_set_distributes_over_add(run.claims, sent);
    assert(next.claimed() =~= run.claimed().union(links.to_set()));
    run.in_flight.remove_ensures(k);
    assert(run.in_flight.to_set().contains(node));
    assert forall|i: int| 0 <= i < rest.len() implies run.in_flight.contains(#[trigger] rest[i])
        && rest[i] != node by {
        if i < k {
            assert(rest[i] == run.in_flight[i]);
        } else {
            assert(rest[i] == run.in_flight[i + 1]);
        }
    }
    assert forall|i: int| 0 <= i < sent.len() implies links.contains(#[trigger] sent[i])
        && !run.claimed().contains(sent[i]) by {
        assert(sent.to_set().contains(sent[i]));
    }
    assert(next.in_flight.no_duplicates()) by {
        assert forall|i: int, j: int|
            0 <= i < next.in_flight.len() && 0 <= j < next.in_flight.len() && i != j implies
            next.in_flight[i] != next.in_flight[j] by {
            if i < rest.len() && j < rest.len() {
                let a = if i < k { i } else { i + 1 };
                let b = if j < k { j } else { j + 1 };
                assert(rest[i] == run.in_flight[a] && rest[j] == run.in_flight[b]);
            } else if i >= rest.len() && j >= rest.len() {
                assert(next.in_flight[i] == sent[i - rest.len()]);
                assert(next.in_flight[j] == sent[j - rest.len()]);
            } else if i < rest.len() {
                assert(next.in_flight[j] == sent[j - rest.len()]);
                assert(run.in_flight.to_set().contains(rest[i]));
            } else {
                assert(next.in_flight[i] == sent[i - rest.len()]);
                assert(run.in_flight.to_set().contains(rest[j]));
            }
        }
    }
    assert forall|x: Node| next.in_flight.contains(x) implies next.claimed().contains(x) by {
        let i = choose|i: int| 0 <= i < next.in_flight.len() && next.in_flight[i] == x;
        if i < rest.len() {
            assert(x == rest[i]);
            assert(run.in_flight.to_set().contains(x));
        } else {
            assert(x == sent[i - rest.len()]);
            assert(links.to_set().contains(x));
        }
    }
    assert forall|x: Node| next.claimed().contains(x) implies reachable(g, start).contains(x) by {
        if !run.claimed().contains(x) {
            assert(links.contains(x));
            assert(reachable(g, start).contains(node));
            lemma_reaches_step(g, Set::empty(), start, node, x);
        }
    }
    assert forall|x: Node, j: int|
        next.claimed().contains(x) && !next.in_flight.contains(x) && 0 <= j < g(x).len() implies
        next.claimed().contains(#[trigger] g(x)[j]) by {
        if run.claimed().contains(x) {
            if run.in_flight.to_set().contains(x) {
                if x != node {
                    let i = choose|i: int| 0 <= i < run.in_flight.len() && run.in_flight[i] == x;
                    let at = if i < k { i } else { i - 1 };
                    assert(rest[at] == x);
                    assert(next.in_flight[at] == x);
                    assert(next.in_flight.contains(x));
                } else {
                    assert(links.to_set().contains(links[j]));
                }
            }
        } else {
            assert(links.to_set().difference(run.claimed()).contains(x));
            assert(sent.contains(x));
            let i = choose|i: int| 0 <= i < sent.len() && sent[i] == x;
            assert(next.in_flight[rest.len() + i] == x);
            assert(next.in_flight.contains(x));
        }
    }
    assert(next.claims.no_duplicates()) by {
        assert forall|i: int, j: int|
            0 <= i < run.claims.len() && 0 <= j < sent.len() implies run.claims[i] != sent[j] by {
            assert(run.claimed().contains(run.claims[i]));
        }
        lemma_no_dup_in_concat(run.claims, sent);
    }
    assert(reported(next, node)) by {
        if next.in_flight.contains(node) {
            let i = choose|i: int| 0 <= i < next.in_flight.len() && next.in_flight[i] == node;
            if i < rest.len() {
                assert(rest[i] == node);
            } else {
                assert(sent[i - rest.len()] == node);
            }
        }
    }
    assert forall|x: Node| #[trigger] next.claimed().contains(x) && x != start implies exists|
        y: Node,
    | #[trigger] reported(next, y) && g(y).contains(x) by {
        if run.claimed().contains(x) {
            let y = choose|y: Node| #[trigger] reported(run, y) && g(y).contains(x);
            assert(reported(next, y)) by {
                if next.in_flight.contains(y) {
                    let i = choose|i: int| 0 <= i < next.in_flight.len() && next.in_flight[i] == y;
                    if i < rest.len() {
                        assert(rest[i] == y);
                    } else {
                        assert(sent[i - rest.len()] == y);
                    }
                }
            }
        } else {
            assert(links.contains(x));
        }
    }
}

/// What holds of a run holds after every schedule of reports.
pub proof fn lemma_run_inv(g: Graph, start: Node, schedule: Seq<int>)
    requires
        is_schedule(g, start, schedule),
    ensures
        run_inv(g, start, schedule.len(), run_after(g, start, schedule)),
    decreases schedule.len(),
{
    if schedule.len() == 0 {
        let run = run_start(start);
        lemma_reaches_self(g, Set::empty(), start);
        assert(run.in_flight[0] == start);
        assert(run.in_flight.contains(start));
        assert(run.claims[0] == start);
        assert(run.claimed().contains(start));
    } else {
        lemma_run_inv(g, start, schedule.drop_last());
        lemma_report_keeps_inv(
            g,
            start,
            schedule.drop_last().len(),
            run_after(g, start, schedule.drop_last()),
            schedule.last(),
        );
    }
}

/// The outstanding-work counter is never negative and equals the number of
/// fetches in flight, at every point of every run: it is zero exactly when
/// no fetch is in flight, that is, when the run is complete.
pub proof fn lemma_counter_counts_in_flight(g: Graph, start: Node, schedule: Seq<int>)
    requires
        is_schedule(g, start, schedule),
    ensures
        run_after(g, start, schedule).outstanding >= 0,
        run_after(g, start, schedule).outstanding == run_after(g, start, schedule).in_flight.len(),
        run_after(g, start, schedule).outstanding == 0 <==> run_after(
            g,
            start,
            schedule,
        ).in_flight == Seq::<Node>::empty(),
{
    lemma_run_inv(g, start, schedule);
    let run = run_after(g, start, schedule);
    if run.outstanding == 0 {
        assert(run.in_flight =~= Seq::<Node>::empty());
    }
}

/// Every claimed node is handed out once: at every point of every run no
/// node is claimed twice or in flight twice, and the number of claimed nodes
/// is the number of reports absorbed plus the counter.
pub proof fn lemma_each_claim_fetched_once(g: Graph, start: Node, schedule: Seq<int>)
    requires
        is_schedule(g, start, schedule),
    ensures
        run_after(g, start, schedule).claims.no_duplicates(),
        run_after(g, start, schedule).in_flight.no_duplicates(),
        run_after(g, start, schedule).claims.len() == schedule.len() + run_after(
            g,
            start,
            schedule,
        ).outstanding,
{
    lemma_run_inv(g, start, schedule);
}

/// No fetch is handed out before the fetch that discovered its node has
/// reported: at every point of every run, every claimed node but the start
/// node is a neighbor of a node whose fetch has reported.
pub proof fn lemma_fetch_follows_discovery(g: Graph, start: Node, schedule: Seq<int>)
    requires
        is_schedule(g, start, schedule),
    ensures
        caused(g, start, run_after(g, start, schedule)),
{
    lemma_run_inv(g, start, schedule);
}

/// While the run goes on, only reachable nodes are claimed; when the
/// counter reaches zero, the ledger holds the reachable-node closure of the
/// start node, whatever the order of the reports was.
pub proof fn lemma_complete_run_claims_reachable(g: Graph, start: Node, schedule: Seq<int>)
    requires
        is_schedule(g, start, schedule),
    ensures
        run_after(g, start, schedule).claimed().subset_of(reachable(g, start)),
        run_after(g, start, schedule).outstanding == 0 ==> run_after(g, start, schedule).claimed()
            == reachable(g, start),
{
    lemma_run_inv(g, start, schedule);
    let run = run_after(g, start, schedule);
    if run.outstanding == 0 {
        assert(run.in_flight.to_set() =~= Set::<Node>::empty());
        lemma_closed_holds_reachable(g, Set::empty(), start, run.claimed());
        assert(run.claimed() =~= reachable(g, start));
    }
}

/// A run over a finite reachable set ends: it absorbs at most as many
/// reports as there are reachable nodes, and it is complete when it has
/// absorbed that many.
pub proof fn lemma_run_ends(g: Graph, start: Node, schedule: Seq<int>)
    requires
        is_schedule(g, start, schedule),
        reachable(g, start).finite(),
    ensures
        schedule.len() + run_after(g, start, schedule).outstanding <= reachable(g, start).len(),
        schedule.len() == reachable(g, start).len() ==> run_after(g, start, schedule).outstanding
            == 0,
{
    lemma_run_inv(g, start, schedule);
    run_after(g, start, schedule).claims.unique_seq_to_set();
    lemma_len_subset(run_after(g, start, schedule).claimed(), reachable(g, start));
}

} // verus!
