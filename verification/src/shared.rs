//! The shared-state concurrent engine: one task per discovered neighbor,
//! all of them claiming in one ledger behind a lock.
//!
//! A task claims its node and, if the claim is new, fetches the node outside
//! the lock and spawns one task for every neighbor; it ends when the tasks
//! that it spawned have ended. Here stand the two decisions of a task, the
//! claim and what a fetch result spawns, and what holds of the ledger
//! however the tasks interleave.

use vstd::prelude::*;
use crate::fetch::{links_of, outcome_of};
use crate::graph::{
    closed_outside, lemma_closed_holds_reachable, lemma_reaches_self, lemma_reaches_step, reachable,
    Graph, Node,
};

verus! {

/// The neighbors that a fetch result discovers, for each of which a task is
/// spawned: those of a fetch that succeeded, none of a fetch that failed.
pub fn discovered(found: Result<Vec<String>, String>) -> (urls: Vec<String>)
    ensures
        urls.deep_view() == links_of(outcome_of(found)),
{
    match found {
        Ok(urls) => urls,
        Err(_) => {
            let none: Vec<String> = Vec::new();
            assert(none.deep_view() =~= Seq::<Node>::empty());
            none
        },
    }
}

/// A task of the engine, by how far it has come.
pub enum Task {
    /// Spawned for a node, and not yet at its claim.
    Visit(Node),
    /// Past a new claim of its node, and not yet done with the fetch.
    Fetch(Node),
}

/// The ledger that the tasks of a run share, and the tasks that have work
/// left. A task that waits for the tasks it spawned has no work left.
pub struct Pool {
    /// The claimed nodes in the order of their claims.
    pub claims: Seq<Node>,
    /// The tasks that have not spawned yet.
    pub tasks: Seq<Task>,
}

impl Pool {
    /// The claimed nodes.
    pub open spec fn claimed(self) -> Set<Node> {
        self.claims.to_set()
    }
}

/// One task for each of `urls`.
pub open spec fn visits(urls: Seq<Node>) -> Seq<Task> {
    Seq::new(urls.len(), |i: int| Task::Visit(urls[i]))
}

/// The run at its start: one task, for the start node.
pub open spec fn pool_start(start: Node) -> Pool {
    Pool { claims: Seq::empty(), tasks: seq![Task::Visit(start)] }
}

/// The run after the task at position `k` has taken its next step, which
/// no step of another task interrupts: it claims its node, and ends if the
/// node was claimed; or it ends its fetch and spawns a task for every
/// neighbor.
pub open spec fn pool_step(g: Graph, pool: Pool, k: int) -> Pool {
    match pool.tasks[k] {
        Task::Visit(node) => if pool.claims.contains(node) {
            Pool { claims: pool.claims, tasks: pool.tasks.remove(k) }
        } else {
            Pool { claims: pool.claims.push(node), tasks: pool.tasks.update(k, Task::Fetch(node)) }
        },
        Task::Fetch(node) => Pool {
            claims: pool.claims,
            tasks: pool.tasks.remove(k) + visits(g(node)),
        },
    }
}

/// The run after the steps that `schedule` lists: each entry is the
/// position of the task that steps next.
pub open spec fn pool_after(g: Graph, start: Node, schedule: Seq<int>) -> Pool
    decreases schedule.len(),
{
    if schedule.len() == 0 {
        pool_start(start)
    } else {
        pool_step(g, pool_after(g, start, schedule.drop_last()), schedule.last())
    }
}

/// Every entry of `schedule` names a task that has work left when its turn
/// comes. The tasks may interleave in any way.
pub open spec fn is_interleaving(g: Graph, start: Node, schedule: Seq<int>) -> bool
    decreases schedule.len(),
{
    schedule.len() == 0 || {
        &&& is_interleaving(g, start, schedule.drop_last())
        &&& 0 <= schedule.last() < pool_after(g, start, schedule.drop_last()).tasks.len()
    }
}

/// A task is on its way to claim `node`.
pub open spec fn visiting(pool: Pool, node: Node) -> bool {
    pool.tasks.contains(Task::Visit(node))
}

/// A task is fetching `node`.
pub open spec fn fetching(pool: Pool, node: Node) -> bool {
    pool.tasks.contains(Task::Fetch(node))
}

/// What holds of a run, however its tasks interleave.
pub open spec fn pool_inv(g: Graph, start: Node, pool: Pool) -> bool {
    &&& pool.claimed().subset_of(reachable(g, start))
    &&& forall|node: Node| #[trigger] visiting(pool, node) ==> reachable(g, start).contains(node)
    &&& forall|node: Node| #[trigger] fetching(pool, node) ==> pool.claimed().contains(node)
    &&& pool.claimed().contains(start) || visiting(pool, start)
    &&& forall|x: Node, j: int|
        pool.claimed().contains(x) && !fetching(pool, x) && 0 <= j < g(x).len()
            ==> pool.claimed().contains(#[trigger] g(x)[j]) || visiting(pool, g(x)[j])
    &&& pool.claims.no_duplicates()
}

/// What a sequence holds after the removal of one element.
proof fn lemma_remove_contains<A>(s: Seq<A>, k: int)
    requires
        0 <= k < s.len(),
    ensures
        forall|a: A| #[trigger] s.remove(k).contains(a) ==> s.contains(a),
        forall|a: A| s.contains(a) && a != s[k] ==> #[trigger] s.remove(k).contains(a),
{
    s.remove_ensures(k);
    let rest = s.remove(k);
    assert forall|a: A| #[trigger] rest.contains(a) implies s.contains(a) by {
        let i = choose|i: int| 0 <= i < rest.len() && rest[i] == a;
        if i < k {
            assert(s[i] == a);
        } else {
            assert(s[i + 1] == a);
        }
    }
    assert forall|a: A| s.contains(a) && a != s[k] implies #[trigger] rest.contains(a) by {
        let i = choose|i: int| 0 <= i < s.len() && s[i] == a;
        if i < k {
            assert(rest[i] == a);
        } else {
            assert(rest[i - 1] == a);
        }
    }
}

/// A step keeps what holds of a run.
pub proof fn lemma_step_keeps_inv(g: Graph, start: Node, pool: Pool, k: int)
    requires
        pool_inv(g, start, pool),
        0 <= k < pool.tasks.len(),
    ensures
        pool_inv(g, start, pool_step(g, pool, k)),
{
    let next = pool_step(g, pool, k);
    let rest = pool.tasks.remove(k);
    lemma_remove_contains(pool.tasks, k);
    assert(pool.tasks.contains(pool.tasks[k]));
    match pool.tasks[k] {
        Task::Visit(node) => {
            assert(visiting(pool, node));
            if pool.claimed().contains(node) {
                assert(next.claimed() =~= pool.claimed());
                assert forall|n: Node| #[trigger] visiting(next, n) implies visiting(pool, n) by {}
                assert forall|n: Node| #[trigger] fetching(next, n) implies fetching(pool, n) by {}
                assert forall|n: Node| fetching(pool, n) implies #[trigger] fetching(next, n) by {}
                assert forall|n: Node| visiting(pool, n) && n != node implies #[trigger] visiting(
                    next,
                    n,
                ) by {}
                assert forall|x: Node, j: int|
                    next.claimed().contains(x) && !fetching(next, x) && 0 <= j < g(x).len() implies
                    next.claimed().contains(#[trigger] g(x)[j]) || visiting(next, g(x)[j]) by {
                    assert(!fetching(pool, x));
                    if !pool.claimed().contains(g(x)[j]) {
                        assert(visiting(pool, g(x)[j]));
                    }
                }
            } else {
                pool.claims.lemma_push_to_set_commute(node);
                assert(next.claimed() =~= pool.claimed().insert(node));
                let swapped = pool.tasks.update(k, Task::Fetch(node));
                assert(next.tasks == swapped);
                assert(swapped[k] == Task::Fetch(node));
                assert(fetching(next, node));
                assert forall|n: Node| #[trigger] visiting(next, n) implies visiting(pool, n) by {
                    let i = choose|i: int| 0 <= i < swapped.len() && swapped[i] == Task::Visit(n);
                    assert(pool.tasks[i] == Task::Visit(n));
                }
                assert forall|n: Node| #[trigger] fetching(next, n) implies n == node || fetching(
                    pool,
                    n,
                ) by {
                    let i = choose|i: int| 0 <= i < swapped.len() && swapped[i] == Task::Fetch(n);
                    if i != k {
                        assert(pool.tasks[i] == Task::Fetch(n));
                    }
                }
                assert forall|n: Node| fetching(pool, n) implies #[trigger] fetching(next, n) by {
                    let i = choose|i: int|
                        0 <= i < pool.tasks.len() && pool.tasks[i] == Task::Fetch(n);
                    assert(swapped[i] == Task::Fetch(n));
                }
                assert forall|n: Node| visiting(pool, n) && n != node implies #[trigger] visiting(
                    next,
                    n,
                ) by {
                    let i = choose|i: int|
                        0 <= i < pool.tasks.len() && pool.tasks[i] == Task::Visit(n);
                    assert(swapped[i] == Task::Visit(n));
                }
                assert forall|x: Node, j: int|
                    next.claimed().contains(x) && !fetching(next, x) && 0 <= j < g(x).len() implies
                    next.claimed().contains(#[trigger] g(x)[j]) || visiting(next, g(x)[j]) by {
                    assert(x != node);
                    assert(!fetching(pool, x));
                    if !pool.claimed().contains(g(x)[j]) {
                        assert(visiting(pool, g(x)[j]));
                    }
                }
            }
        },
        Task::Fetch(node) => {
            assert(fetching(pool, node));
            let spawned = visits(g(node));
            assert(next.tasks == rest + spawned);
            assert forall|n: Node| #[trigger] visiting(next, n) implies visiting(pool, n) || g(
                node,
            ).contains(n) by {
                let i = choose|i: int| 0 <= i < next.tasks.len() && next.tasks[i] == Task::Visit(n);
                if i < rest.len() {
                    assert(rest[i] == Task::Visit(n));
                    assert(rest.contains(Task::Visit(n)));
                } else {
                    assert(spawned[i - rest.len()] == Task::Visit(n));
                }
            }
            assert forall|n: Node| #[trigger] fetching(next, n) implies fetching(pool, n) by {
                let i = choose|i: int| 0 <= i < next.tasks.len() && next.tasks[i] == Task::Fetch(n);
                if i < rest.len() {
                    assert(rest[i] == Task::Fetch(n));
                    assert(rest.contains(Task::Fetch(n)));
                } else {
                    assert(spawned[i - rest.len()] == Task::Fetch(n));
                }
            }
            assert forall|n: Node| visiting(pool, n) implies #[trigger] visiting(next, n) by {
                assert(rest.contains(Task::Visit(n)));
                let i = choose|i: int| 0 <= i < rest.len() && rest[i] == Task::Visit(n);
                assert(next.tasks[i] == Task::Visit(n));
            }
            assert forall|n: Node| fetching(pool, n) && n != node implies #[trigger] fetching(
                next,
                n,
            ) by {
                assert(rest.contains(Task::Fetch(n)));
                let i = choose|i: int| 0 <= i < rest.len() && rest[i] == Task::Fetch(n);
                assert(next.tasks[i] == Task::Fetch(n));
            }
            assert forall|j: int| 0 <= j < g(node).len() implies visiting(
                next,
                #[trigger] g(node)[j],
            ) by {
                assert(next.tasks[rest.len() + j] == spawned[j]);
            }
            assert forall|n: Node| #[trigger] visiting(next, n) implies reachable(
                g,
                start,
            ).contains(n) by {
                if !visiting(pool, n) {
                    assert(reachable(g, start).contains(node));
                    lemma_reaches_step(g, Set::empty(), start, node, n);
                }
            }
            assert forall|x: Node, j: int|
                next.claimed().contains(x) && !fetching(next, x) && 0 <= j < g(x).len() implies
                next.claimed().contains(#[trigger] g(x)[j]) || visiting(next, g(x)[j]) by {
                if x != node {
                    assert(!fetching(pool, x));
                    if !pool.claimed().contains(g(x)[j]) {
                        assert(visiting(pool, g(x)[j]));
                    }
                }
            }
        },
    }
}

/// What holds of a run holds after every interleaving of its tasks.
pub proof fn lemma_pool_inv(g: Graph, start: Node, schedule: Seq<int>)
    requires
        is_interleaving(g, start, schedule),
    ensures
        pool_inv(g, start, pool_after(g, start, schedule)),
    decreases schedule.len(),
{
    if schedule.len() == 0 {
        let pool = pool_start(start);
        assert(pool.tasks[0] == Task::Visit(start));
        assert(visiting(pool, start));
        lemma_reaches_self(g, Set::empty(), start);
        assert forall|node: Node| #[trigger] visiting(pool, node) implies node == start by {
            let i = choose|i: int| 0 <= i < pool.tasks.len() && pool.tasks[i] == Task::Visit(node);
        }
        assert forall|node: Node| !#[trigger] fetching(pool, node) by {
            if fetching(pool, node) {
                let i = choose|i: int|
                    0 <= i < pool.tasks.len() && pool.tasks[i] == Task::Fetch(node);
            }
        }
        assert(pool.claimed() =~= Set::<Node>::empty());
    } else {
        lemma_pool_inv(g, start, schedule.drop_last());
        lemma_step_keeps_inv(
            g,
            start,
            pool_after(g, start, schedule.drop_last()),
            schedule.last(),
        );
    }
}

/// Exactly one task fetches a node: however the tasks interleave, no node
/// is claimed twice, and only a task that claims a node goes on to fetch it.
pub proof fn lemma_one_fetch_per_node(g: Graph, start: Node, schedule: Seq<int>)
    requires
        is_interleaving(g, start, schedule),
    ensures
        pool_after(g, start, schedule).claims.no_duplicates(),
        forall|node: Node| #[trigger]
            fetching(pool_after(g, start, schedule), node) ==> pool_after(
                g,
                start,
                schedule,
            ).claimed().contains(node),
{
    lemma_pool_inv(g, start, schedule);
}

/// While tasks go on, only reachable nodes are claimed; when no task has
/// work left, the ledger holds the reachable-node closure of the start
/// node, however the tasks interleaved.
pub proof fn lemma_complete_pool_claims_reachable(g: Graph, start: Node, schedule: Seq<int>)
    requires
        is_interleaving(g, start, schedule),
    ensures
        pool_after(g, start, schedule).claimed().subset_of(reachable(g, start)),
        pool_after(g, start, schedule).tasks.len() == 0 ==> pool_after(g, start, schedule).claimed()
            == reachable(g, start),
{
    lemma_pool_inv(g, start, schedule);
    let pool = pool_after(g, start, schedule);
    if pool.tasks.len() == 0 {
        assert(!visiting(pool, start));
        assert(closed_outside(g, Set::empty(), Set::empty(), pool.claimed())) by {
            assert forall|x: Node, j: int|
                pool.claimed().contains(x) && 0 <= j < g(x).len() implies pool.claimed().contains(
                #[trigger] g(x)[j],
            ) by {
                assert(!fetching(pool, x));
                assert(!visiting(pool, g(x)[j]));
            }
        }
        lemma_closed_holds_reachable(g, Set::empty(), start, pool.claimed());
        assert(pool.claimed() =~= reachable(g, start));
    }
}


/// The steps that a task has left, at most: a visit is one step, a fetch is
/// one step and then one visit for every neighbor.
pub open spec fn steps_left(g: Graph, task: Task) -> nat {
    match task {
        Task::Visit(_) => 1,
        Task::Fetch(node) => g(node).len() + 1,
    }
}

/// The steps that `tasks` have left, at most.
pub open spec fn work_left(g: Graph, tasks: Seq<Task>) -> nat
    decreases tasks.len(),
{
    if tasks.len() == 0 {
        0
    } else {
        work_left(g, tasks.drop_last()) + steps_left(g, tasks.last())
    }
}

/// The nodes and links that a run has discovered with the claims `claims`.
pub open spec fn discovered_size(g: Graph, claims: Seq<Node>) -> nat
    decreases claims.len(),
{
    if claims.len() == 0 {
        0
    } else {
        discovered_size(g, claims.drop_last()) + g(claims.last()).len() + 1
    }
}

/// The work of one task.
proof fn lemma_work_of_one(g: Graph, task: Task)
    ensures
        work_left(g, seq![task]) == steps_left(g, task),
{
    let one = seq![task];
    assert(one.drop_last() =~= Seq::<Task>::empty());
    assert(work_left(g, Seq::<Task>::empty()) == 0);
    assert(one.last() == task);
}

/// The work of two lists of tasks adds up.
proof fn lemma_work_adds(g: Graph, a: Seq<Task>, b: Seq<Task>)
    ensures
        work_left(g, a + b) == work_left(g, a) + work_left(g, b),
    decreases b.len(),
{
    if b.len() == 0 {
        assert(a + b =~= a);
    } else {
        lemma_work_adds(g, a, b.drop_last());
        assert((a + b).drop_last() =~= a + b.drop_last());
        assert((a + b).last() == b.last());
    }
}

/// The work of a list of tasks is the work of its parts around one task,
/// and the work of that task.
proof fn lemma_work_splits(g: Graph, tasks: Seq<Task>, k: int)
    requires
        0 <= k < tasks.len(),
    ensures
        work_left(g, tasks) == work_left(g, tasks.remove(k)) + steps_left(g, tasks[k]),
        forall|task: Task|
            work_left(g, #[trigger] tasks.update(k, task)) == work_left(g, tasks.remove(k))
                + steps_left(g, task),
{
    let before = tasks.subrange(0, k);
    let after = tasks.subrange(k + 1, tasks.len() as int);
    assert(tasks.remove(k) == before + after);
    lemma_work_adds(g, before, after);
    assert forall|task: Task|
        work_left(g, #[trigger] tasks.update(k, task)) == work_left(g, tasks.remove(k))
            + steps_left(g, task) by {
        let one = seq![task];
        lemma_work_of_one(g, task);
        assert(tasks.update(k, task) =~= before + one + after);
        lemma_work_adds(g, before, one);
        lemma_work_adds(g, before + one, after);
    }
    assert(tasks.update(k, tasks[k]) =~= tasks);
}

/// Every visit is one step.
proof fn lemma_work_of_visits(g: Graph, urls: Seq<Node>)
    ensures
        work_left(g, visits(urls)) == urls.len(),
    decreases urls.len(),
{
    if urls.len() > 0 {
        lemma_work_of_visits(g, urls.drop_last());
        assert(visits(urls).drop_last() =~= visits(urls.drop_last()));
    }
}

/// Every step is accounted for: however the tasks interleave, the steps
/// taken and the steps left are together one step for the start and, for
/// every claimed node, one step for its fetch and one for each of its
/// links. So a run ends, after as many steps as the graph that it
/// discovers is large.
pub proof fn lemma_steps_accounted(g: Graph, start: Node, schedule: Seq<int>)
    requires
        is_interleaving(g, start, schedule),
    ensures
        schedule.len() + work_left(g, pool_after(g, start, schedule).tasks) == 1 + discovered_size(
            g,
            pool_after(g, start, schedule).claims,
        ),
    decreases schedule.len(),
{
    if schedule.len() == 0 {
        lemma_work_of_one(g, Task::Visit(start));
    } else {
        let earlier = schedule.drop_last();
        let k = schedule.last();
        lemma_steps_accounted(g, start, earlier);
        let pool = pool_after(g, start, earlier);
        let next = pool_step(g, pool, k);
        lemma_work_splits(g, pool.tasks, k);
        match pool.tasks[k] {
            Task::Visit(node) => {
                if !pool.claims.contains(node) {
                    assert(next.tasks == pool.tasks.update(k, Task::Fetch(node)));
                    assert(next.claims.drop_last() =~= pool.claims);
                    assert(next.claims.last() == node);
                }
            },
            Task::Fetch(node) => {
                lemma_work_adds(g, pool.tasks.remove(k), visits(g(node)));
                lemma_work_of_visits(g, g(node));
            },
        }
    }
}

} // verus!
