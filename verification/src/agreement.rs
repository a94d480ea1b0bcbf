//! The three engines agree: for one fetch capability and one start node,
//! each ends with the same set of claimed nodes, the reachable-node closure
//! of the start node.

use vstd::prelude::*;
use crate::coordinator::{is_schedule, lemma_complete_run_claims_reachable, run_after};
use crate::graph::{reachable, Graph, Node};
use crate::serial::serial_result;
use crate::shared::{is_interleaving, lemma_complete_pool_claims_reachable, pool_after};

verus! {

/// From an empty ledger, the serial engine claims the reachable-node
/// closure of its start node.
pub proof fn lemma_serial_claims_reachable(g: Graph, start: Node)
    ensures
        serial_result(g, Set::empty(), start) == reachable(g, start),
{
    assert(serial_result(g, Set::empty(), start) =~= reachable(g, start));
}

/// For any graph and start node, the serial engine, the shared-state engine
/// after any interleaving of its tasks that leaves no task with work, and
/// the coordinator engine after any order of reports that leaves no fetch
/// outstanding end with the same set of claimed nodes.
pub proof fn lemma_engines_agree(
    g: Graph,
    start: Node,
    interleaving: Seq<int>,
    reports: Seq<int>,
)
    requires
        is_interleaving(g, start, interleaving),
        pool_after(g, start, interleaving).tasks.len() == 0,
        is_schedule(g, start, reports),
        run_after(g, start, reports).outstanding == 0,
    ensures
        pool_after(g, start, interleaving).claimed() == serial_result(g, Set::empty(), start),
        run_after(g, start, reports).claimed() == serial_result(g, Set::empty(), start),
        pool_after(g, start, interleaving).claimed() == run_after(g, start, reports).claimed(),
{
    lemma_serial_claims_reachable(g, start);
    lemma_complete_pool_claims_reachable(g, start, interleaving);
    lemma_complete_run_claims_reachable(g, start, reports);
}

} // verus!
