//! The visited ledger: the set of claimed nodes, with the one operation that
//! breaks cycles and removes duplicate work.

use vstd::prelude::*;
use vstd::hash_set::StringHashSet;
use crate::graph::Node;

verus! {

/// The nodes claimed so far, in its exclusively owned form. A node is
/// claimed at most once and stays claimed. The ledger also keeps the nodes
/// in the order in which they were claimed.
pub struct Ledger {
    claimed: StringHashSet,
    order: Vec<String>,
}

impl View for Ledger {
    type V = Set<Node>;

    /// The set of claimed nodes.
    open spec fn view(&self) -> Set<Node> {
        self.claims().to_set()
    }
}

impl Ledger {
    #[verifier::type_invariant]
    spec fn inv(self) -> bool {
        &&& self.order.deep_view().no_duplicates()
        &&& self.order.deep_view().to_set() == self.claimed@
    }

    /// The claimed nodes in the order of their claims.
    pub closed spec fn claims(&self) -> Seq<Node> {
        self.order.deep_view()
    }

    /// A ledger in which nothing is claimed.
    pub fn new() -> (ledger: Ledger)
        ensures
            ledger@ == Set::<Node>::empty(),
            ledger.claims() == Seq::<Node>::empty(),
    {
        let claimed = StringHashSet::new();
        let order: Vec<String> = Vec::new();
        proof {
            assert(order.deep_view() =~= Seq::<Node>::empty());
            assert(order.deep_view().to_set() =~= Set::<Node>::empty());
        }
        Ledger { claimed, order }
    }

    /// Claims `url`: tests whether it is claimed and, if it is not, records
    /// it. Returns whether this call claimed it.
    pub fn claim(&mut self, url: &str) -> (newly: bool)
        ensures
            newly == !old(self)@.contains(url@),
            final(self)@ == old(self)@.insert(url@),
            final(self).claims() == if newly {
                old(self).claims().push(url@)
            } else {
                old(self).claims()
            },
            final(self).claims().len() <= usize::MAX,
    {
        proof {
            use_type_invariant(&*self);
        }
        if self.claimed.contains(url) {
            assert(self.claimed@.insert(url@) =~= self.claimed@);
            assert(self.order.deep_view().len() == self.order.len());
            return false;
        }
        let mut taken = Ledger::new();
        std::mem::swap(self, &mut taken);
        let Ledger { claimed: mut claimed, order: mut order } = taken;
        let ghost before = order.deep_view();
        claimed.insert(url.to_owned());
        order.push(url.to_owned());
        proof {
            assert(order.deep_view() =~= before.push(url@));
            before.lemma_push_to_set_commute(url@);
            assert(!before.to_set().contains(url@));
            assert(order.deep_view().len() == order.len());
        }
        *self = Ledger { claimed, order };
        true
    }

    /// Whether `url` is claimed.
    pub fn contains(&self, url: &str) -> (claimed: bool)
        ensures
            claimed == self@.contains(url@),
    {
        proof {
            use_type_invariant(self);
        }
        self.claimed.contains(url)
    }

    /// The number of claimed nodes.
    pub fn len(&self) -> (n: usize)
        ensures
            n == self@.len(),
            n == self.claims().len(),
            self@.finite(),
    {
        proof {
            use_type_invariant(self);
            self.claims().unique_seq_to_set();
        }
        self.order.len()
    }

    /// Whether nothing is claimed.
    pub fn is_empty(&self) -> (empty: bool)
        ensures
            empty == (self@ == Set::<Node>::empty()),
    {
        proof {
            use_type_invariant(self);
            if self.claims().len() > 0 {
                assert(self.claims().to_set().contains(self.claims()[0]));
            } else {
                assert(self@ =~= Set::<Node>::empty());
            }
        }
        self.order.len() == 0
    }

    /// The claimed nodes, each once, in the order of their claims.
    pub fn nodes(&self) -> (nodes: &Vec<String>)
        ensures
            nodes.deep_view() == self.claims(),
            self.claims().no_duplicates(),
    {
        proof {
            use_type_invariant(self);
        }
        &self.order
    }
}

/// The claimed nodes after the claims of `urls`, one after the other, in a
/// ledger that held `before`.
pub open spec fn claimed_after(before: Set<Node>, urls: Seq<Node>) -> Set<Node> {
    before.union(urls.to_set())
}

/// What the claim at position `at` of a run of claims reports: whether its
/// node was unclaimed until then.
pub open spec fn reports_new(before: Set<Node>, urls: Seq<Node>, at: int) -> bool {
    !claimed_after(before, urls.take(at)).contains(urls[at])
}

/// Across a run of claims, however often a node is claimed, exactly one
/// claim reports it as newly claimed, the first, if the node was unclaimed
/// before the run; and none, if it was claimed before.
pub proof fn lemma_claimed_once(before: Set<Node>, urls: Seq<Node>, node: Node)
    requires
        urls.contains(node),
    ensures
        before.contains(node) ==> forall|at: int|
            0 <= at < urls.len() && urls[at] == node ==> !reports_new(before, urls, at),
        !before.contains(node) ==> exists|first: int|
            {
                &&& 0 <= first < urls.len()
                &&& urls[first] == node
                &&& #[trigger] reports_new(before, urls, first)
                &&& forall|at: int|
                    0 <= at < urls.len() && urls[at] == node && reports_new(before, urls, at)
                        ==> at == first
            },
{
    if !before.contains(node) {
        urls.index_of_first_ensures(node);
        let first = urls.index_of_first(node).unwrap();
        assert(reports_new(before, urls, first)) by {
            let earlier = urls.take(first);
            if earlier.contains(node) {
                let j = choose|j: int| 0 <= j < earlier.len() && earlier[j] == node;
                assert(urls[j] == node);
            }
        }
        assert forall|at: int|
            0 <= at < urls.len() && urls[at] == node && reports_new(
                before,
                urls,
                at,
            ) implies at == first by {
            if at > first {
                assert(urls.take(at)[first] == node);
                assert(urls.take(at).contains(node));
            }
        }
    }
}

} // verus!
