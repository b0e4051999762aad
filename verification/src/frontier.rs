//! The frontier of a search: every snapshot that the search took of a cell,
//! and a queue of those that it has not taken up yet.

use vstd::prelude::*;
use priority_queue::PriorityQueue;
use std::hash::Hash;
use crate::node::Node;
use crate::priority::F;

verus! {

/// `priority_queue::PriorityQueue`: a queue of items, each with a priority,
/// that hands out an item of the greatest priority first. Nothing is known of
/// what is inside it but through `queue_contents`.
#[verifier::external_type_specification]
#[verifier::external_body]
#[verifier::reject_recursive_types(I)]
#[verifier::reject_recursive_types(P)]
#[verifier::reject_recursive_types(H)]
pub struct ExPriorityQueue<I: Hash + Eq, P: Ord, H>(PriorityQueue<I, P, H>);

/// What a `PriorityQueue` holds: each item in it, with its priority.
pub uninterp spec fn queue_contents(q: PriorityQueue<usize, u64>) -> Map<usize, u64>;

/// `PriorityQueue::new`: a queue that holds nothing.
#[verifier::external_body]
fn queue_new() -> (queue: PriorityQueue<usize, u64>)
    ensures
        forall|k: usize| !queue_contents(queue).contains_key(k),
{
    PriorityQueue::new()
}

/// `PriorityQueue::push`: the item stands in the queue with the priority
/// given, whether it stood there before or not; what else the queue holds
/// stays. The result is the priority that the item had before, if it had one.
#[verifier::external_body]
fn queue_push(queue: &mut PriorityQueue<usize, u64>, item: usize, priority: u64) -> (before: Option<u64>)
    ensures
        queue_contents(*final(queue)) == queue_contents(*old(queue)).insert(item, priority),
        before is Some <==> queue_contents(*old(queue)).contains_key(item),
        before is Some ==> before->0 == queue_contents(*old(queue))[item],
{
    queue.push(item, priority)
}

/// `PriorityQueue::pop`: from a queue that holds nothing comes `None`, and the
/// queue stays as it is. From any other comes an item of the queue with its
/// priority, and no item of the queue has a greater priority; that item leaves
/// the queue, the others stay.
#[verifier::external_body]
fn queue_pop(queue: &mut PriorityQueue<usize, u64>) -> (top: Option<(usize, u64)>)
    ensures
        top is None <==> (forall|k: usize| !queue_contents(*old(queue)).contains_key(k)),
        top is None ==> queue_contents(*final(queue)) == queue_contents(*old(queue)),
        top matches Some(pair) ==> queue_contents(*old(queue)).contains_key(pair.0),
        top matches Some(pair) ==> queue_contents(*old(queue))[pair.0] == pair.1,
        top matches Some(pair) ==> (forall|k: usize| queue_contents(*old(queue)).contains_key(k)
            ==> queue_contents(*old(queue))[k] <= pair.1),
        top matches Some(pair) ==> queue_contents(*final(queue)) == queue_contents(
            *old(queue),
        ).remove(pair.0),
{
    queue.pop()
}

/// The snapshots of a search, numbered in the order in which they were taken,
/// and the queue of the numbers of those still to be taken up.
pub struct Frontier {
    pub queue: PriorityQueue<usize, u64>,
    pub records: Vec<Node>,
}

impl Frontier {
    /// The numbers of the snapshots still to be taken up, each with its key.
    pub open spec fn pending(&self) -> Map<usize, u64> {
        queue_contents(self.queue)
    }

    /// Snapshot number `k` is still to be taken up.
    pub open spec fn waits(&self, k: int) -> bool {
        0 <= k < self.records.len() && self.pending().contains_key(k as usize)
    }

    /// Every number in the queue is that of a snapshot, and stands there under
    /// the key of that snapshot's total cost.
    pub open spec fn wf(&self) -> bool {
        &&& self.pending().dom().finite()
        &&& forall|k: usize| #[trigger]
            self.pending().contains_key(k) ==> k < self.records.len() && self.pending()[k] == (F {
                f: self.records[k as int].f,
            }).key_spec()
    }

    /// A frontier without snapshots.
    pub fn new() -> (frontier: Frontier)
        ensures
            frontier.wf(),
            frontier.records@.len() == 0,
            frontier.pending() == Map::<usize, u64>::empty(),
    {
        let frontier = Frontier { queue: queue_new(), records: Vec::new() };
        assert(frontier.pending() =~= Map::<usize, u64>::empty());
        frontier
    }

    /// Takes a snapshot into the frontier and queues it under its total cost.
    /// The result is the number of the snapshot.
    pub fn push(&mut self, node: Node) -> (k: usize)
        requires
            old(self).wf(),
        ensures
            final(self).wf(),
            k == old(self).records@.len(),
            final(self).records@ == old(self).records@.push(node),
            final(self).pending() == old(self).pending().insert(
                k,
                (F { f: node.f }).key_spec() as u64,
            ),
            !old(self).pending().contains_key(k),
    {
        let k = self.records.len();
        let key = (F { f: node.f }).key();
        self.records.push(node);
        let _ = queue_push(&mut self.queue, k, key);
        k
    }

    /// Takes the snapshot with the lowest total cost out of the queue: its
    /// number and the snapshot, or `None` when the queue is empty.
    pub fn pop(&mut self) -> (top: Option<(usize, Node)>)
        requires
            old(self).wf(),
        ensures
            final(self).wf(),
            final(self).records@ == old(self).records@,
            top is None <==> old(self).pending() == Map::<usize, u64>::empty(),
            top is None ==> final(self).pending() == old(self).pending(),
            top matches Some((k, node)) ==> {
                &&& old(self).waits(k as int)
                &&& node == old(self).records@[k as int]
                &&& final(self).pending() == old(self).pending().remove(k)
                &&& forall|j: int| #[trigger]
                    old(self).waits(j) ==> node.f <= old(self).records@[j].f
            },
    {
        let ghost before = self.pending();
        match queue_pop(&mut self.queue) {
            None => {
                assert(before =~= Map::<usize, u64>::empty());
                None
            },
            Some((k, _key)) => {
                assert(before.contains_key(k));
                let node = self.records[k];
                assert forall|j: int| #[trigger] old(self).waits(j) implies node.f <= old(self).records@[j].f by {
                    assert(before.contains_key(j as usize));
                }
                Some((k, node))
            },
        }
    }
}

} // verus!
