//! Transmit queue with strict priority and FIFO order within a priority
//! class; e-stop frames preempt everything.

use vstd::prelude::*;
use crate::frame::{Frame, FrameValue};

verus! {

/// Transmit priority classes, highest first.
#[derive(Debug, Clone, Copy, PartialEq, Eq, Structural, PartialOrd, Ord)]
pub enum Priority {
    /// E-stop / critical: preempts the queue.
    EStop,
    /// Control / caution.
    Control,
    /// Normal data / routine.
    Data,
    /// Background (telemetry, position).
    Background,
}

/// Rank of a priority class: lower is sent first.
pub open spec fn rank(p: Priority) -> nat {
    match p {
        Priority::EStop => 0,
        Priority::Control => 1,
        Priority::Data => 2,
        Priority::Background => 3,
    }
}

fn rank_of(p: Priority) -> (r: u8)
    ensures
        r == rank(p),
{
    match p {
        Priority::EStop => 0,
        Priority::Control => 1,
        Priority::Data => 2,
        Priority::Background => 3,
    }
}

/// A queued frame with its class and arrival number.
#[derive(Debug)]
struct Item {
    prio: Priority,
    seq: u64,
    frame: Frame,
}

/// Strict-priority FIFO transmit queue.
#[derive(Debug)]
pub struct TxQueue {
    items: Vec<Item>,
    seq: u64,
}

/// Mathematical state of a [`TxQueue`].
pub struct QueueState {
    /// Queued frames in arrival order, with their class and arrival number.
    pub items: Seq<(Priority, u64, FrameValue)>,
    /// Arrival number the next pushed frame gets.
    pub next_seq: u64,
}

/// Whether queued entry `a` leaves before entry `b`: higher class, or the
/// same class and earlier arrival.
pub open spec fn goes_before(a: (Priority, u64, FrameValue), b: (Priority, u64, FrameValue)) -> bool {
    rank(a.0) < rank(b.0) || (rank(a.0) == rank(b.0) && a.1 < b.1)
}

/// Index of the entry the queue sends next: the first entry that no entry
/// goes before.
pub open spec fn next_index(items: Seq<(Priority, u64, FrameValue)>) -> int
    decreases items.len(),
{
    if items.len() <= 1 {
        0
    } else {
        let k = next_index(items.drop_last());
        if goes_before(items.last(), items[k]) {
            items.len() - 1
        } else {
            k
        }
    }
}

/// Arrival numbers increase along the queue and stay below the next one.
pub open spec fn arrival_ordered(q: QueueState) -> bool {
    &&& forall|i: int, j: int| 0 <= i < j < q.items.len() ==> q.items[i].1 < q.items[j].1
    &&& forall|i: int| 0 <= i < q.items.len() ==> #[trigger] q.items[i].1 < q.next_seq
}

spec fn item_view(it: Item) -> (Priority, u64, FrameValue) {
    (it.prio, it.seq, it.frame@)
}

impl View for TxQueue {
    type V = QueueState;

    closed spec fn view(&self) -> QueueState {
        QueueState { items: self.items@.map_values(|it: Item| item_view(it)), next_seq: self.seq }
    }
}

proof fn lemma_next_index(items: Seq<(Priority, u64, FrameValue)>)
    requires
        items.len() > 0,
    ensures
        0 <= next_index(items) < items.len(),
        forall|j: int| 0 <= j < items.len() ==> !goes_before(#[trigger] items[j], items[next_index(items)]),
        forall|j: int| 0 <= j < next_index(items) ==> goes_before(items[next_index(items)], #[trigger] items[j]),
    decreases items.len(),
{
    if items.len() > 1 {
        let d = items.drop_last();
        lemma_next_index(d);
        let k0 = next_index(d);
        let k = next_index(items);
        assert(d[k0] == items[k0]);
        assert forall|j: int| 0 <= j < items.len() implies !goes_before(#[trigger] items[j], items[k]) by {
            if j < items.len() - 1 {
                assert(d[j] == items[j]);
                assert(!goes_before(d[j], d[k0]));
            }
        }
        assert forall|j: int| 0 <= j < k implies goes_before(items[k], #[trigger] items[j]) by {
            assert(d[j] == items[j]);
            assert(!goes_before(d[j], d[k0]));
            if k == k0 {
                assert(goes_before(d[k0], d[j]));
            }
        }
    }
}

impl TxQueue {
    /// Arrival numbers increase along the queue and stay below the next one.
    pub closed spec fn wf(&self) -> bool {
        arrival_ordered(self@)
    }

    /// An empty queue.
    pub fn new() -> (q: TxQueue)
        ensures
            q.wf(),
            q@.items == Seq::<(Priority, u64, FrameValue)>::empty(),
            q@.next_seq == 0,
    {
        let q = TxQueue { items: Vec::new(), seq: 0 };
        assert(q@.items =~= Seq::<(Priority, u64, FrameValue)>::empty());
        q
    }

    /// Number of queued frames.
    pub fn len(&self) -> (n: usize)
        ensures
            n == self@.items.len(),
    {
        self.items.len()
    }

    /// Whether no frame is queued.
    pub fn is_empty(&self) -> (b: bool)
        ensures
            b == (self@.items.len() == 0),
    {
        self.items.len() == 0
    }

    /// The arrival number the next pushed frame gets.
    pub fn next_seq(&self) -> (n: u64)
        ensures
            n == self@.next_seq,
    {
        self.seq
    }

    /// Enqueues a frame at the given priority.
    pub fn push(&mut self, prio: Priority, frame: Frame)
        requires
            old(self).wf(),
            old(self)@.next_seq < u64::MAX,
        ensures
            final(self).wf(),
            final(self)@.items == old(self)@.items.push((prio, old(self)@.next_seq, frame@)),
            final(self)@.next_seq == old(self)@.next_seq + 1,
    {
        let ghost before = self@.items;
        let s = self.seq;
        self.items.push(Item { prio, seq: s, frame });
        self.seq = s + 1;
        assert(self@.items =~= before.push((prio, s, frame@)));
    }

    /// Pops the next frame to transmit: highest priority first, then arrival order.
    pub fn pop(&mut self) -> (res: Option<Frame>)
        requires
            old(self).wf(),
        ensures
            final(self).wf(),
            final(self)@.next_seq == old(self)@.next_seq,
            old(self)@.items.len() == 0 ==> res is None && final(self)@.items == old(self)@.items,
            old(self)@.items.len() > 0 ==> {
                let k = next_index(old(self)@.items);
                &&& res matches Some(f) && f@ == old(self)@.items[k].2
                &&& final(self)@.items == old(self)@.items.remove(k)
                &&& forall|j: int| 0 <= j < old(self)@.items.len() && j != k
                    ==> goes_before(old(self)@.items[k], #[trigger] old(self)@.items[j])
            },
    {
        let ghost items = self@.items;
        if self.items.len() == 0 {
            return None;
        }
        let mut best: usize = 0;
        let mut i: usize = 1;
        while i < self.items.len()
            invariant
                items == self@.items,
                items.len() == self.items@.len(),
                1 <= i <= items.len(),
                best < i,
                best == next_index(items.take(i as int)),
            decreases items.len() - i,
        {
            let a_rank = rank_of(self.items[i].prio);
            let b_rank = rank_of(self.items[best].prio);
            proof {
                let t = items.take(i + 1);
                assert(t.drop_last() =~= items.take(i as int));
                lemma_next_index(items.take(i as int));
                assert(t[best as int] == items[best as int]);
                assert(items[i as int] == item_view(self.items@[i as int]));
                assert(items[best as int] == item_view(self.items@[best as int]));
            }
            if a_rank < b_rank || (a_rank == b_rank && self.items[i].seq < self.items[best].seq) {
                best = i;
            }
            i += 1;
        }
        proof {
            assert(items.take(i as int) =~= items);
            lemma_next_index(items);
            assert forall|j: int| 0 <= j < items.len() && j != best implies goes_before(items[best as int], #[trigger] items[j]) by {
                if j > best {
                    assert(items[best as int].1 < items[j].1);
                }
            }
        }
        let item = self.items.remove(best);
        proof {
            assert(self@.items =~= items.remove(best as int));
        }
        Some(item.frame)
    }
}

impl Default for TxQueue {
    fn default() -> (q: TxQueue)
        ensures
            q.wf(),
            q@.items == Seq::<(Priority, u64, FrameValue)>::empty(),
            q@.next_seq == 0,
    {
        TxQueue::new()
    }
}

/// The entry a well-formed queue sends next goes before every other entry:
/// an e-stop preempts every other class, and within one class the earliest
/// arrival leaves first.
pub proof fn law_next_goes_first(q: QueueState)
    requires
        arrival_ordered(q),
        q.items.len() > 0,
    ensures
        0 <= next_index(q.items) < q.items.len(),
        forall|j: int| 0 <= j < q.items.len() && j != next_index(q.items)
            ==> goes_before(q.items[next_index(q.items)], #[trigger] q.items[j]),
        (exists|j: int| 0 <= j < q.items.len() && #[trigger] q.items[j].0 == Priority::EStop)
            ==> q.items[next_index(q.items)].0 == Priority::EStop,
{
    let items = q.items;
    let k = next_index(items);
    lemma_next_index(items);
    assert forall|j: int| 0 <= j < items.len() && j != k implies goes_before(items[k], #[trigger] items[j]) by {
        if j > k {
            assert(items[k].1 < items[j].1);
        }
    }
    if exists|j: int| 0 <= j < items.len() && #[trigger] items[j].0 == Priority::EStop {
        let j = choose|j: int| 0 <= j < items.len() && #[trigger] items[j].0 == Priority::EStop;
        if j != k {
            assert(goes_before(items[k], items[j]));
        }
    }
}

/// Classes leave in the order e-stop, control, data, background: while an
/// entry of a higher class is queued, no entry of a lower class is sent next.
pub proof fn law_class_order(q: QueueState, j: int, k: int)
    requires
        arrival_ordered(q),
        0 <= j < q.items.len(),
        0 <= k < q.items.len(),
        (q.items[j].0 == Priority::EStop && q.items[k].0 != Priority::EStop)
            || (q.items[j].0 == Priority::Control && (q.items[k].0 == Priority::Data || q.items[k].0 == Priority::Background))
            || (q.items[j].0 == Priority::Data && q.items[k].0 == Priority::Background),
    ensures
        next_index(q.items) != k,
{
    lemma_next_index(q.items);
    if next_index(q.items) == k {
        assert(!goes_before(q.items[j], q.items[k]));
    }
}

} // verus!
