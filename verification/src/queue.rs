//! Transaction schedules: which transactions of a block may run together.
//!
//! A batch is a strictly increasing list of transaction indices that the
//! schedule has declared free of conflicts. A queue is a list of batches
//! whose concatenation is exactly `0, 1, …, n-1`: every transaction of the
//! block appears once, and batches respect the block order. The store maps
//! block numbers to pre-computed queues; a block without one falls back to
//! one singleton batch per transaction, which is fully sequential.

use vstd::prelude::*;

verus! {

/// A conflict-free group of transaction indices, in increasing order.
#[derive(Clone, Debug)]
pub struct TransactionBatch {
    /// The indices, strictly increasing.
    pub indices: Vec<u32>,
}

impl View for TransactionBatch {
    type V = Seq<u32>;

    open spec fn view(&self) -> Seq<u32> {
        self.indices@
    }
}

impl DeepView for TransactionBatch {
    type V = Seq<u32>;

    open spec fn deep_view(&self) -> Seq<u32> {
        self.indices@
    }
}

impl TransactionBatch {
    /// Non-empty and strictly increasing.
    pub open spec fn wf(&self) -> bool {
        &&& self@.len() > 0
        &&& forall|i: int, j: int| 0 <= i < j < self@.len() ==> self@[i] < self@[j]
    }

    /// How many indices the batch holds.
    pub fn len(&self) -> (r: usize)
        ensures
            r == self@.len(),
    {
        self.indices.len()
    }
}

/// An ordered list of batches for one block.
#[derive(Clone, Debug)]
pub struct BlockQueue {
    /// The batches, in execution order.
    pub batches: Vec<TransactionBatch>,
}

impl View for BlockQueue {
    type V = Seq<Seq<u32>>;

    open spec fn view(&self) -> Seq<Seq<u32>> {
        self.batches.deep_view()
    }
}

impl DeepView for BlockQueue {
    type V = Seq<Seq<u32>>;

    open spec fn deep_view(&self) -> Seq<Seq<u32>> {
        self.batches.deep_view()
    }
}

/// The concatenation of the batches, in order.
pub open spec fn flat_of(batches: Seq<Seq<u32>>) -> Seq<u32>
    decreases batches.len(),
{
    if batches.len() == 0 {
        Seq::empty()
    } else {
        flat_of(batches.drop_last()) + batches.last()
    }
}

/// The indices `0, 1, …, n-1` in order.
pub open spec fn iota(n: int) -> Seq<u32> {
    Seq::new(n as nat, |i: int| i as u32)
}

impl BlockQueue {
    /// The queue covers a body of `n` transactions: every batch is
    /// well-formed and the concatenation is exactly `0 … n-1`.
    pub open spec fn wf(&self, n: int) -> bool {
        &&& forall|i: int| 0 <= i < self@.len() ==> #[trigger] self.batches@[i].wf()
        &&& flat_of(self@) == iota(n)
    }

    /// How many batches the queue holds.
    pub fn len(&self) -> (r: usize)
        ensures
            r == self@.len(),
    {
        self.batches.len()
    }
}

/// Builds the fully sequential queue: one singleton batch per transaction.
pub fn sequential_queue(n: usize) -> (r: BlockQueue)
    requires
        n <= u32::MAX,
    ensures
        r@.len() == n,
        n > 0 ==> r.wf(n as int),
        flat_of(r@) == iota(n as int),
{
    let mut batches: Vec<TransactionBatch> = Vec::new();
    let mut i: usize = 0;
    proof {
        assert(batches.deep_view() =~= Seq::<Seq<u32>>::empty());
        assert(flat_of(batches.deep_view()) =~= iota(0));
    }
    while i < n
        invariant
            i <= n,
            n <= u32::MAX,
            batches.deep_view().len() == i,
            forall|j: int| 0 <= j < i ==> #[trigger] batches@[j].wf(),
            flat_of(batches.deep_view()) == iota(i as int),
        decreases n - i,
    {
        let mut one: Vec<u32> = Vec::new();
        one.push(i as u32);
        let batch = TransactionBatch { indices: one };
        let ghost before = batches.deep_view();
        batches.push(batch);
        proof {
            assert(batches.deep_view() =~~= before.push(seq![i as u32]));
            assert(batches.deep_view().drop_last() =~= before);
            assert(flat_of(batches.deep_view()) =~= iota(i + 1));
        }
        i += 1;
    }
    let r = BlockQueue { batches };
    proof {
        assert(r@ == r.batches.deep_view());
    }
    r
}

/// Maps block numbers to their pre-computed schedules.
#[derive(Clone, Debug)]
pub struct BlockQueueStore {
    /// One queue per scheduled block; block numbers are unique.
    pub queues: Vec<(u64, BlockQueue)>,
}

/// The queue stored for block `n`, if one is.
pub open spec fn stored_queue(queues: Seq<(u64, BlockQueue)>, n: u64) -> Option<BlockQueue>
    decreases queues.len(),
{
    if queues.len() == 0 {
        None
    } else if queues[0].0 == n {
        Some(queues[0].1)
    } else {
        stored_queue(queues.drop_first(), n)
    }
}

impl BlockQueueStore {
    /// A store over the given schedules.
    pub fn new(queues: Vec<(u64, BlockQueue)>) -> (r: Self)
        ensures
            r.queues == queues,
    {
        BlockQueueStore { queues }
    }

    /// Looks the schedule of block `n` up.
    pub fn get_queue(&self, n: u64) -> (r: Option<&BlockQueue>)
        ensures
            match r {
                Option::Some(q) => stored_queue(self.queues@, n) == Option::Some(*q),
                Option::None => stored_queue(self.queues@, n) is None,
            },
    {
        let len = self.queues.len();
        let mut i: usize = 0;
        proof {
            assert(self.queues@.skip(0) =~= self.queues@);
        }
        while i < len
            invariant
                i <= len,
                len == self.queues@.len(),
                stored_queue(self.queues@, n) == stored_queue(self.queues@.skip(i as int), n),
            decreases len - i,
        {
            proof {
                assert(self.queues@.skip(i as int)[0] == self.queues@[i as int]);
                assert(self.queues@.skip(i as int).drop_first() =~= self.queues@.skip(i + 1));
            }
            if self.queues[i].0 == n {
                return Some(&self.queues[i].1);
            }
            i += 1;
        }
        proof {
            assert(self.queues@.skip(len as int) =~= Seq::<(u64, BlockQueue)>::empty());
        }
        None
    }
}

} // verus!
