//! The bounded pool of reusable device buffers: a fixed number of
//! fixed-capacity buffers, each either free or in flight. Acquiring removes
//! a buffer from the free set and hands its id to the producer; releasing
//! returns it once the chunk it carried has been fully consumed. Exactly
//! `k` buffers ever exist, which caps memory use however large the input
//! stream grows, and makes the free list the backpressure that keeps the
//! producer at most `k` chunks ahead of the consumer.

use vstd::prelude::*;
use vstd::slice::slice_to_vec;

verus! {

/// The pool. The two threads of a run share it with single-writer
/// discipline: a buffer id is either in the free list, held by the
/// producer, or travelling through the consumer, never two of these at
/// once.
pub struct BufferPool {
    /// The `k` buffers, indexed by buffer id.
    pub buffers: Vec<Vec<u8>>,
    /// Capacity in bytes of each buffer.
    pub cap: usize,
    /// Ids of the buffers that are currently free.
    pub free: Vec<usize>,
}

impl BufferPool {
    /// How many buffers exist, free or in flight.
    pub open spec fn num_buffers(self) -> int {
        self.buffers@.len() as int
    }

    /// Capacity in bytes of every buffer.
    pub open spec fn buffer_capacity(self) -> int {
        self.cap as int
    }

    /// How many buffers are currently free.
    pub open spec fn num_free(self) -> int {
        self.free@.len() as int
    }

    /// How many buffers are currently in flight.
    pub open spec fn num_outstanding(self) -> int {
        self.num_buffers() - self.num_free()
    }

    /// Whether an acquire could succeed right now.
    pub open spec fn can_acquire(self) -> bool {
        self.num_free() > 0
    }

    /// Whether buffer `id` is in the free set.
    pub open spec fn is_free(self, id: int) -> bool {
        exists|a: int| 0 <= a < self.free@.len() && self.free@[a] == id
    }

    /// Bytes currently held by buffer `id`.
    pub open spec fn buffer(self, id: int) -> Seq<u8> {
        self.buffers@[id]@
    }

    /// The free list holds valid, pairwise distinct buffer ids, and no
    /// buffer outgrows the pool's capacity.
    pub open spec fn wf(self) -> bool {
        &&& forall|a: int, b: int|
            0 <= a < b < self.free@.len() ==> #[trigger] self.free@[a] != #[trigger] self.free@[b]
        &&& forall|a: int| 0 <= a < self.free@.len() ==> #[trigger] self.free@[a] < self.buffers@.len()
        &&& forall|i: int|
            0 <= i < self.buffers@.len() ==> #[trigger] self.buffers@[i]@.len() <= self.cap
    }

    /// Creates a pool of `k` empty buffers of the given capacity, all free.
    pub fn new(k: usize, capacity: usize) -> (pool: BufferPool)
        ensures
            pool.wf(),
            pool.num_buffers() == k,
            pool.num_free() == k,
            pool.buffer_capacity() == capacity,
    {
        let mut buffers: Vec<Vec<u8>> = Vec::new();
        let mut free: Vec<usize> = Vec::new();
        let mut i: usize = 0;
        while i < k
            invariant
                i <= k,
                buffers@.len() == i,
                free@.len() == i,
                forall|a: int| 0 <= a < i ==> #[trigger] free@[a] == a,
                forall|j: int| 0 <= j < i ==> #[trigger] buffers@[j]@.len() == 0,
            decreases k - i,
        {
            buffers.push(Vec::new());
            free.push(i);
            i = i + 1;
        }
        BufferPool { buffers, cap: capacity, free }
    }

    /// Takes a free buffer out of the free set and returns its id; `None`
    /// when every buffer is in flight (the caller then has to wait for a
    /// release: this is the producer's backpressure).
    pub fn acquire(&mut self) -> (r: Option<usize>)
        requires
            old(self).wf(),
        ensures
            final(self).wf(),
            final(self).buffers@ == old(self).buffers@,
            final(self).buffer_capacity() == old(self).buffer_capacity(),
            match r {
                Some(id) => {
                    &&& old(self).can_acquire()
                    &&& id < final(self).num_buffers()
                    &&& old(self).is_free(id as int)
                    &&& id == old(self).free@.last()
                    &&& final(self).free@ == old(self).free@.drop_last()
                    &&& !final(self).is_free(id as int)
                },
                None => {
                    &&& !old(self).can_acquire()
                    &&& final(self).free@ == old(self).free@
                },
            },
    {
        if self.free.len() == 0 {
            None
        } else {
            let id = self.free.pop().unwrap();
            proof {
                assert(old(self).free@[old(self).free@.len() - 1] == id);
            }
            Some(id)
        }
    }

    /// Marks buffer `id` free again. Must only be called once all work that
    /// referenced the buffer has been submitted and its data consumed.
    pub fn release(&mut self, id: usize)
        requires
            old(self).wf(),
            id < old(self).num_buffers(),
            !old(self).is_free(id as int),
        ensures
            final(self).wf(),
            final(self).buffers@ == old(self).buffers@,
            final(self).buffer_capacity() == old(self).buffer_capacity(),
            final(self).free@ == old(self).free@.push(id),
            final(self).is_free(id as int),
    {
        self.free.push(id);
        proof {
            assert(self.free@[self.free@.len() - 1] == id);
        }
    }

    /// Copies a chunk into buffer `id`, modelling the producer's mapped
    /// host-to-device write.
    pub fn fill(&mut self, id: usize, data: &[u8])
        requires
            old(self).wf(),
            id < old(self).num_buffers(),
            data@.len() <= old(self).buffer_capacity(),
        ensures
            final(self).wf(),
            final(self).num_buffers() == old(self).num_buffers(),
            final(self).buffer_capacity() == old(self).buffer_capacity(),
            final(self).free@ == old(self).free@,
            final(self).buffer(id as int) == data@,
            forall|j: int|
                0 <= j < final(self).num_buffers() && j != id ==> final(self).buffer(j) == old(
                    self,
                ).buffer(j),
    {
        let copied: Vec<u8> = slice_to_vec(data);
        self.buffers.set(id, copied);
    }

    /// Borrows the bytes of buffer `id`, modelling what a bound compute
    /// stage reads from it.
    pub fn buffer_bytes(&self, id: usize) -> (b: &Vec<u8>)
        requires
            id < self.num_buffers(),
        ensures
            b@ == self.buffer(id as int),
    {
        &self.buffers[id]
    }
}

/// Pool exhaustion, the single-buffer case: while one buffer is
/// outstanding, no acquire can succeed, so a producer driving a pool of one
/// buffer can never hold two chunks at once — it waits until the consumer
/// releases the previous one.
pub proof fn lemma_single_buffer_exclusive(pool: BufferPool)
    requires
        pool.wf(),
        pool.num_buffers() == 1,
        pool.num_outstanding() >= 1,
    ensures
        !pool.can_acquire(),
{
}

} // verus!
