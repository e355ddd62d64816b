//! The allocation pool: a bounded, growable collection of pre-sized array
//! buffers reused across decode calls.
//!
//! A buffer is free when no holder retains it; the holder marks its buffer
//! free again through an explicit release.  A decode draws two candidate
//! buffers at random: if both are free it reuses one and, when the pool
//! stands above its configured minimum, evicts the other; if exactly one is
//! free it reuses it; if neither is free it allocates a fresh buffer and
//! appends it unless the pool already stands at its configured maximum.
//! The maximum is a hard cap: the pool never exceeds it.

use vstd::prelude::*;

use crate::errors::ConstructionError;

verus! {

/// One pooled buffer and whether a holder currently retains it.
pub struct PoolEntry {
    pub data: Vec<u8>,
    pub held: bool,
}

/// A pool of equally sized buffers for one fixed-shape array codec.
pub struct AllocationPool {
    /// The byte size of every buffer in the pool.
    pub frame: usize,
    /// Buffers pre-allocated eagerly at construction; eviction never takes
    /// the pool below this count.
    pub min_size: usize,
    /// The hard cap on growth; absent means unbounded.
    pub max_size: Option<usize>,
    /// The pooled buffers.
    pub entries: Vec<PoolEntry>,
}

/// Relies on fastrand::usize: a draw from the range `0..n` lies below `n`.
/// The call panics only on an empty range, which `n > 0` rules out.
#[verifier::external_body]
fn random_index(n: usize) -> (r: usize)
    requires
        n > 0,
    ensures
        r < n,
{
    fastrand::usize(..n)
}

/// One application of the pooling policy at the drawn candidate pair
/// `(i1, i2)`: the exact three-way table that a pooled decode steps
/// the pool by, with the configuration untouched.
///
/// Both candidates free above the minimum: one candidate's storage is
/// reused for the result and the entry at the other candidate's index
/// is swap-removed — replaced by the last entry, which is dropped,
/// every other entry unchanged.  Exactly one free: that entry takes
/// the payload and is marked held, every other entry unchanged.
/// Neither free: every entry is unchanged, and a held copy of the
/// payload is appended exactly when the pool stands below its
/// maximum.
pub open spec fn pool_step(
    pre: AllocationPool,
    post: AllocationPool,
    i1: int,
    i2: int,
    payload: Seq<u8>,
) -> bool {
    let n = pre.entries@.len() as int;
    let free1 = !pre.entries@[i1].held;
    let free2 = !pre.entries@[i2].held;
    &&& post.frame == pre.frame
    &&& post.min_size == pre.min_size
    &&& post.max_size == pre.max_size
    &&& if free1 && free2 && n > pre.min_size {
        post.entries@ == pre.entries@.update(i2, pre.entries@[n - 1]).drop_last()
    } else if free1 || free2 {
        let chosen: int = if free1 {
            i1
        } else {
            i2
        };
        &&& post.entries@.len() == n
        &&& post.entries@[chosen].held
        &&& post.entries@[chosen].data@ == payload
        &&& forall|j: int| 0 <= j < n && j != chosen ==> post.entries@[j] == pre.entries@[j]
    } else {
        let grows = match pre.max_size {
            Some(m) => n < m,
            None => true,
        };
        &&& post.entries@.len() == if grows {
            n + 1
        } else {
            n
        }
        &&& forall|j: int| 0 <= j < n ==> post.entries@[j] == pre.entries@[j]
        &&& grows ==> post.entries@[n].held
        &&& grows ==> post.entries@[n].data@ == payload
    }
}

impl AllocationPool {
    /// The pool's invariant: its size stays between the configured minimum
    /// and maximum, and every buffer has the frame size.
    pub open spec fn inv(self) -> bool {
        &&& self.min_size <= self.entries@.len()
        &&& match self.max_size {
            Some(m) => self.min_size <= m && self.entries@.len() <= m,
            None => true,
        }
        &&& forall|i: int|
            0 <= i < self.entries@.len() ==> (#[trigger] self.entries@[i]).data@.len()
                == self.frame
    }

    /// Builds a pool seeded with `min_size` free buffers of `frame` bytes
    /// each.  A minimum above the maximum is a construction error.
    pub fn new(frame: usize, min_size: usize, max_size: Option<usize>) -> (r: Result<
        AllocationPool,
        ConstructionError,
    >)
        ensures
            match r {
                Ok(p) => {
                    &&& p.inv()
                    &&& p.frame == frame
                    &&& p.min_size == min_size
                    &&& p.max_size == max_size
                    &&& p.entries@.len() == min_size
                    &&& forall|i: int| 0 <= i < min_size ==> !(#[trigger] p.entries@[i]).held
                    &&& !(match max_size {
                        Some(m) => min_size > m,
                        None => false,
                    })
                },
                Err(e) => {
                    &&& e == ConstructionError::PoolBounds
                    &&& match max_size {
                        Some(m) => min_size > m,
                        None => false,
                    }
                },
            },
    {
        match max_size {
            Some(m) => if min_size > m {
                return Err(ConstructionError::PoolBounds);
            },
            None => {},
        }
        let mut entries: Vec<PoolEntry> = Vec::new();
        let mut i: usize = 0;
        while i < min_size
            invariant
                0 <= i <= min_size,
                entries@.len() == i,
                forall|j: int| 0 <= j < i ==> (#[trigger] entries@[j]).data@.len() == frame,
                forall|j: int| 0 <= j < i ==> !(#[trigger] entries@[j]).held,
            decreases min_size - i,
        {
            let data: Vec<u8> = vec![0u8; frame];
            entries.push(PoolEntry { data, held: false });
            i = i + 1;
        }
        Ok(AllocationPool { frame, min_size, max_size, entries })
    }

    /// How many buffers the pool currently tracks.
    pub fn size(&self) -> (r: usize)
        ensures
            r == self.entries@.len(),
    {
        self.entries.len()
    }

    /// Whether a holder currently retains the buffer at `idx`.
    pub fn is_held(&self, idx: usize) -> (r: bool)
        requires
            idx < self.entries@.len(),
        ensures
            r == self.entries@[idx as int].held,
    {
        self.entries[idx].held
    }

    /// Marks the buffer at `idx` free again: the holder has released it.
    pub fn release(&mut self, idx: usize)
        requires
            old(self).inv(),
            idx < old(self).entries@.len(),
        ensures
            final(self).inv(),
            final(self).frame == old(self).frame,
            final(self).min_size == old(self).min_size,
            final(self).max_size == old(self).max_size,
            final(self).entries@.len() == old(self).entries@.len(),
            !final(self).entries@[idx as int].held,
            final(self).entries@[idx as int].data == old(self).entries@[idx as int].data,
            forall|j: int|
                0 <= j < old(self).entries@.len() && j != idx ==> final(self).entries@[j] == old(
                    self,
                ).entries@[j],
    {
        let entry = &mut self.entries[idx];
        entry.held = false;
    }

    /// Reuses or evicts among the two drawn candidates and hands back a
    /// buffer holding `payload`, exactly one `pool_step` of the pooling
    /// policy at the given candidate pair.
    pub fn acquire_at(&mut self, i1: usize, i2: usize, payload: &Vec<u8>) -> (out: Vec<u8>)
        requires
            old(self).inv(),
            i1 < old(self).entries@.len(),
            i2 < old(self).entries@.len(),
            payload@.len() == old(self).frame,
        ensures
            final(self).inv(),
            out@ == payload@,
            pool_step(*old(self), *final(self), i1 as int, i2 as int, payload@),
    {
        let free1 = !self.entries[i1].held;
        let free2 = !self.entries[i2].held;
        if free1 && free2 {
            let should_evict = self.entries.len() > self.min_size;
            if should_evict {
                // Reuse one candidate's storage for the result and drop the
                // other from the pool.
                let removed = self.entries.swap_remove(i2);
                let mut out = removed.data;
                copy_payload(&mut out, payload);
                return out;
            }
            let entry = &mut self.entries[i1];
            entry.held = true;
            copy_payload(&mut entry.data, payload);
            let out = clone_bytes(&entry.data);
            return out;
        }
        if free1 || free2 {
            let chosen = if free1 { i1 } else { i2 };
            let entry = &mut self.entries[chosen];
            entry.held = true;
            copy_payload(&mut entry.data, payload);
            let out = clone_bytes(&entry.data);
            return out;
        }
        let fresh = clone_bytes(payload);
        let grows = match self.max_size {
            Some(m) => self.entries.len() < m,
            None => true,
        };
        if grows {
            let tracked_copy = clone_bytes(payload);
            self.entries.push(PoolEntry { data: tracked_copy, held: true });
        }
        fresh
    }

    /// Draws two random candidates and applies the pooling policy: on a
    /// non-empty pool, whatever the draw, the outcome is one `pool_step`
    /// at some candidate pair.  An empty pool has nothing to draw from,
    /// so the result is a fresh buffer, appended as a held entry exactly
    /// when the cap allows growth.
    pub fn acquire(&mut self, payload: &Vec<u8>) -> (out: Vec<u8>)
        requires
            old(self).inv(),
            payload@.len() == old(self).frame,
        ensures
            final(self).inv(),
            final(self).frame == old(self).frame,
            final(self).min_size == old(self).min_size,
            final(self).max_size == old(self).max_size,
            out@ == payload@,
            old(self).entries@.len() == 0 ==> ({
                let grows = match old(self).max_size {
                    Some(m) => m > 0,
                    None => true,
                };
                &&& final(self).entries@.len() == (if grows {
                    1int
                } else {
                    0int
                })
                &&& grows ==> final(self).entries@[0].held
                &&& grows ==> final(self).entries@[0].data@ == payload@
            }),
            old(self).entries@.len() > 0 ==> exists|i1: int, i2: int|
                0 <= i1 < old(self).entries@.len() && 0 <= i2 < old(self).entries@.len()
                    && pool_step(*old(self), *final(self), i1, i2, payload@),
    {
        let n = self.entries.len();
        if n == 0 {
            let fresh = clone_bytes(payload);
            let grows = match self.max_size {
                Some(m) => n < m,
                None => true,
            };
            if grows {
                let tracked_copy = clone_bytes(payload);
                self.entries.push(PoolEntry { data: tracked_copy, held: true });
            }
            return fresh;
        }
        let i1 = random_index(n);
        let i2 = random_index(n);
        let out = self.acquire_at(i1, i2, payload);
        proof {
            assert(pool_step(*old(self), *self, i1 as int, i2 as int, payload@));
        }
        out
    }
}

/// Overwrites a buffer in place with `payload`, byte for byte.
fn copy_payload(dst: &mut Vec<u8>, payload: &Vec<u8>)
    requires
        old(dst)@.len() == payload@.len(),
    ensures
        final(dst)@ == payload@,
{
    let n = payload.len();
    let mut i: usize = 0;
    while i < n
        invariant
            0 <= i <= n,
            n == payload@.len(),
            dst@.len() == n,
            forall|j: int| 0 <= j < i ==> dst@[j] == payload@[j],
        decreases n - i,
    {
        dst[i] = payload[i];
        i = i + 1;
    }
    assert(dst@ =~= payload@);
}

/// Copies a byte buffer.
fn clone_bytes(src: &Vec<u8>) -> (out: Vec<u8>)
    ensures
        out@ == src@,
{
    let mut out: Vec<u8> = Vec::new();
    let n = src.len();
    let mut i: usize = 0;
    while i < n
        invariant
            0 <= i <= n,
            n == src@.len(),
            out@ == src@.subrange(0, i as int),
        decreases n - i,
    {
        out.push(src[i]);
        assert(out@ =~= src@.subrange(0, i + 1));
        i = i + 1;
    }
    assert(out@ =~= src@);
    out
}

} // verus!

