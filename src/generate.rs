//! Planning the writes of a file of a given size: how many chunks, how long
//! each is, and what bytes fill them.
use vstd::prelude::*;

verus! {

/// Bytes per chunk for zero content.
pub const CHUNK_SIZE: u64 = 4096;

/// Bytes per chunk for random content where filling large chunks pays off.
pub const RAND_CHUNK_SIZE: u64 = CHUNK_SIZE * 256;

/// Relies on `rand::random`: any value of the type may come back.
pub assume_specification<T>[ rand::random::<T> ]() -> (r: T)
    where
        rand::distributions::Standard: rand::distributions::Distribution<T>,
;

/// The chunk size for a content mode. Random content uses the larger chunk
/// only where `wide_random` asks for it.
pub fn chunk_size(random: bool, wide_random: bool) -> (r: u64)
    ensures
        r == if random && wide_random {
            RAND_CHUNK_SIZE
        } else {
            CHUNK_SIZE
        },
        r > 0,
{
    if random && wide_random {
        RAND_CHUNK_SIZE
    } else {
        CHUNK_SIZE
    }
}

/// `len` bytes, all zero.
pub fn zero_bytes(len: u64) -> (r: Vec<u8>)
    requires
        len <= usize::MAX,
    ensures
        r@.len() == len,
        forall|i: int| 0 <= i < r@.len() ==> r@[i] == 0,
{
    let mut r: Vec<u8> = Vec::with_capacity(len as usize);
    let mut i: u64 = 0;
    while i < len
        invariant
            i <= len,
            r@.len() == i,
            forall|k: int| 0 <= k < r@.len() ==> r@[k] == 0,
        decreases len - i,
    {
        r.push(0);
        i = i + 1;
    }
    r
}

/// `len` bytes, each drawn on its own from the uniform distribution.
pub fn rand_bytes(len: u64) -> (r: Vec<u8>)
    requires
        len <= usize::MAX,
    ensures
        r@.len() == len,
{
    let mut r: Vec<u8> = Vec::with_capacity(len as usize);
    let mut i: u64 = 0;
    while i < len
        invariant
            i <= len,
            r@.len() == i,
        decreases len - i,
    {
        r.push(rand::random::<u8>());
        i = i + 1;
    }
    r
}

/// `len` bytes of the content that `random` selects.
pub fn fill_chunk(len: u64, random: bool) -> (r: Vec<u8>)
    requires
        len <= usize::MAX,
    ensures
        r@.len() == len,
        !random ==> forall|i: int| 0 <= i < r@.len() ==> r@[i] == 0,
{
    if random {
        rand_bytes(len)
    } else {
        zero_bytes(len)
    }
}

/// How a byte count splits into chunks: `full_chunks` chunks of `chunk_size`
/// bytes, then `remainder` bytes.
#[derive(Debug, Clone, Copy, PartialEq, Eq, Structural)]
pub struct ChunkPlan {
    pub total_bytes: u64,
    pub chunk_size: u64,
    pub full_chunks: u64,
    pub remainder: u64,
}

impl ChunkPlan {
    /// The chunk size is positive and the counts are those of `total_bytes`.
    pub open spec fn wf(&self) -> bool {
        &&& self.chunk_size > 0
        &&& self.full_chunks == self.total_bytes / self.chunk_size
        &&& self.remainder == self.total_bytes % self.chunk_size
    }

    /// The number of chunks: the full ones, and one more for a remainder.
    pub open spec fn spec_chunk_count(&self) -> nat {
        if self.remainder > 0 {
            self.full_chunks as nat + 1
        } else {
            self.full_chunks as nat
        }
    }

    /// The length of chunk `i`.
    pub open spec fn spec_chunk_len(&self, i: nat) -> nat {
        if i < self.full_chunks {
            self.chunk_size as nat
        } else {
            self.remainder as nat
        }
    }

    /// The plan for writing `total_bytes` in chunks of `chunk_size`.
    pub fn new(total_bytes: u64, chunk_size: u64) -> (r: ChunkPlan)
        requires
            chunk_size > 0,
        ensures
            r.wf(),
            r.total_bytes == total_bytes,
            r.chunk_size == chunk_size,
    {
        ChunkPlan {
            total_bytes,
            chunk_size,
            full_chunks: total_bytes / chunk_size,
            remainder: total_bytes % chunk_size,
        }
    }

    /// The number of chunks, which is also the number of progress steps.
    pub fn chunk_count(&self) -> (r: u64)
        requires
            self.wf(),
        ensures
            r == self.spec_chunk_count(),
    {
        proof {
            vstd::arithmetic::div_mod::lemma_div_pos_is_pos(
                self.total_bytes as int,
                self.chunk_size as int,
            );
            vstd::arithmetic::div_mod::lemma_div_is_ordered_by_denominator(
                self.total_bytes as int,
                1,
                self.chunk_size as int,
            );
        }
        if self.remainder > 0 {
            assert(self.full_chunks < self.total_bytes) by {
                vstd::arithmetic::div_mod::lemma_fundamental_div_mod(
                    self.total_bytes as int,
                    self.chunk_size as int,
                );
                assert(self.chunk_size * self.full_chunks >= self.full_chunks) by (nonlinear_arith)
                    requires
                        self.chunk_size >= 1,
                ;
            }
            self.full_chunks + 1
        } else {
            self.full_chunks
        }
    }

    /// The length of chunk `i`.
    pub fn chunk_len(&self, i: u64) -> (r: u64)
        requires
            self.wf(),
            i < self.spec_chunk_count(),
        ensures
            r == self.spec_chunk_len(i as nat),
    {
        if i < self.full_chunks {
            self.chunk_size
        } else {
            self.remainder
        }
    }
}

/// The buffers of one file, handed out one chunk at a time in order.
#[derive(Debug)]
pub struct Generator {
    pub plan: ChunkPlan,
    pub random: bool,
    /// The index of the next chunk to hand out.
    pub next: u64,
}

impl Generator {
    /// The plan is sound and no more chunks than it has were handed out.
    pub open spec fn wf(&self) -> bool {
        &&& self.plan.wf()
        &&& self.plan.chunk_size <= usize::MAX
        &&& self.next <= self.plan.spec_chunk_count()
    }

    /// A generator for `total_bytes` bytes in chunks of `chunk_size`, zero
    /// or random as `random` says, that has handed out nothing yet.
    pub fn new(total_bytes: u64, chunk_size: u64, random: bool) -> (r: Generator)
        requires
            0 < chunk_size <= usize::MAX,
        ensures
            r.wf(),
            r.plan.total_bytes == total_bytes,
            r.plan.chunk_size == chunk_size,
            r.random == random,
            r.next == 0,
    {
        Generator { plan: ChunkPlan::new(total_bytes, chunk_size), random, next: 0 }
    }

    /// The number of buffers this generator hands out in all: one per full
    /// chunk and one for a remainder, so that a progress count reaches this
    /// total exactly when the last buffer was handed out.
    pub fn progress_total(&self) -> (r: u64)
        requires
            self.wf(),
        ensures
            r == self.plan.spec_chunk_count(),
    {
        self.plan.chunk_count()
    }

    /// One all-zero buffer of a full chunk, built once and shared by every
    /// zero chunk: chunk `i` is its first `spec_chunk_len(i)` bytes.
    pub fn blank_chunk(&self) -> (r: Vec<u8>)
        requires
            self.wf(),
        ensures
            r@.len() == self.plan.chunk_size,
            forall|i: int| 0 <= i < r@.len() ==> r@[i] == 0,
    {
        zero_bytes(self.plan.chunk_size)
    }

    /// The length of the next chunk, or `None` once every chunk was handed
    /// out; for writers that take zero chunks from `blank_chunk`.
    pub fn next_len(&mut self) -> (r: Option<u64>)
        requires
            old(self).wf(),
        ensures
            final(self).wf(),
            final(self).plan == old(self).plan,
            final(self).random == old(self).random,
            old(self).next < old(self).plan.spec_chunk_count() ==> {
                &&& r == Some(old(self).plan.spec_chunk_len(old(self).next as nat) as u64)
                &&& r->0 <= old(self).plan.chunk_size
                &&& final(self).next == old(self).next + 1
            },
            old(self).next >= old(self).plan.spec_chunk_count() ==> r is None && final(self).next
                == old(self).next,
    {
        let count = self.plan.chunk_count();
        if self.next >= count {
            return None;
        }
        let len = self.plan.chunk_len(self.next);
        proof {
            lemma_chunks_cover(self.plan);
            assert(self.plan.spec_chunk_len(self.next as nat) <= self.plan.chunk_size);
        }
        self.next = self.next + 1;
        Some(len)
    }

    /// The next buffer, or `None` once every chunk was handed out. A buffer
    /// is as long as its chunk, and all zero unless the content is random.
    pub fn next_buffer(&mut self) -> (r: Option<Vec<u8>>)
        requires
            old(self).wf(),
        ensures
            final(self).wf(),
            final(self).plan == old(self).plan,
            final(self).random == old(self).random,
            old(self).next < old(self).plan.spec_chunk_count() ==> {
                &&& r is Some
                &&& r->0@.len() == old(self).plan.spec_chunk_len(old(self).next as nat)
                &&& !old(self).random ==> forall|i: int|
                    0 <= i < r->0@.len() ==> r->0@[i] == 0
                &&& final(self).next == old(self).next + 1
            },
            old(self).next >= old(self).plan.spec_chunk_count() ==> r is None && final(self).next
                == old(self).next,
    {
        let count = self.plan.chunk_count();
        if self.next >= count {
            return None;
        }
        let len = self.plan.chunk_len(self.next);
        proof {
            lemma_chunks_cover(self.plan);
            assert(self.plan.spec_chunk_len(self.next as nat) <= self.plan.chunk_size);
        }
        let buf = fill_chunk(len, self.random);
        self.next = self.next + 1;
        Some(buf)
    }
}

/// The total length of the first `k` chunks of `plan`.
pub open spec fn chunks_len(plan: ChunkPlan, k: nat) -> nat
    decreases k,
{
    if k == 0 {
        0
    } else {
        chunks_len(plan, (k - 1) as nat) + plan.spec_chunk_len((k - 1) as nat)
    }
}

proof fn lemma_full_chunks_len(plan: ChunkPlan, k: nat)
    requires
        k <= plan.full_chunks,
    ensures
        chunks_len(plan, k) == k * plan.chunk_size,
    decreases k,
{
    if k > 0 {
        let j = (k - 1) as nat;
        lemma_full_chunks_len(plan, j);
        assert(plan.spec_chunk_len(j) == plan.chunk_size);
        assert(chunks_len(plan, k) == chunks_len(plan, j) + plan.spec_chunk_len(j));
        assert(j * plan.chunk_size + plan.chunk_size == k * plan.chunk_size) by (nonlinear_arith)
            requires
                j + 1 == k,
        ;
    } else {
        assert(0 * plan.chunk_size == 0);
    }
}

/// The chunks of a plan together hold exactly its bytes; each is non-empty
/// and no longer than the chunk size; and there are as many as the chunk size
/// goes into the total, rounded up (none for an empty total).
pub proof fn lemma_chunks_cover(plan: ChunkPlan)
    requires
        plan.wf(),
    ensures
        chunks_len(plan, plan.spec_chunk_count()) == plan.total_bytes,
        forall|i: nat|
            i < plan.spec_chunk_count() ==> 0 < #[trigger] plan.spec_chunk_len(i)
                <= plan.chunk_size,
        plan.spec_chunk_count() == (plan.total_bytes + plan.chunk_size - 1) / plan.chunk_size as int,
        plan.total_bytes == 0 ==> plan.spec_chunk_count() == 0,
{
    let t = plan.total_bytes as int;
    let c = plan.chunk_size as int;
    let q = plan.full_chunks as int;
    let m = plan.remainder as int;
    vstd::arithmetic::div_mod::lemma_fundamental_div_mod(t, c);
    assert(c * q == q * c) by (nonlinear_arith);
    lemma_full_chunks_len(plan, plan.full_chunks as nat);
    if m > 0 {
        assert(chunks_len(plan, (plan.full_chunks + 1) as nat) == chunks_len(
            plan,
            plan.full_chunks as nat,
        ) + m);
        assert(t + c - 1 == c * (q + 1) + (m - 1)) by (nonlinear_arith)
            requires
                t == c * q + m,
        ;
        vstd::arithmetic::div_mod::lemma_div_multiples_vanish_fancy(q + 1, m - 1, c);
    } else {
        assert(t + c - 1 == c * q + (c - 1));
        vstd::arithmetic::div_mod::lemma_div_multiples_vanish_fancy(q, c - 1, c);
    }
    if t == 0 {
        assert(q == 0) by (nonlinear_arith)
            requires
                0 == c * q + m,
                c > 0,
                m >= 0,
                q >= 0,
        ;
    }
}

} // verus!
