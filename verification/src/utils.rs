//! A growable byte arena with capacity-doubling, the staging store for the
//! serialized face list. The arena owns its allocation explicitly — a capacity
//! field and a reallocate-on-overflow rule — so that the upload semantics of
//! the rendering shell (a handle is stale after a reallocation) stay visible
//! in the contracts: the capacity only ever grows, never shrinks.

use vstd::prelude::*;

verus! {

/// The capacity that repeated doubling reaches: the least value of the form
/// `cap * 2^k` that is at least `need` (for a positive starting capacity).
pub open spec fn grown_capacity(cap: int, need: int) -> int
    recommends
        1 <= cap,
    decreases need - cap,
{
    if cap >= need {
        cap
    } else if cap < 1 {
        cap
    } else if 2 * cap >= need {
        2 * cap
    } else {
        grown_capacity(2 * cap, need)
    }
}

/// How far the capacity still is from covering `need`; zero once it does.
spec fn growth_gap(cap: int, need: int) -> int {
    if cap < need {
        need - cap
    } else {
        0
    }
}

/// A byte buffer that doubles its capacity whenever a payload exceeds it and
/// rewrites the whole payload on every update.
pub struct DynamicBuffer {
    data: Vec<u8>,
    len: usize,
}

impl DynamicBuffer {
    /// The allocated capacity in bytes.
    pub closed spec fn capacity(self) -> int {
        self.data@.len() as int
    }

    /// The bytes of the most recently written payload.
    pub closed spec fn payload(self) -> Seq<u8> {
        self.data@.take(self.len as int)
    }

    /// The payload fits in the allocation, and the allocation is nonempty, so
    /// that doubling makes progress.
    pub closed spec fn wf(self) -> bool {
        self.len <= self.data@.len() && 1 <= self.data@.len()
    }

    /// An empty buffer backed by `initial_size` allocated bytes.
    pub fn new(initial_size: usize) -> (r: Self)
        requires
            1 <= initial_size,
        ensures
            r.wf(),
            r.capacity() == initial_size,
            r.payload() == Seq::<u8>::empty(),
    {
        let data = vec![0u8; initial_size];
        let r = DynamicBuffer { data, len: 0 };
        assert(r.payload() =~= Seq::<u8>::empty());
        r
    }

    /// Writes `data` as the new payload. If it exceeds the capacity, the
    /// capacity doubles until it suffices and the store is reallocated (old
    /// contents are not kept: the whole payload is rewritten); otherwise the
    /// capacity is untouched. The capacity never decreases.
    pub fn update(&mut self, data: &[u8])
        requires
            old(self).wf(),
            data@.len() <= usize::MAX / 2,
        ensures
            final(self).wf(),
            final(self).payload() == data@,
            final(self).capacity() >= old(self).capacity(),
            final(self).capacity() >= data@.len(),
            data@.len() <= old(self).capacity() ==> final(self).capacity() == old(
                self,
            ).capacity(),
            data@.len() > old(self).capacity() ==> final(self).capacity() == grown_capacity(
                old(self).capacity(),
                data@.len() as int,
            ),
    {
        let need = data.len();
        if need > self.data.len() {
            let mut cap = self.data.len();
            while cap < need
                invariant
                    1 <= cap,
                    need <= usize::MAX / 2,
                    cap >= old(self).capacity(),
                    grown_capacity(cap as int, need as int) == grown_capacity(
                        old(self).capacity(),
                        need as int,
                    ),
                decreases growth_gap(cap as int, need as int),
            {
                cap = cap * 2;
            }
            assert(grown_capacity(cap as int, need as int) == cap);
            self.data = vec![0u8; cap];
        }
        let cap_now = self.data.len();
        let mut buf: Vec<u8> = Vec::new();
        assert(buf@ =~= data@.take(0));
        let mut i: usize = 0;
        while i < need
            invariant
                i <= need,
                need == data@.len(),
                buf@ == data@.take(i as int),
            decreases need - i,
        {
            let b = data[i];
            buf.push(b);
            assert(buf@ =~= data@.take(i + 1));
            i = i + 1;
        }
        assert(buf@ =~= data@);
        while buf.len() < cap_now
            invariant
                buf@.len() <= cap_now,
                buf@.take(need as int) == data@,
                need <= buf@.len(),
            decreases cap_now - buf@.len(),
        {
            buf.push(0);
            assert(buf@.take(need as int) =~= data@);
        }
        self.data = buf;
        self.len = need;
    }

    /// The current payload, for an upload by the caller. The reference is
    /// invalidated by the next `update`, which may reallocate.
    pub fn buffer(&self) -> (r: &[u8])
        requires
            self.wf(),
        ensures
            r@ == self.payload(),
    {
        let r = vstd::slice::slice_subrange(self.data.as_slice(), 0, self.len);
        assert(r@ =~= self.payload());
        r
    }

    /// The allocated capacity in bytes.
    pub fn capacity_bytes(&self) -> (r: usize)
        ensures
            r == self.capacity(),
    {
        self.data.len()
    }

    /// The length of the current payload in bytes.
    pub fn payload_len(&self) -> (r: usize)
        requires
            self.wf(),
        ensures
            r == self.payload().len(),
    {
        self.len
    }
}

} // verus!
