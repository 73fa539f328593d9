use vstd::prelude::*;
use crate::types::{AnnData, pfx_of, pfx_u64};

verus! {

/// Announcement slots per buffer: the unit of reassignment between classes.
pub const ANNBUF_SZ: usize = 1024;

/// The announcements a run of hashes stands for when written from slot
/// `base + start` onward.
pub open spec fn entries_for(base: int, start: int, hs: Seq<[u8; 32]>) -> Seq<AnnData> {
    Seq::new(
        hs.len(),
        |i: int|
            AnnData {
                hash_pfx: pfx_of(hs[i]@),
                mloc: (base + start + i) as u32,
                hash: hs[i],
            },
    )
}

/// A fixed-capacity announcement buffer owning the backing-store slots
/// `[base, base + ANNBUF_SZ)`.
pub struct AnnBuf {
    pub base: usize,
    pub anns: Vec<[u8; 32]>,
}

impl AnnBuf {
    /// A buffer owns an aligned slot range and never holds more than its
    /// capacity.
    pub open spec fn wf(self) -> bool {
        &&& self.anns@.len() <= ANNBUF_SZ
        &&& self.base % ANNBUF_SZ == 0
        &&& self.base + ANNBUF_SZ <= u32::MAX
    }

    pub open spec fn count(self) -> int {
        self.anns@.len() as int
    }

    /// The announcements held, each at its backing-store slot.
    pub open spec fn model(self) -> Seq<AnnData> {
        entries_for(self.base as int, 0, self.anns@)
    }

    /// A fresh, empty buffer over the slots starting at `base`.
    pub fn new(base: usize) -> (r: AnnBuf)
        requires
            base % ANNBUF_SZ == 0,
            base + ANNBUF_SZ <= u32::MAX as usize,
        ensures
            r.wf(),
            r.count() == 0,
            r.base == base,
            r.model() =~= Seq::<AnnData>::empty(),
    {
        AnnBuf { base, anns: Vec::new() }
    }

    /// Accept as much of `anns[from..]` as fits; the buffer fills in slot
    /// order and reports how many it took.
    #[verifier::loop_isolation(false)]
    pub fn push_anns(&mut self, anns: &Vec<[u8; 32]>, from: usize) -> (n: usize)
        requires
            old(self).wf(),
            from <= anns@.len(),
        ensures
            final(self).wf(),
            final(self).base == old(self).base,
            n <= anns@.len() - from,
            n <= ANNBUF_SZ - old(self).count(),
            n == anns@.len() - from || n as int == ANNBUF_SZ - old(self).count(),
            final(self).count() == old(self).count() + n,
            final(self).model() == old(self).model() + entries_for(
                old(self).base as int,
                old(self).count(),
                anns@.subrange(from as int, (from + n) as int),
            ),
    {
        let free: usize = ANNBUF_SZ - self.anns.len();
        let rem: usize = anns.len() - from;
        let n: usize = if rem < free {
            rem
        } else {
            free
        };
        let mut k: usize = 0;
        while k < n
            invariant
                k <= n,
                n <= anns@.len() - from,
                self.anns@ == old(self).anns@ + anns@.subrange(from as int, (from + k) as int),
                self.base == old(self).base,
            decreases n - k,
        {
            self.anns.push(anns[from + k]);
            k = k + 1;
            assert(self.anns@ =~= old(self).anns@ + anns@.subrange(
                from as int,
                (from + k) as int,
            ));
        }
        assert(final(self).model() =~= old(self).model() + entries_for(
            old(self).base as int,
            old(self).count(),
            anns@.subrange(from as int, (from + n) as int),
        ));
        n
    }

    /// Drop the contents; the slots are reused by the next owner.
    pub fn clear(&mut self)
        requires
            old(self).wf(),
        ensures
            final(self).wf(),
            final(self).base == old(self).base,
            final(self).count() == 0,
            final(self).model() =~= Seq::<AnnData>::empty(),
    {
        self.anns.clear();
    }

    /// Append the held announcements, slot-annotated, to `out`.
    pub fn read_into(&self, out: &mut Vec<AnnData>)
        requires
            self.wf(),
        ensures
            final(out)@ == old(out)@ + self.model(),
    {
        let m = self.anns.len();
        let mut i: usize = 0;
        while i < m
            invariant
                i <= m,
                m == self.anns@.len(),
                self.wf(),
                out@ == old(out)@ + self.model().take(i as int),
            decreases m - i,
        {
            let h = self.anns[i];
            let p = pfx_u64(&h);
            out.push(AnnData { hash_pfx: p, mloc: (self.base + i) as u32, hash: h });
            i = i + 1;
            assert(out@ =~= old(out)@ + self.model().take(i as int));
        }
        assert(self.model().take(m as int) =~= self.model());
    }
}

} // verus!
