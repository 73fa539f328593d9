use vstd::prelude::*;
use crate::ann_buf::{ANNBUF_SZ, AnnBuf, entries_for};
use crate::difficulty::spec_degrade;
use crate::difficulty::degrade;
use crate::types::{AnnData, HeightWork};

verus! {

/// The announcements across a run of buffers, in buffer order.
pub open spec fn model_of(bufs: Seq<AnnBuf>) -> Seq<AnnData>
    decreases bufs.len(),
{
    if bufs.len() == 0 {
        Seq::empty()
    } else {
        model_of(bufs.drop_last()) + bufs.last().model()
    }
}

/// The age of a class targeting height `bh` when the next block is `next`.
pub open spec fn age_of(next: int, bh: int) -> u32 {
    if next - bh <= 0 {
        0u32
    } else {
        (next - bh) as u32
    }
}

/// A class: the buffers holding every announcement stored under one
/// (height, work) key, and an advisory flag set while a tree build is
/// reading them.
pub struct AnnClass {
    pub hw: HeightWork,
    pub bufs: Vec<AnnBuf>,
    pub reading: bool,
}

impl AnnClass {
    /// A class always owns at least one buffer; an emptied class is
    /// destroyed rather than kept.
    pub open spec fn wf(self) -> bool {
        &&& self.bufs@.len() >= 1
        &&& forall|i: int| 0 <= i < self.bufs@.len() ==> (#[trigger] self.bufs@[i]).wf()
    }

    pub open spec fn ann_count(self) -> int {
        self.model().len() as int
    }

    pub open spec fn model(self) -> Seq<AnnData> {
        model_of(self.bufs@)
    }

    /// Free slots of the top (most recently added) buffer: the only buffer
    /// that still accepts announcements.
    pub open spec fn top_free(self) -> int {
        ANNBUF_SZ - self.bufs@.last().count()
    }

    /// A class over a whole run of buffers (the initial free pool).
    pub fn with_bufs(bufs: Vec<AnnBuf>, hw: HeightWork) -> (r: AnnClass)
        requires
            bufs@.len() >= 1,
            forall|i: int| 0 <= i < bufs@.len() ==> (#[trigger] bufs@[i]).wf(),
        ensures
            r.wf(),
            r.hw == hw,
            r.bufs@ == bufs@,
            !r.reading,
    {
        AnnClass { hw, bufs, reading: false }
    }

    /// A class seeded with one buffer.
    pub fn with_topbuf(buf: AnnBuf, hw: HeightWork) -> (r: AnnClass)
        requires
            buf.wf(),
        ensures
            r.wf(),
            r.hw == hw,
            r.bufs@.len() == 1,
            r.bufs@[0] == buf,
            !r.reading,
            r.ann_count() == buf.count(),
            r.model() =~= buf.model(),
            r.top_free() == ANNBUF_SZ - buf.count(),
    {
        let mut bufs: Vec<AnnBuf> = Vec::new();
        bufs.push(buf);
        proof {
            assert(bufs@.drop_last() =~= Seq::<AnnBuf>::empty());
            assert(model_of(Seq::<AnnBuf>::empty()) == Seq::<AnnData>::empty());
            assert(model_of(bufs@) =~= buf.model());
        }
        AnnClass { hw, bufs, reading: false }
    }

    /// Accept as much of `anns[from..]` as the top buffer takes.
    pub fn push_anns(&mut self, anns: &Vec<[u8; 32]>, from: usize) -> (n: usize)
        requires
            old(self).wf(),
            from <= anns@.len(),
        ensures
            final(self).wf(),
            final(self).hw == old(self).hw,
            final(self).reading == old(self).reading,
            final(self).bufs@.len() == old(self).bufs@.len(),
            forall|i: int|
                0 <= i < final(self).bufs@.len() ==> (#[trigger] final(self).bufs@[i]).base
                    == old(self).bufs@[i].base,
            n <= anns@.len() - from,
            n <= old(self).top_free(),
            n == anns@.len() - from || n as int == old(self).top_free(),
            final(self).ann_count() == old(self).ann_count() + n,
            final(self).top_free() == old(self).top_free() - n,
            final(self).model() == old(self).model() + entries_for(
                old(self).bufs@.last().base as int,
                old(self).bufs@.last().count(),
                anns@.subrange(from as int, (from + n) as int),
            ),
    {
        let last = self.bufs.len() - 1;
        let mut top = match self.bufs.pop() {
            Some(b) => b,
            None => {
                proof {
                    assert(false);
                }
                AnnBuf::new(0)
            },
        };
        let n = top.push_anns(anns, from);
        self.bufs.push(top);
        proof {
            assert(self.bufs@.drop_last() =~= old(self).bufs@.drop_last());
            assert(self.bufs@.last() == top);
            assert(final(self).model() == model_of(self.bufs@.drop_last()) + top.model());
            assert(old(self).model() == model_of(old(self).bufs@.drop_last()) + old(
                self,
            ).bufs@.last().model());
            assert(final(self).model() =~= old(self).model() + entries_for(
                old(self).bufs@.last().base as int,
                old(self).bufs@.last().count(),
                anns@.subrange(from as int, (from + n) as int),
            ));
        }
        n
    }

    /// Attach a (cleared) buffer as the new top.
    pub fn add_buf(&mut self, buf: AnnBuf)
        requires
            old(self).wf(),
            buf.wf(),
            buf.count() == 0,
        ensures
            final(self).wf(),
            final(self).hw == old(self).hw,
            final(self).reading == old(self).reading,
            final(self).bufs@ == old(self).bufs@.push(buf),
            final(self).ann_count() == old(self).ann_count(),
            final(self).top_free() == ANNBUF_SZ,
            final(self).model() == old(self).model(),
    {
        self.bufs.push(buf);
        proof {
            assert(self.bufs@.drop_last() =~= old(self).bufs@);
            assert(buf.model() =~= Seq::<AnnData>::empty());
            assert(final(self).model() =~= old(self).model());
        }
    }

    /// Yield the top buffer, cleared, for another class — unless the class
    /// is serving an active read (then it refuses and is left unchanged), or
    /// is down to its last buffer (then the caller takes the class apart via
    /// `destroy`).
    pub fn steal_buf(&mut self) -> (r: Result<Option<AnnBuf>, ()>)
        requires
            old(self).wf(),
        ensures
            final(self).hw == old(self).hw,
            final(self).reading == old(self).reading,
            r is Err <==> old(self).reading,
            r is Err ==> *final(self) == *old(self),
            (r matches Ok(o) && o is None) <==> (!old(self).reading && old(self).bufs@.len() == 1),
            (r matches Ok(o) && o is None) ==> *final(self) == *old(self),
            r matches Ok(Some(b)) ==> b.wf() && b.count() == 0 && b.base == old(
                self,
            ).bufs@.last().base && final(self).wf() && final(self).bufs@ == old(
                self,
            ).bufs@.drop_last(),
    {
        if self.reading {
            return Err(());
        }
        if self.bufs.len() == 1 {
            return Ok(None);
        }
        let mut b = match self.bufs.pop() {
            Some(b) => b,
            None => {
                proof {
                    assert(false);
                }
                AnnBuf::new(0)
            },
        };
        b.clear();
        Ok(Some(b))
    }

    /// Take a single-buffer class apart, returning its buffer cleared.
    pub fn destroy(self) -> (r: AnnBuf)
        requires
            self.wf(),
            self.bufs@.len() == 1,
        ensures
            r.wf(),
            r.count() == 0,
            r.base == self.bufs@[0].base,
    {
        let mut bufs = self.bufs;
        let mut b = match bufs.pop() {
            Some(b) => b,
            None => {
                proof {
                    assert(false);
                }
                AnnBuf::new(0)
            },
        };
        b.clear();
        b
    }

    /// Whether the top buffer still has free slots.
    pub fn anns_space(&self) -> (r: bool)
        requires
            self.wf(),
        ensures
            r == (self.top_free() > 0),
    {
        self.bufs[self.bufs.len() - 1].anns.len() < ANNBUF_SZ
    }

    /// How many announcements are ready to be read.
    pub fn ready_anns(&self) -> (r: usize)
        requires
            self.wf(),
        ensures
            r == self.ann_count(),
    {
        let mut v: Vec<AnnData> = Vec::new();
        self.read_ready_anns(&mut v);
        v.len()
    }

    /// Append every ready announcement, slot-annotated, to `out`.
    #[verifier::loop_isolation(false)]
    pub fn read_ready_anns(&self, out: &mut Vec<AnnData>)
        requires
            self.wf(),
        ensures
            final(out)@ == old(out)@ + self.model(),
    {
        let m = self.bufs.len();
        let mut i: usize = 0;
        while i < m
            invariant
                i <= m,
                out@ == old(out)@ + model_of(self.bufs@.take(i as int)),
            decreases m - i,
        {
            proof {
                assert(self.bufs@.take(i as int + 1).drop_last() =~= self.bufs@.take(i as int));
                assert(self.bufs@.take(i as int + 1).last() == self.bufs@[i as int]);
            }
            self.bufs[i].read_into(out);
            i = i + 1;
        }
        proof {
            assert(self.bufs@.take(m as int) =~= self.bufs@);
        }
    }

    /// The class's age-degraded effective work against the next height.
    pub fn ann_effective_work(&self, next_height: i32) -> (r: u32)
        ensures
            r == spec_degrade(
                self.hw.work,
                age_of(next_height as int, self.hw.block_height as int),
            ),
    {
        let d: i64 = next_height as i64 - self.hw.block_height as i64;
        let age: u32 = if d <= 0 {
            0
        } else {
            d as u32
        };
        degrade(self.hw.work, age)
    }

    /// Mark the class as serving a tree build's read.
    pub fn begin_read(&mut self)
        requires
            old(self).wf(),
        ensures
            *final(self) == (AnnClass { reading: true, ..*old(self) }),
    {
        self.reading = true;
    }

    /// Release the read mark.
    pub fn end_read(&mut self)
        requires
            old(self).wf(),
        ensures
            *final(self) == (AnnClass { reading: false, ..*old(self) }),
    {
        self.reading = false;
    }
}

} // verus!
