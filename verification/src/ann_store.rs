use vstd::prelude::*;
use crate::ann_buf::{ANNBUF_SZ, AnnBuf};
use crate::ann_class::{AnnClass, age_of, model_of};
use crate::difficulty::spec_degrade;
use crate::prooftree::{ProofTree, valid_survivors};
use crate::types::{AnnData, HeightWork, StoreError, TreeError, WORK_SENTINEL, pfx_of};

verus! {

broadcast use vstd::seq_lib::group_to_multiset_ensures;

/// A read-only ranking snapshot of one class.
pub struct ClassInfo {
    pub hw: HeightWork,
    pub ann_count: usize,
    pub ann_effective_work: u32,
}

/// Relies on `<[T]>::sort_unstable_by_key`: it reorders the slice into a
/// permutation of itself ascending by the key.
#[verifier::external_body]
fn sort_by_aew(v: &mut Vec<ClassInfo>)
    ensures
        final(v)@.len() == old(v)@.len(),
        final(v)@.to_multiset() == old(v)@.to_multiset(),
        forall|k: int, l: int|
            0 <= k < l < final(v)@.len() ==> final(v)@[k].ann_effective_work
                <= final(v)@[l].ann_effective_work,
{
    v.sort_unstable_by_key(|ci| ci.ann_effective_work);
}

/// Buffers a steal may take: every buffer of every class that is neither the
/// destination nor serving an active read.
pub open spec fn stealable_bufs(classes: Seq<AnnClass>, avoid: HeightWork) -> int
    decreases classes.len(),
{
    if classes.len() == 0 {
        0
    } else {
        stealable_bufs(classes.drop_last(), avoid) + (if classes.last().hw != avoid
            && !classes.last().reading {
            classes.last().bufs@.len() as int
        } else {
            0
        })
    }
}

proof fn lemma_stealable_nonneg(classes: Seq<AnnClass>, avoid: HeightWork)
    ensures
        stealable_bufs(classes, avoid) >= 0,
    decreases classes.len(),
{
    if classes.len() > 0 {
        lemma_stealable_nonneg(classes.drop_last(), avoid);
    }
}

proof fn lemma_stealable_zero(classes: Seq<AnnClass>, avoid: HeightWork)
    requires
        forall|i: int|
            0 <= i < classes.len() ==> (#[trigger] classes[i].hw) == avoid || classes[i].reading,
    ensures
        stealable_bufs(classes, avoid) == 0,
    decreases classes.len(),
{
    if classes.len() > 0 {
        assert(classes[classes.len() - 1] == classes.last());
        lemma_stealable_zero(classes.drop_last(), avoid);
    }
}

proof fn lemma_stealable_pos(classes: Seq<AnnClass>, avoid: HeightWork, i: int)
    requires
        0 <= i < classes.len(),
        classes[i].hw != avoid,
        !classes[i].reading,
    ensures
        stealable_bufs(classes, avoid) >= classes[i].bufs@.len(),
    decreases classes.len(),
{
    lemma_stealable_nonneg(classes.drop_last(), avoid);
    if i == classes.len() - 1 {
        assert(classes[i] == classes.last());
    } else {
        lemma_stealable_pos(classes.drop_last(), avoid, i);
    }
}

proof fn lemma_stealable_remove(classes: Seq<AnnClass>, avoid: HeightWork, i: int)
    requires
        0 <= i < classes.len(),
    ensures
        stealable_bufs(classes.remove(i), avoid) == stealable_bufs(classes, avoid) - (if classes[i].hw
            != avoid && !classes[i].reading {
            classes[i].bufs@.len() as int
        } else {
            0
        }),
    decreases classes.len(),
{
    if i == classes.len() - 1 {
        assert(classes.remove(i) =~= classes.drop_last());
        assert(classes[i] == classes.last());
    } else {
        assert(classes.remove(i).drop_last() =~= classes.drop_last().remove(i));
        assert(classes.remove(i).last() == classes.last());
        lemma_stealable_remove(classes.drop_last(), avoid, i);
        assert(classes.drop_last()[i] == classes[i]);
    }
}

proof fn lemma_stealable_push(classes: Seq<AnnClass>, avoid: HeightWork, c: AnnClass)
    ensures
        stealable_bufs(classes.push(c), avoid) == stealable_bufs(classes, avoid) + (if c.hw != avoid
            && !c.reading {
            c.bufs@.len() as int
        } else {
            0
        }),
{
    assert(classes.push(c).drop_last() =~= classes);
    assert(classes.push(c).last() == c);
}

/// Buffers over all classes: fixed at store creation and conserved by every
/// operation, stealing included.
pub open spec fn total_bufs(classes: Seq<AnnClass>) -> int
    decreases classes.len(),
{
    if classes.len() == 0 {
        0
    } else {
        total_bufs(classes.drop_last()) + classes.last().bufs@.len()
    }
}

proof fn lemma_total_remove(classes: Seq<AnnClass>, i: int)
    requires
        0 <= i < classes.len(),
    ensures
        total_bufs(classes.remove(i)) == total_bufs(classes) - classes[i].bufs@.len(),
    decreases classes.len(),
{
    if i == classes.len() - 1 {
        assert(classes.remove(i) =~= classes.drop_last());
        assert(classes[i] == classes.last());
    } else {
        assert(classes.remove(i).drop_last() =~= classes.drop_last().remove(i));
        assert(classes.remove(i).last() == classes.last());
        lemma_total_remove(classes.drop_last(), i);
        assert(classes.drop_last()[i] == classes[i]);
    }
}

proof fn lemma_total_push(classes: Seq<AnnClass>, c: AnnClass)
    ensures
        total_bufs(classes.push(c)) == total_bufs(classes) + c.bufs@.len(),
{
    assert(classes.push(c).drop_last() =~= classes);
    assert(classes.push(c).last() == c);
}

proof fn lemma_total_update(classes: Seq<AnnClass>, i: int, c: AnnClass)
    requires
        0 <= i < classes.len(),
    ensures
        total_bufs(classes.update(i, c)) == total_bufs(classes) + c.bufs@.len()
            - classes[i].bufs@.len(),
    decreases classes.len(),
{
    if i == classes.len() - 1 {
        assert(classes.update(i, c).drop_last() =~= classes.drop_last());
        assert(classes.update(i, c).last() == c);
        assert(classes[i] == classes.last());
    } else {
        assert(classes.update(i, c).drop_last() =~= classes.drop_last().update(i, c));
        assert(classes.update(i, c).last() == classes.last());
        lemma_total_update(classes.drop_last(), i, c);
        assert(classes.drop_last()[i] == classes[i]);
    }
}

/// How many classes would rank (degraded work not the sentinel) against
/// `nh`.
pub open spec fn ready_count(classes: Seq<AnnClass>, nh: int) -> int
    decreases classes.len(),
{
    if classes.len() == 0 {
        0
    } else {
        ready_count(classes.drop_last(), nh) + (if spec_degrade(
            classes.last().hw.work,
            age_of(nh, classes.last().hw.block_height as int),
        ) != WORK_SENTINEL {
            1int
        } else {
            0int
        })
    }
}

/// A push absorbed the first `n` announcements of its batch into the class:
/// the class grew by exactly that prefix, in order.
pub open spec fn pushed_prefix(
    pre: AnnStore,
    post: AnnStore,
    hw: HeightWork,
    anns: Seq<[u8; 32]>,
    n: int,
) -> bool {
    &&& 0 <= n <= anns.len()
    &&& post.class_count(hw) == pre.class_count(hw) + n
    &&& ann_hashes(class_model_at(post, hw)) == ann_hashes(class_model_at(pre, hw)) + anns.take(n)
}

/// A ranking snapshot entry is honest: some class of the store carries its
/// key, holds its announcement count, and degrades to its effective work.
pub open spec fn ready_entry_ok(s: AnnStore, nh: int, ci: ClassInfo) -> bool {
    exists|i: int|
        0 <= i < s.classes@.len() && (#[trigger] s.classes@[i].hw) == ci.hw && ci.ann_count
            == s.classes@[i].ann_count() && ci.ann_effective_work == spec_degrade(
            s.classes@[i].hw.work,
            age_of(nh, s.classes@[i].hw.block_height as int),
        )
}

/// Some snapshot entry carries the key `hw`.
pub open spec fn has_ready_entry(r: Seq<ClassInfo>, hw: HeightWork) -> bool {
    exists|k: int| 0 <= k < r.len() && (#[trigger] r[k].hw) == hw
}

/// A steal never touches a class flagged as serving an active read: the
/// donor is never such a class, and every class other than the donor keeps
/// all its buffers and announcements, so no live snapshot's source is
/// recycled mid-copy.
pub proof fn lemma_reading_class_untouched(
    pre: Seq<AnnClass>,
    post: Seq<AnnClass>,
    di: int,
    b: AnnBuf,
    avoid: HeightWork,
    nh: int,
    i: int,
)
    requires
        steal_outcome(pre, post, di, b, avoid, nh),
        pre[di].bufs@.len() >= 1,
        0 <= i < pre.len(),
        pre[i].reading,
    ensures
        post.contains(pre[i]),
{
    assert(i != di);
    if pre[di].bufs@.len() == 1 {
        assert(post == pre.remove(di));
        if i < di {
            assert(post[i] == pre[i]);
        } else {
            assert(post[i - 1] == pre[i]);
        }
        assert(post.contains(pre[i]));
    } else {
        let d2 = choose|d2: AnnClass|
            post == pre.update(di, d2) && d2.hw == pre[di].hw && d2.reading == pre[di].reading
                && d2.bufs@ == pre[di].bufs@.drop_last();
        assert(post[i] == pre[i]);
        assert(post.contains(pre[i]));
    }
}

/// Model entry `k` of a buffer run sits in slot `base + o` of buffer `j`.
pub open spec fn slot_in(bufs: Seq<AnnBuf>, j: int, o: int, m: int) -> bool {
    0 <= j < bufs.len() && 0 <= o < bufs[j].count() && m == bufs[j].base as int + o
}

proof fn lemma_buf_model_slot(bufs: Seq<AnnBuf>, k: int)
    requires
        0 <= k < model_of(bufs).len(),
        forall|i: int| 0 <= i < bufs.len() ==> (#[trigger] bufs[i]).wf(),
    ensures
        exists|j: int, o: int| #[trigger] slot_in(bufs, j, o, model_of(bufs)[k].mloc as int),
    decreases bufs.len(),
{
    let pre = model_of(bufs.drop_last());
    let lastm = bufs.last().model();
    assert(model_of(bufs) == pre + lastm);
    if k < pre.len() {
        lemma_buf_model_slot(bufs.drop_last(), k);
        let (j, o) = choose|j: int, o: int|
            slot_in(bufs.drop_last(), j, o, model_of(bufs.drop_last())[k].mloc as int);
        assert(bufs.drop_last()[j] == bufs[j]);
        assert(model_of(bufs)[k] == pre[k]);
        assert(slot_in(bufs, j, o, model_of(bufs)[k].mloc as int));
    } else {
        let o = k - pre.len();
        let last = bufs.last();
        assert(model_of(bufs)[k] == lastm[o]);
        assert(last.wf());
        assert(lastm[o].mloc == (last.base + o) as u32);
        assert(last.base + o < 0x1_0000_0000);
        assert(bufs[bufs.len() - 1] == last);
        assert(slot_in(bufs, bufs.len() - 1, o, model_of(bufs)[k].mloc as int));
    }
}

/// No backing-store slot is counted under two classes: announcements held
/// by different classes always sit in different slots, so no announcement
/// index is ever counted twice across the store.
pub proof fn lemma_no_slot_in_two_classes(s: AnnStore, i1: int, k1: int, i2: int, k2: int)
    requires
        s.inv(),
        0 <= i1 < s.classes@.len(),
        0 <= k1 < s.classes@[i1].model().len(),
        0 <= i2 < s.classes@.len(),
        0 <= k2 < s.classes@[i2].model().len(),
        i1 != i2,
    ensures
        s.classes@[i1].model()[k1].mloc != s.classes@[i2].model()[k2].mloc,
{
    assert(s.classes@[i1].wf());
    assert(s.classes@[i2].wf());
    lemma_buf_model_slot(s.classes@[i1].bufs@, k1);
    lemma_buf_model_slot(s.classes@[i2].bufs@, k2);
    let m1 = s.classes@[i1].model()[k1].mloc as int;
    let m2 = s.classes@[i2].model()[k2].mloc as int;
    let (j1, o1) = choose|j: int, o: int| slot_in(s.classes@[i1].bufs@, j, o, m1);
    let (j2, o2) = choose|j: int, o: int| slot_in(s.classes@[i2].bufs@, j, o, m2);
    let b1 = s.classes@[i1].bufs@[j1].base as int;
    let b2 = s.classes@[i2].bufs@[j2].base as int;
    assert(b1 != b2);
    assert(s.classes@[i1].bufs@[j1].wf());
    assert(s.classes@[i2].bufs@[j2].wf());
    assert(o1 < ANNBUF_SZ);
    assert(o2 < ANNBUF_SZ);
    assert(b1 + o1 != b2 + o2) by (nonlinear_arith)
        requires
            b1 % 1024 == 0,
            b2 % 1024 == 0,
            b1 != b2,
            0 <= o1 < 1024,
            0 <= o2 < 1024,
            b1 >= 0,
            b2 >= 0,
    ;
}

/// The hashes a model holds, in order.
pub open spec fn ann_hashes(m: Seq<AnnData>) -> Seq<[u8; 32]> {
    m.map(|i: int, a: AnnData| a.hash)
}

/// What one successful steal does to the class map: class `di` of the old
/// map, neither the destination nor reading and of maximal degraded work
/// among such classes, yields its top buffer (the one returned); an emptied
/// donor is removed from the map, any other donor just shrinks by that
/// buffer, and every other class is untouched.
pub open spec fn steal_outcome(
    pre: Seq<AnnClass>,
    post: Seq<AnnClass>,
    di: int,
    b: AnnBuf,
    avoid: HeightWork,
    nh: int,
) -> bool {
    &&& 0 <= di < pre.len()
    &&& pre[di].hw != avoid
    &&& !pre[di].reading
    &&& b.base == pre[di].bufs@.last().base
    &&& (forall|i: int|
        0 <= i < pre.len() && (#[trigger] pre[i].hw) != avoid && !pre[i].reading ==> spec_degrade(
            pre[i].hw.work,
            age_of(nh, pre[i].hw.block_height as int),
        ) <= spec_degrade(pre[di].hw.work, age_of(nh, pre[di].hw.block_height as int)))
    &&& (pre[di].bufs@.len() == 1 ==> post == pre.remove(di))
    &&& (pre[di].bufs@.len() > 1 ==> (exists|d2: AnnClass|
        post == pre.update(di, d2) && d2.hw == pre[di].hw && d2.reading == pre[di].reading
            && d2.bufs@ == pre[di].bufs@.drop_last()))
}

/// The announcement store: every class of buffered announcements, keyed by
/// (height, work), and the recently seen chain tips used to infer the next
/// height for ageing.  The exclusive borrow on mutating operations plays the
/// store-wide writer lock's role.
pub struct AnnStore {
    pub classes: Vec<AnnClass>,
    pub recent_blocks: Vec<(i32, [u8; 32])>,
}

impl AnnStore {
    /// Classes are well formed, keys are unique, and no backing-store slot
    /// range belongs to two buffers.
    pub open spec fn inv(self) -> bool {
        &&& forall|i: int| 0 <= i < self.classes@.len() ==> (#[trigger] self.classes@[i]).wf()
        &&& forall|i: int, j: int|
            0 <= i < j < self.classes@.len() ==> self.classes@[i].hw != self.classes@[j].hw
        &&& forall|i1: int, j1: int, i2: int, j2: int|
            0 <= i1 < self.classes@.len() && 0 <= j1 < self.classes@[i1].bufs@.len() && 0 <= i2
                < self.classes@.len() && 0 <= j2 < self.classes@[i2].bufs@.len() && (i1 != i2 || j1
                != j2) ==> (#[trigger] self.classes@[i1].bufs@[j1].base) != (
            #[trigger] self.classes@[i2].bufs@[j2].base)
        &&& forall|i: int, j: int|
            0 <= i < j < self.recent_blocks@.len() ==> self.recent_blocks@[i].0
                != self.recent_blocks@[j].0
    }

    pub open spec fn has_class(self, hw: HeightWork) -> bool {
        exists|i: int| 0 <= i < self.classes@.len() && (#[trigger] self.classes@[i].hw) == hw
    }

    pub open spec fn class_at(self, hw: HeightWork) -> AnnClass {
        self.classes@[choose|i: int|
            0 <= i < self.classes@.len() && (#[trigger] self.classes@[i].hw) == hw]
    }

    /// Announcements currently held under `hw` (0 if no such class).
    pub open spec fn class_count(self, hw: HeightWork) -> int {
        if self.has_class(hw) {
            self.class_at(hw).ann_count()
        } else {
            0
        }
    }

    /// Free slots in the class's top buffer (0 if no such class).
    pub open spec fn hw_top_free(self, hw: HeightWork) -> int {
        if self.has_class(hw) {
            self.class_at(hw).top_free()
        } else {
            0
        }
    }

    pub open spec fn has_blocks(self) -> bool {
        self.recent_blocks@.len() > 0
    }

    /// The index of the class keyed `hw`, if one exists.
    #[verifier::loop_isolation(false)]
    fn find_class(&self, hw: HeightWork) -> (r: Option<usize>)
        ensures
            r matches Some(i) ==> i < self.classes@.len() && self.classes@[i as int].hw == hw,
            r is None ==> !self.has_class(hw),
    {
        let m = self.classes.len();
        let mut i: usize = 0;
        while i < m
            invariant
                i <= m,
                forall|k: int| 0 <= k < i ==> (#[trigger] self.classes@[k].hw) != hw,
            decreases m - i,
        {
            if self.classes[i].hw == hw {
                return Some(i);
            }
            i = i + 1;
        }
        None
    }

    /// A fresh store: the whole capacity is cut into buffers and parked in
    /// one sentinel-keyed class, the free pool, which every later class
    /// steals from first.
    #[verifier::loop_isolation(false)]
    pub fn new(max_anns: usize) -> (r: AnnStore)
        requires
            1 <= max_anns,
            max_anns + ANNBUF_SZ <= u32::MAX as usize,
        ensures
            r.inv(),
            r.classes@.len() == 1,
            r.classes@[0].hw == (HeightWork { block_height: 0, work: WORK_SENTINEL }),
            r.classes@[0].ann_count() == 0,
            r.classes@[0].bufs@.len() == ((max_anns + ANNBUF_SZ - 1) as int) / (ANNBUF_SZ as int),
            forall|k: int|
                0 <= k < r.classes@[0].bufs@.len() ==> (#[trigger] r.classes@[0].bufs@[k]).base
                    == k * ANNBUF_SZ && r.classes@[0].bufs@[k].count() == 0,
            !r.has_blocks(),
    {
        let hw_store = HeightWork { block_height: 0, work: WORK_SENTINEL };
        let mut bufs: Vec<AnnBuf> = Vec::new();
        let mut base: usize = 0;
        while base < max_anns
            invariant
                base == bufs@.len() * ANNBUF_SZ,
                base < max_anns + ANNBUF_SZ,
                forall|k: int|
                    0 <= k < bufs@.len() ==> (#[trigger] bufs@[k]).base == k * ANNBUF_SZ
                        && bufs@[k].wf() && bufs@[k].count() == 0,
                model_of(bufs@) =~= Seq::empty(),
            decreases max_anns + ANNBUF_SZ - base,
        {
            let ghost old_bufs = bufs@;
            let b = AnnBuf::new(base);
            bufs.push(b);
            base = base + ANNBUF_SZ;
            proof {
                assert(bufs@.drop_last() =~= old_bufs);
                assert(model_of(bufs@) =~= Seq::empty());
                assert((old_bufs.len() + 1) * ANNBUF_SZ == old_bufs.len() * ANNBUF_SZ
                    + ANNBUF_SZ) by (nonlinear_arith);
            }
        }
        assert(bufs@.len() >= 1);
        proof {
            assert(bufs@.len() == ((max_anns + ANNBUF_SZ - 1) as int) / (ANNBUF_SZ as int)) by (nonlinear_arith)
                requires
                    base == bufs@.len() * ANNBUF_SZ,
                    max_anns <= base < max_anns + ANNBUF_SZ,
                    ANNBUF_SZ == 1024,
                    1 <= max_anns,
            ;
        }
        let class_store = AnnClass::with_bufs(bufs, hw_store);
        let mut classes: Vec<AnnClass> = Vec::new();
        classes.push(class_store);
        let r = AnnStore { classes, recent_blocks: Vec::new() };
        proof {
            assert forall|i1: int, j1: int, i2: int, j2: int|
                0 <= i1 < r.classes@.len() && 0 <= j1 < r.classes@[i1].bufs@.len() && 0 <= i2
                    < r.classes@.len() && 0 <= j2 < r.classes@[i2].bufs@.len() && (i1 != i2 || j1
                    != j2) implies (#[trigger] r.classes@[i1].bufs@[j1].base) != (
            #[trigger] r.classes@[i2].bufs@[j2].base) by {
                assert(j1 != j2);
                assert(r.classes@[0].bufs@[j1].base == j1 * ANNBUF_SZ);
                assert(r.classes@[0].bufs@[j2].base == j2 * ANNBUF_SZ);
                assert(j1 * ANNBUF_SZ != j2 * ANNBUF_SZ) by (nonlinear_arith)
                    requires j1 != j2;
            }
        }
        r
    }

    /// Record a chain-tip observation; only the greatest recorded height
    /// feeds the default next-height for ageing.
    pub fn block(&mut self, height: i32, hash: [u8; 32])
        requires
            old(self).inv(),
        ensures
            final(self).inv(),
            final(self).has_blocks(),
            final(self).classes == old(self).classes,
            final(self).recent_blocks@.contains((height, hash)),
            forall|k: int|
                0 <= k < old(self).recent_blocks@.len()
                    && (#[trigger] old(self).recent_blocks@[k]).0 != height
                    ==> final(self).recent_blocks@.contains(old(self).recent_blocks@[k]),
            forall|k: int|
                0 <= k < final(self).recent_blocks@.len()
                    ==> ((#[trigger] final(self).recent_blocks@[k]) == (height, hash)
                    || (final(self).recent_blocks@[k].0 != height
                    && old(self).recent_blocks@.contains(final(self).recent_blocks@[k]))),
    {
        let m = self.recent_blocks.len();
        let mut i: usize = 0;
        #[verifier::loop_isolation(false)]
        while i < m
            invariant
                i <= m,
                m == self.recent_blocks@.len(),
                *self == *old(self),
                forall|k: int| 0 <= k < i ==> (#[trigger] self.recent_blocks@[k].0) != height,
            decreases m - i,
        {
            if self.recent_blocks[i].0 == height {
                proof {
                    assert forall|k: int|
                        0 <= k < self.recent_blocks@.len() && k != i implies (
                    #[trigger] self.recent_blocks@[k].0) != height by {
                        if k < i {
                        } else {
                            assert(self.recent_blocks@[i as int].0 == height);
                        }
                    }
                }
                let ghost pre = self.recent_blocks@;
                let _ = self.recent_blocks.remove(i);
                self.recent_blocks.push((height, hash));
                proof {
                    assert(self.recent_blocks@ == pre.remove(i as int).push((height, hash)));
                    assert(self.recent_blocks@.last() == (height, hash));
                    assert(self.recent_blocks@.contains((height, hash)));
                    assert forall|k: int|
                        0 <= k < pre.len() && (#[trigger] pre[k]).0 != height implies self
                        .recent_blocks@.contains(pre[k]) by {
                        if k < i {
                            assert(self.recent_blocks@[k] == pre[k]);
                        } else {
                            assert(k != i);
                            assert(self.recent_blocks@[k - 1] == pre[k]);
                        }
                    }
                    assert forall|k: int|
                        0 <= k < self.recent_blocks@.len() && (#[trigger] self
                        .recent_blocks@[k]) != (height, hash) implies (self.recent_blocks@[k].0
                        != height && pre.contains(self.recent_blocks@[k])) by {
                        if k < self.recent_blocks@.len() - 1 {
                            if k < i {
                                assert(self.recent_blocks@[k] == pre[k]);
                            } else {
                                assert(self.recent_blocks@[k] == pre[k + 1]);
                            }
                        }
                    }
                }
                return ;
            }
            i = i + 1;
        }
        self.recent_blocks.push((height, hash));
        proof {
            assert(self.recent_blocks@.last() == (height, hash));
            assert(self.recent_blocks@.contains((height, hash)));
            assert forall|k: int|
                0 <= k < old(self).recent_blocks@.len() implies self.recent_blocks@.contains(
                (#[trigger] old(self).recent_blocks@[k]),
            ) by {
                assert(self.recent_blocks@[k] == old(self).recent_blocks@[k]);
            }
            assert forall|k: int|
                0 <= k < self.recent_blocks@.len() && (#[trigger] self.recent_blocks@[k]) != (
                height,
                hash,
            ) implies (self.recent_blocks@[k].0 != height && old(self).recent_blocks@.contains(
                self.recent_blocks@[k],
            )) by {
                assert(k < old(self).recent_blocks@.len());
                assert(self.recent_blocks@[k] == old(self).recent_blocks@[k]);
            }
        }
    }

    /// The greatest recorded chain-tip height.
    #[verifier::loop_isolation(false)]
    fn max_recent_height(&self) -> (r: i32)
        requires
            self.has_blocks(),
        ensures
            exists|k: int|
                0 <= k < self.recent_blocks@.len() && (#[trigger] self.recent_blocks@[k]).0 == r,
            forall|k: int|
                0 <= k < self.recent_blocks@.len() ==> (#[trigger] self.recent_blocks@[k]).0 <= r,
    {
        let m = self.recent_blocks.len();
        let mut best: i32 = self.recent_blocks[0].0;
        let mut i: usize = 1;
        while i < m
            invariant
                1 <= i <= m,
                m == self.recent_blocks@.len(),
                exists|k: int|
                    0 <= k < i && (#[trigger] self.recent_blocks@[k]).0 == best,
                forall|k: int| 0 <= k < i ==> (#[trigger] self.recent_blocks@[k]).0 <= best,
            decreases m - i,
        {
            if self.recent_blocks[i].0 > best {
                best = self.recent_blocks[i].0;
            }
            i = i + 1;
        }
        best
    }

    /// The class found at a concrete index is the class the key names.
    proof fn lemma_class_at(self, hw: HeightWork, i: int)
        requires
            self.inv(),
            0 <= i < self.classes@.len(),
            self.classes@[i].hw == hw,
        ensures
            self.has_class(hw),
            self.class_at(hw) == self.classes@[i],
    {
        assert(self.has_class(hw));
        let j = choose|j: int|
            0 <= j < self.classes@.len() && (#[trigger] self.classes@[j].hw) == hw;
        if j != i {
            assert(self.classes@[i].hw != self.classes@[j].hw);
        }
    }

    /// Pick the donor with the numerically greatest degraded work among the
    /// classes that are neither the destination nor serving a read, and take
    /// one (cleared) buffer from it; a class emptied by the steal is removed.
    /// `None` means every class refused: nothing can be stolen.
    #[verifier::loop_isolation(false)]
    fn steal_non_mining_buf(&mut self, next_height: i32, avoid: HeightWork) -> (r: Option<
        (AnnBuf, usize),
    >)
        requires
            old(self).inv(),
        ensures
            final(self).inv(),
            final(self).recent_blocks == old(self).recent_blocks,
            r is None <==> stealable_bufs(old(self).classes@, avoid) == 0,
            r is None ==> *final(self) == *old(self),
            r matches Some((b, di)) ==> b.wf() && b.count() == 0 && stealable_bufs(
                final(self).classes@,
                avoid,
            ) == stealable_bufs(old(self).classes@, avoid) - 1,
            r matches Some((b, di)) ==> (forall|i: int, j: int|
                0 <= i < final(self).classes@.len() && 0 <= j
                    < final(self).classes@[i].bufs@.len() ==> (
                #[trigger] final(self).classes@[i].bufs@[j].base) != b.base),
            (final(self).has_class(avoid) <==> old(self).has_class(avoid)),
            old(self).has_class(avoid) ==> final(self).class_at(avoid) == old(self).class_at(
                avoid,
            ),
            forall|c: AnnClass|
                old(self).classes@.contains(c) && c.reading ==> final(self).classes@.contains(
                    c,
                ),
            r matches Some((b, di)) ==> total_bufs(final(self).classes@) == total_bufs(
                old(self).classes@,
            ) - 1,
            r matches Some((b, di)) ==> steal_outcome(
                old(self).classes@,
                final(self).classes@,
                di as int,
                b,
                avoid,
                next_height as int,
            ),
    {
        let m = self.classes.len();
        let mut best: Option<usize> = None;
        let mut best_val: u32 = 0;
        let mut i: usize = 0;
        while i < m
            invariant
                i <= m,
                m == self.classes@.len(),
                *self == *old(self),
                best matches Some(bi) ==> bi < m && self.classes@[bi as int].hw != avoid
                    && !self.classes@[bi as int].reading && best_val == spec_degrade(
                    self.classes@[bi as int].hw.work,
                    age_of(next_height as int, self.classes@[bi as int].hw.block_height as int),
                ),
                best is None ==> (forall|k: int|
                    0 <= k < i ==> (#[trigger] self.classes@[k].hw) == avoid
                        || self.classes@[k].reading),
                forall|k: int|
                    0 <= k < i && (#[trigger] self.classes@[k].hw) != avoid
                        && !self.classes@[k].reading ==> best is Some && spec_degrade(
                        self.classes@[k].hw.work,
                        age_of(next_height as int, self.classes@[k].hw.block_height as int),
                    ) <= best_val,
            decreases m - i,
        {
            if !(self.classes[i].hw == avoid) && !self.classes[i].reading {
                let val = self.classes[i].ann_effective_work(next_height);
                match best {
                    None => {
                        best = Some(i);
                        best_val = val;
                    },
                    Some(_) => {
                        if val >= best_val {
                            best = Some(i);
                            best_val = val;
                        }
                    },
                }
            }
            i = i + 1;
        }
        let di = match best {
            None => {
                proof {
                    lemma_stealable_zero(self.classes@, avoid);
                }
                return None;
            },
            Some(di) => di,
        };
        proof {
            lemma_stealable_pos(self.classes@, avoid, di as int);
            assert(old(self).classes@[di as int].wf());
            assert(forall|k: int|
                0 <= k < old(self).classes@.len() && (#[trigger] old(self).classes@[k].hw)
                    != avoid && !old(self).classes@[k].reading ==> spec_degrade(
                    old(self).classes@[k].hw.work,
                    age_of(next_height as int, old(self).classes@[k].hw.block_height as int),
                ) <= best_val);
            assert(best_val == spec_degrade(
                old(self).classes@[di as int].hw.work,
                age_of(next_height as int, old(self).classes@[di as int].hw.block_height as int),
            ));
            assert(!old(self).classes@[di as int].reading);
            assert(old(self).classes@[di as int].hw != avoid);
        }
        let ghost pre = self.classes@;
        let stolen = self.classes[di].steal_buf();
        match stolen {
            Err(_) => {
                proof {
                    assert(pre[di as int].reading);
                    assert(false);
                }
                None
            },
            Ok(None) => {
                // The donor is down to its last buffer: take the class apart.
                proof {
                    assert(self.classes@ =~= pre);
                }
                let c = self.classes.remove(di);
                let b = c.destroy();
                proof {
                    lemma_stealable_remove(pre, avoid, di as int);
                    assert forall|c2: AnnClass|
                        pre.contains(c2) && c2.reading implies self.classes@.contains(c2) by {
                        let k = choose|k: int| 0 <= k < pre.len() && pre[k] == c2;
                        if k < di {
                            assert(self.classes@[k] == c2);
                        } else if k > di {
                            assert(self.classes@[k - 1] == c2);
                        }
                    }
                    if old(self).has_class(avoid) {
                        let ai = choose|ai: int|
                            0 <= ai < pre.len() && (#[trigger] pre[ai].hw) == avoid;
                        if ai < di {
                            self.lemma_class_at(avoid, ai);
                        } else {
                            self.lemma_class_at(avoid, ai - 1);
                        }
                        old(self).lemma_class_at(avoid, ai);
                    }
                    if self.has_class(avoid) {
                        let ai = choose|ai: int|
                            0 <= ai < self.classes@.len() && (#[trigger] self.classes@[ai].hw)
                                == avoid;
                        if ai < di {
                            old(self).lemma_class_at(avoid, ai);
                        } else {
                            old(self).lemma_class_at(avoid, ai + 1);
                        }
                    }
                    let d = old(self).classes@[di as int];
                    assert(old(self).classes@.contains(d));
                    assert(d.bufs@.last() == d.bufs@[0]);
                    lemma_total_remove(pre, di as int);
                    assert(steal_outcome(
                        old(self).classes@,
                        self.classes@,
                        di as int,
                        b,
                        avoid,
                        next_height as int,
                    ));
                }
                Some((b, di))
            },
            Ok(Some(b)) => {
                proof {
                    assert(self.classes@ =~= pre.update(di as int, self.classes@[di as int]));
                    lemma_stealable_update(pre, avoid, di as int, self.classes@[di as int]);
                    assert forall|c2: AnnClass|
                        pre.contains(c2) && c2.reading implies self.classes@.contains(c2) by {
                        let k = choose|k: int| 0 <= k < pre.len() && pre[k] == c2;
                        assert(k != di);
                        assert(self.classes@[k] == c2);
                    }
                    if old(self).has_class(avoid) {
                        let ai = choose|ai: int|
                            0 <= ai < pre.len() && (#[trigger] pre[ai].hw) == avoid;
                        assert(ai != di);
                        self.lemma_class_at(avoid, ai);
                        old(self).lemma_class_at(avoid, ai);
                    }
                    if self.has_class(avoid) {
                        let ai = choose|ai: int|
                            0 <= ai < self.classes@.len() && (#[trigger] self.classes@[ai].hw)
                                == avoid;
                        old(self).lemma_class_at(avoid, ai);
                    }
                    let d = old(self).classes@[di as int];
                    assert(old(self).classes@.contains(d));
                    lemma_total_update(pre, di as int, self.classes@[di as int]);
                    assert(self.classes@[di as int].bufs@ == d.bufs@.drop_last());
                    assert(steal_outcome(
                        old(self).classes@,
                        self.classes@,
                        di as int,
                        b,
                        avoid,
                        next_height as int,
                    ));
                }
                Some((b, di))
            },
        }
    }

    /// Place a whole batch of announcements under `hw`, stealing buffers
    /// from the least valuable other classes whenever the class's top buffer
    /// is full.  No announcement of the batch is dropped: the call succeeds
    /// exactly when the class's free space plus every stealable buffer can
    /// hold the batch, and then the class has grown by the whole batch.
    /// Exhausting every donor is treated by the callers' design as
    /// unreachable (the free pool exists as a fallback); this library
    /// returns it as an error rather than aborting, and the error case
    /// states what remains: the class grew by exactly a prefix of the
    /// batch.
    #[verifier::loop_isolation(false)]
    #[verifier::rlimit(100)]
    pub fn push_anns(&mut self, hw: HeightWork, anns: &Vec<[u8; 32]>) -> (r: Result<
        (),
        StoreError,
    >)
        requires
            old(self).inv(),
            anns@.len() <= old(self).hw_top_free(hw) || old(self).has_blocks(),
            old(self).has_class(hw) ==> !old(self).class_at(hw).reading,
        ensures
            final(self).inv(),
            final(self).recent_blocks == old(self).recent_blocks,
            r is Ok <==> anns@.len() <= old(self).hw_top_free(hw) + ANNBUF_SZ * stealable_bufs(
                old(self).classes@,
                hw,
            ),
            r is Ok ==> final(self).class_count(hw) == old(self).class_count(hw) + anns@.len(),
            r is Ok ==> ann_hashes(class_model_at(*final(self), hw)) == ann_hashes(
                class_model_at(*old(self), hw),
            ) + anns@,
            r is Err ==> (exists|n: int|
                #[trigger] pushed_prefix(*old(self), *final(self), hw, anns@, n)),
            total_bufs(final(self).classes@) == total_bufs(old(self).classes@),
            forall|c: AnnClass|
                old(self).classes@.contains(c) && c.reading ==> final(self).classes@.contains(
                    c,
                ),
    {
        let ghost cap0 = old(self).hw_top_free(hw) + ANNBUF_SZ * stealable_bufs(
            old(self).classes@,
            hw,
        );
        let total = anns.len();
        let mut from: usize = 0;
        let mut next_height: Option<i32> = None;
        proof {
            lemma_stealable_nonneg(old(self).classes@, hw);
            assert(anns@.take(0) =~= Seq::<[u8; 32]>::empty());
            assert(ann_hashes(class_model_at(*self, hw)) =~= ann_hashes(
                class_model_at(*old(self), hw),
            ) + anns@.take(0));
        }
        while from < total
            invariant
                from <= total,
                total == anns@.len(),
                self.inv(),
                self.recent_blocks == old(self).recent_blocks,
                self.class_count(hw) == old(self).class_count(hw) + from,
                ann_hashes(class_model_at(*self, hw)) == ann_hashes(
                    class_model_at(*old(self), hw),
                ) + anns@.take(from as int),
                total_bufs(self.classes@) == total_bufs(old(self).classes@),
                self.hw_top_free(hw) + ANNBUF_SZ * stealable_bufs(self.classes@, hw) == cap0
                    - from,
                self.has_class(hw) ==> !self.class_at(hw).reading,
                forall|c: AnnClass|
                    old(self).classes@.contains(c) && c.reading ==> self.classes@.contains(c),
                !old(self).has_blocks() ==> total - from <= self.hw_top_free(hw),
            decreases 2 * (total - from) + (if self.hw_top_free(hw) > 0 {
                0int
            } else {
                1int
            }),
        {
            let ghost pre = *self;
            let idx_opt = self.find_class(hw);
            let has_space = match idx_opt {
                Some(i) => self.classes[i].anns_space(),
                None => false,
            };
            if has_space {
                let i = idx_opt.unwrap();
                proof {
                    pre.lemma_class_at(hw, i as int);
                }
                let n = self.classes[i].push_anns(anns, from);
                proof {
                    assert(self.classes@ =~= pre.classes@.update(
                        i as int,
                        self.classes@[i as int],
                    ));
                    lemma_stealable_update(pre.classes@, hw, i as int, self.classes@[i as int]);
                    self.lemma_class_at(hw, i as int);
                    assert forall|c: AnnClass|
                        pre.classes@.contains(c) && c.reading implies self.classes@.contains(
                            c,
                        ) by {
                        let k = choose|k: int|
                            0 <= k < pre.classes@.len() && pre.classes@[k] == c;
                        assert(k != i as int);
                        assert(self.classes@[k] == c);
                    }
                    lemma_total_update(pre.classes@, i as int, self.classes@[i as int]);
                    let oldm = class_model_at(pre, hw);
                    let added = crate::ann_buf::entries_for(
                        pre.classes@[i as int].bufs@.last().base as int,
                        pre.classes@[i as int].bufs@.last().count(),
                        anns@.subrange(from as int, (from + n) as int),
                    );
                    assert(class_model_at(*self, hw) == oldm + added);
                    assert(ann_hashes(oldm + added) =~= ann_hashes(oldm) + ann_hashes(added));
                    assert(ann_hashes(added) =~= anns@.subrange(from as int, (from + n) as int));
                    assert(anns@.take((from + n) as int) =~= anns@.take(from as int)
                        + anns@.subrange(from as int, (from + n) as int));
                }
                from = from + n;
            } else {
                // The top buffer is full (or the class does not exist yet):
                // steal a buffer from the least valuable donor.
                if next_height.is_none() {
                    proof {
                        if !old(self).has_blocks() {
                            assert(total - from <= self.hw_top_free(hw));
                        }
                    }
                    let mh = self.max_recent_height();
                    next_height = Some(
                        if mh < i32::MAX {
                            mh + 1
                        } else {
                            i32::MAX
                        },
                    );
                }
                let nh = next_height.unwrap();
                let ghost pre_steal = *self;
                let stolen = self.steal_non_mining_buf(nh, hw);
                let b = match stolen {
                    None => {
                        proof {
                            lemma_stealable_nonneg(self.classes@, hw);
                            assert(pushed_prefix(*old(self), *self, hw, anns@, from as int));
                        }
                        return Err(StoreError::StealExhausted);
                    },
                    Some(p) => p.0,
                };
                let ghost mid = *self;
                proof {
                    assert(class_model_at(mid, hw) == class_model_at(pre_steal, hw));
                }
                let idx_opt2 = self.find_class(hw);
                match idx_opt2 {
                    Some(i) => {
                        proof {
                            mid.lemma_class_at(hw, i as int);
                        }
                        self.classes[i].add_buf(b);
                        proof {
                            assert(self.classes@ =~= mid.classes@.update(
                                i as int,
                                self.classes@[i as int],
                            ));
                            lemma_stealable_update(
                                mid.classes@,
                                hw,
                                i as int,
                                self.classes@[i as int],
                            );
                            self.lemma_class_at(hw, i as int);
                            assert forall|c: AnnClass|
                                mid.classes@.contains(c) && c.reading implies self.classes@.contains(
                                    c,
                                ) by {
                                let k = choose|k: int|
                                    0 <= k < mid.classes@.len() && mid.classes@[k] == c;
                                assert(k != i as int);
                                assert(self.classes@[k] == c);
                            }
                            lemma_total_update(mid.classes@, i as int, self.classes@[i as int]);
                            assert(class_model_at(*self, hw) == class_model_at(mid, hw));
                        }
                    },
                    None => {
                        let c = AnnClass::with_topbuf(b, hw);
                        self.classes.push(c);
                        proof {
                            lemma_stealable_push(mid.classes@, hw, c);
                            self.lemma_class_at(hw, self.classes@.len() - 1);
                            assert forall|c2: AnnClass|
                                mid.classes@.contains(c2) && c2.reading implies self.classes@.contains(
                                    c2,
                                ) by {
                                let k = choose|k: int|
                                    0 <= k < mid.classes@.len() && mid.classes@[k] == c2;
                                assert(self.classes@[k] == c2);
                            }
                            lemma_total_push(mid.classes@, c);
                            assert(c.model().len() == 0);
                            assert(class_model_at(*self, hw) =~= class_model_at(mid, hw));
                            assert(ann_hashes(class_model_at(*self, hw)) =~= ann_hashes(
                                class_model_at(mid, hw),
                            ));
                        }
                    },
                }
            }
        }
        proof {
            lemma_stealable_nonneg(self.classes@, hw);
            assert(anns@.take(total as int) =~= anns@);
        }
        Ok(())
    }
}

/// The announcements a class holds, by key (empty if no such class).
pub open spec fn class_model_at(s: AnnStore, hw: HeightWork) -> Seq<AnnData> {
    if s.has_class(hw) {
        s.class_at(hw).model()
    } else {
        Seq::empty()
    }
}

/// The snapshot a tree build reads: the selected classes' announcements,
/// concatenated in selection order.
pub open spec fn selected_model(s: AnnStore, set: Seq<HeightWork>) -> Seq<AnnData>
    decreases set.len(),
{
    if set.len() == 0 {
        Seq::empty()
    } else {
        class_model_at(s, set[0]) + selected_model(s, set.drop_first())
    }
}

proof fn lemma_model_consistent(bufs: Seq<AnnBuf>)
    ensures
        forall|k: int|
            0 <= k < model_of(bufs).len() ==> (#[trigger] model_of(bufs)[k].hash_pfx) == pfx_of(
                model_of(bufs)[k].hash@,
            ),
    decreases bufs.len(),
{
    if bufs.len() > 0 {
        lemma_model_consistent(bufs.drop_last());
        let pre = model_of(bufs.drop_last());
        let lastm = bufs.last().model();
        assert forall|k: int|
            0 <= k < model_of(bufs).len() implies (#[trigger] model_of(bufs)[k].hash_pfx)
            == pfx_of(model_of(bufs)[k].hash@) by {
            assert(model_of(bufs) == pre + lastm);
            if k < pre.len() {
                assert(model_of(bufs)[k] == pre[k]);
            } else {
                assert(model_of(bufs)[k] == lastm[k - pre.len()]);
            }
        }
    }
}

proof fn lemma_selected_consistent(s: AnnStore, set: Seq<HeightWork>)
    ensures
        forall|k: int|
            0 <= k < selected_model(s, set).len() ==> (#[trigger] selected_model(
                s,
                set,
            )[k].hash_pfx) == pfx_of(selected_model(s, set)[k].hash@),
    decreases set.len(),
{
    if set.len() > 0 {
        if s.has_class(set[0]) {
            lemma_model_consistent(s.class_at(set[0]).bufs@);
        }
        lemma_selected_consistent(s, set.drop_first());
        let head = class_model_at(s, set[0]);
        let tail = selected_model(s, set.drop_first());
        assert forall|k: int|
            0 <= k < selected_model(s, set).len() implies (#[trigger] selected_model(
            s,
            set,
        )[k].hash_pfx) == pfx_of(selected_model(s, set)[k].hash@) by {
            assert(selected_model(s, set) == head + tail);
            if k < head.len() {
                assert(selected_model(s, set)[k] == head[k]);
            } else {
                assert(selected_model(s, set)[k] == tail[k - head.len()]);
            }
        }
    }
}

impl AnnStore {
    /// The classes worth mining now: every class whose age-degraded work is
    /// not the sentinel, snapshotted and sorted ascending by effective work,
    /// the most valuable first.
    /// One snapshot per class, in map order, skipping classes whose
    /// degraded work is the sentinel.
    #[verifier::loop_isolation(false)]
    #[verifier::rlimit(100)]
    fn collect_ready(&self, next_height: i32) -> (r: Vec<ClassInfo>)
        requires
            self.inv(),
        ensures
            forall|k: int|
                0 <= k < r@.len() ==> (#[trigger] r@[k].ann_effective_work) != WORK_SENTINEL,
            forall|k: int|
                0 <= k < r@.len() ==> ready_entry_ok(
                    *self,
                    next_height as int,
                    #[trigger] r@[k],
                ),
            forall|i: int|
                0 <= i < self.classes@.len() && spec_degrade(
                    (#[trigger] self.classes@[i].hw).work,
                    age_of(next_height as int, self.classes@[i].hw.block_height as int),
                ) != WORK_SENTINEL ==> has_ready_entry(r@, self.classes@[i].hw),
            r@.len() == ready_count(self.classes@, next_height as int),
    {
        let m = self.classes.len();
        let mut ready: Vec<ClassInfo> = Vec::new();
        let mut i: usize = 0;
        while i < m
            invariant
                i <= m,
                ready@.len() == ready_count(self.classes@.take(i as int), next_height as int),
                forall|k: int|
                    0 <= k < ready@.len() ==> (#[trigger] ready@[k].ann_effective_work)
                        != WORK_SENTINEL,
                forall|k: int|
                    0 <= k < ready@.len() ==> ready_entry_ok(
                        *self,
                        next_height as int,
                        #[trigger] ready@[k],
                    ),
                forall|j: int|
                    0 <= j < i && spec_degrade(
                        (#[trigger] self.classes@[j].hw).work,
                        age_of(next_height as int, self.classes@[j].hw.block_height as int),
                    ) != WORK_SENTINEL ==> has_ready_entry(ready@, self.classes@[j].hw),
            decreases m - i,
        {
            let aew = self.classes[i].ann_effective_work(next_height);
            let ghost old_ready = ready@;
            proof {
                assert(self.classes@.take(i as int + 1).drop_last() =~= self.classes@.take(
                    i as int,
                ));
                assert(self.classes@.take(i as int + 1).last() == self.classes@[i as int]);
            }
            if aew != WORK_SENTINEL {
                let cnt = self.classes[i].ready_anns();
                let ci = ClassInfo { hw: self.classes[i].hw, ann_count: cnt, ann_effective_work: aew };
                ready.push(ci);
                proof {
                    assert(ready_entry_ok(*self, next_height as int, ci));
                    assert forall|k: int|
                        0 <= k < ready@.len() implies ready_entry_ok(
                        *self,
                        next_height as int,
                        #[trigger] ready@[k],
                    ) by {
                        if k < old_ready.len() {
                            assert(ready@[k] == old_ready[k]);
                        } else {
                            assert(ready@[k] == ci);
                        }
                    }
                }
            }
            i = i + 1;
            proof {
                assert forall|j: int|
                    0 <= j < i && spec_degrade(
                        (#[trigger] self.classes@[j].hw).work,
                        age_of(next_height as int, self.classes@[j].hw.block_height as int),
                    ) != WORK_SENTINEL implies has_ready_entry(ready@, self.classes@[j].hw) by {
                    if j < i - 1 {
                        let k0 = choose|k0: int|
                            0 <= k0 < old_ready.len() && (#[trigger] old_ready[k0].hw)
                                == self.classes@[j].hw;
                        assert(ready@[k0].hw == self.classes@[j].hw);
                    } else {
                        assert(ready@[old_ready.len() as int].hw == self.classes@[j].hw);
                    }
                }
            }
        }
        proof {
            assert(self.classes@.take(m as int) =~= self.classes@);
        }
        ready
    }

    /// The classes worth mining now: exactly one snapshot per class whose
    /// age-degraded work is not the sentinel (the result's length equals the
    /// number of such classes, and every such class's key appears), each
    /// carrying that class's key, announcement count and degraded work,
    /// sorted ascending by effective work — the most valuable classes first.
    #[verifier::rlimit(100)]
    pub fn ready_classes(&self, next_height: i32) -> (r: Vec<ClassInfo>)
        requires
            self.inv(),
        ensures
            r@.len() == ready_count(self.classes@, next_height as int),
            forall|k: int|
                0 <= k < r@.len() ==> (#[trigger] r@[k].ann_effective_work) != WORK_SENTINEL,
            forall|k: int, l: int|
                0 <= k < l < r@.len() ==> r@[k].ann_effective_work <= r@[l].ann_effective_work,
            forall|k: int|
                0 <= k < r@.len() ==> ready_entry_ok(
                    *self,
                    next_height as int,
                    #[trigger] r@[k],
                ),
            forall|i: int|
                0 <= i < self.classes@.len() && spec_degrade(
                    (#[trigger] self.classes@[i].hw).work,
                    age_of(next_height as int, self.classes@[i].hw.block_height as int),
                ) != WORK_SENTINEL ==> has_ready_entry(r@, self.classes@[i].hw),
    {
        let mut ready = self.collect_ready(next_height);
        let ghost unsorted = ready@;
        sort_by_aew(&mut ready);
        proof {
            assert forall|k: int| 0 <= k < ready@.len() implies unsorted.contains(
                #[trigger] ready@[k],
            ) by {
                assert(ready@.contains(ready@[k]));
                assert(ready@.to_multiset().count(ready@[k]) > 0);
                assert(unsorted.to_multiset().count(ready@[k]) > 0);
            }
            assert forall|k: int|
                0 <= k < ready@.len() implies (#[trigger] ready@[k].ann_effective_work)
                != WORK_SENTINEL by {
                let k0 = choose|k0: int| 0 <= k0 < unsorted.len() && unsorted[k0] == ready@[k];
                assert(unsorted[k0].ann_effective_work != WORK_SENTINEL);
            }
            assert forall|k: int|
                0 <= k < ready@.len() implies ready_entry_ok(
                *self,
                next_height as int,
                #[trigger] ready@[k],
            ) by {
                let k0 = choose|k0: int| 0 <= k0 < unsorted.len() && unsorted[k0] == ready@[k];
                assert(ready_entry_ok(*self, next_height as int, unsorted[k0]));
            }
            assert forall|i: int|
                0 <= i < self.classes@.len() && spec_degrade(
                    (#[trigger] self.classes@[i].hw).work,
                    age_of(next_height as int, self.classes@[i].hw.block_height as int),
                ) != WORK_SENTINEL implies has_ready_entry(ready@, self.classes@[i].hw) by {
                assert(has_ready_entry(unsorted, self.classes@[i].hw));
                let k0 = choose|k0: int|
                    0 <= k0 < unsorted.len() && (#[trigger] unsorted[k0].hw)
                        == self.classes@[i].hw;
                assert(unsorted.contains(unsorted[k0]));
                assert(unsorted.to_multiset().count(unsorted[k0]) > 0);
                assert(ready@.to_multiset().count(unsorted[k0]) > 0);
                assert(ready@.contains(unsorted[k0]));
                let k = choose|k: int| 0 <= k < ready@.len() && ready@[k] == unsorted[k0];
                assert(ready@[k].hw == self.classes@[i].hw);
            }
        }
        ready
    }

    /// Copy the selected classes' ready announcements, in selection order,
    /// into one flat buffer: the snapshot the tree is computed over.
    #[verifier::loop_isolation(false)]
    fn collect_selected(&self, set: &Vec<HeightWork>) -> (r: Vec<AnnData>)
        requires
            self.inv(),
            forall|i: int| 0 <= i < set@.len() ==> self.has_class(#[trigger] set@[i]),
        ensures
            r@ == selected_model(*self, set@),
    {
        let ghost sm = selected_model(*self, set@);
        let m = set.len();
        let mut combined: Vec<AnnData> = Vec::new();
        proof {
            assert(set@.skip(0) =~= set@);
        }
        let mut i: usize = 0;
        while i < m
            invariant
                i <= m,
                combined@ + selected_model(*self, set@.skip(i as int)) == sm,
            decreases m - i,
        {
            let idx = match self.find_class(set[i]) {
                Some(idx) => idx,
                None => {
                    proof {
                        assert(self.has_class(set@[i as int]));
                        assert(false);
                    }
                    0
                },
            };
            proof {
                self.lemma_class_at(set@[i as int], idx as int);
                assert(set@.skip(i as int)[0] == set@[i as int]);
                assert(set@.skip(i as int).drop_first() =~= set@.skip(i as int + 1));
                assert(selected_model(*self, set@.skip(i as int)) == class_model_at(
                    *self,
                    set@[i as int],
                ) + selected_model(*self, set@.skip(i as int + 1)));
            }
            self.classes[idx].read_ready_anns(&mut combined);
            i = i + 1;
        }
        proof {
            assert(set@.skip(m as int) =~= Seq::<HeightWork>::empty());
            assert(combined@ =~= sm);
        }
        combined
    }

    /// Build the proof tree over a consistent snapshot of the selected
    /// classes: their ready announcements are copied into the tree's input
    /// buffer in selection order and the tree is computed over exactly that
    /// snapshot.  Every selected key must name an existing class.  The
    /// result is the table of surviving announcements' backing-store slots.
    #[verifier::loop_isolation(false)]
    #[verifier::rlimit(100)]
    pub fn compute_tree(&self, set: &Vec<HeightWork>, pt: &mut ProofTree) -> (r: Result<
        Vec<u32>,
        TreeError,
    >)
        requires
            self.inv(),
            old(pt).wf(),
            forall|i: int| 0 <= i < set@.len() ==> self.has_class(#[trigger] set@[i]),
            forall|k: int|
                0 <= k < selected_model(*self, set@).len() ==> (#[trigger] selected_model(
                    *self,
                    set@,
                )[k].hash_pfx) < u64::MAX,
        ensures
            final(pt).root_hash is Some ==> final(pt).computed_wf(),
            r is Err ==> final(pt).root_hash == old(pt).root_hash,
            (r matches Err(e) && e == TreeError::AlreadyComputed) <==> old(pt).root_hash is Some,
            (r matches Err(e) && e == TreeError::TooMany) <==> (old(pt).root_hash is None
                && selected_model(*self, set@).len() > old(pt).capacity),
            (r matches Err(e) && e == TreeError::NoAnns) <==> (old(pt).root_hash is None
                && selected_model(*self, set@).len() <= old(pt).capacity && (forall|k: int|
                0 <= k < selected_model(*self, set@).len() ==> (#[trigger] selected_model(
                    *self,
                    set@,
                )[k].hash_pfx) == 0)),
            r is Ok <==> (old(pt).root_hash is None && selected_model(*self, set@).len() <= old(
                pt,
            ).capacity && (exists|k: int|
                0 <= k < selected_model(*self, set@).len() && (#[trigger] selected_model(
                    *self,
                    set@,
                )[k].hash_pfx) != 0)),
            r matches Ok(v) ==> final(pt).root_hash is Some && final(pt).computed_wf()
                && valid_survivors(final(pt).survivors@, selected_model(*self, set@)) && v@
                == final(pt).index_table@,
    {
        let combined = self.collect_selected(set);
        proof {
            lemma_selected_consistent(*self, set@);
        }
        let res = compute_over(pt, combined);
        match res {
            Ok(()) => Ok(copy_locs(&pt.index_table)),
            Err(e) => Err(e),
        }
    }
}

/// A caller-owned copy of the surviving announcements' locations.
#[verifier::loop_isolation(false)]
fn copy_locs(t: &Vec<u32>) -> (r: Vec<u32>)
    ensures
        r@ == t@,
{
    let tn = t.len();
    let mut v: Vec<u32> = Vec::new();
    let mut j: usize = 0;
    while j < tn
        invariant
            j <= tn,
            v@ == t@.take(j as int),
        decreases tn - j,
    {
        v.push(t[j]);
        j = j + 1;
        assert(v@ =~= t@.take(j as int));
    }
    assert(v@ =~= t@);
    v
}

/// Hand a flat snapshot to the tree and compute over exactly those
/// announcements.
fn compute_over(pt: &mut ProofTree, combined: Vec<AnnData>) -> (r: Result<(), TreeError>)
    requires
        old(pt).wf(),
        forall|k: int|
            0 <= k < combined@.len() ==> (#[trigger] combined@[k].hash_pfx) == pfx_of(
                combined@[k].hash@,
            ) && combined@[k].hash_pfx < u64::MAX,
    ensures
        final(pt).root_hash is Some ==> final(pt).computed_wf(),
        r is Err ==> final(pt).root_hash == old(pt).root_hash,
        (r matches Err(e) && e == TreeError::AlreadyComputed) <==> old(pt).root_hash is Some,
        (r matches Err(e) && e == TreeError::TooMany) <==> (old(pt).root_hash is None
            && combined@.len() > old(pt).capacity),
        (r matches Err(e) && e == TreeError::NoAnns) <==> (old(pt).root_hash is None
            && combined@.len() <= old(pt).capacity && (forall|k: int|
            0 <= k < combined@.len() ==> (#[trigger] combined@[k].hash_pfx) == 0)),
        r is Ok <==> (old(pt).root_hash is None && combined@.len() <= old(pt).capacity && (exists|
            k: int,
        | 0 <= k < combined@.len() && (#[trigger] combined@[k].hash_pfx) != 0)),
        r is Ok ==> final(pt).root_hash is Some && final(pt).computed_wf() && valid_survivors(
            final(pt).survivors@,
            combined@,
        ),
{
    let count = combined.len();
    let ghost snap = combined@;
    pt.ann_data = combined;
    proof {
        assert(pt.ann_data@.take(count as int) =~= snap);
    }
    let res = pt.compute(count);
    res
}

/// Update one class in place: the pool of stealable buffers changes by the
/// difference of that class's contribution.
proof fn lemma_stealable_update(classes: Seq<AnnClass>, avoid: HeightWork, i: int, c: AnnClass)
    requires
        0 <= i < classes.len(),
        classes[i].hw == c.hw,
        classes[i].reading == c.reading,
    ensures
        stealable_bufs(classes.update(i, c), avoid) == stealable_bufs(classes, avoid) + (if c.hw
            != avoid && !c.reading {
            c.bufs@.len() - classes[i].bufs@.len()
        } else {
            0
        }),
    decreases classes.len(),
{
    if i == classes.len() - 1 {
        assert(classes.update(i, c).drop_last() =~= classes.drop_last());
        assert(classes.update(i, c).last() == c);
        assert(classes[i] == classes.last());
    } else {
        assert(classes.update(i, c).drop_last() =~= classes.drop_last().update(i, c));
        assert(classes.update(i, c).last() == classes.last());
        lemma_stealable_update(classes.drop_last(), avoid, i, c);
        assert(classes.drop_last()[i] == classes[i]);
    }
}

} // verus!
