use blkmine::ann_buf::{AnnBuf, ANNBUF_SZ};
use blkmine::ann_class::AnnClass;
use blkmine::ann_store::AnnStore;
use blkmine::prooftree::ProofTree;
use blkmine::types::{HeightWork, StoreError};

fn mk_hash(p: u8) -> [u8; 32] {
    let mut h = [0u8; 32];
    h[0] = p;
    h
}

fn hashes(n: usize) -> Vec<[u8; 32]> {
    // Distinct prefixes: vary the first two bytes.
    let mut v = Vec::new();
    for i in 0..n {
        let mut h = [0u8; 32];
        h[0] = (i % 251 + 1) as u8;
        h[1] = (i / 251) as u8;
        v.push(h);
    }
    v
}

const HW: HeightWork = HeightWork { block_height: 1, work: 0x2000_0fff };

#[test]
fn push_keeps_every_announcement() {
    let mut store = AnnStore::new(4 * ANNBUF_SZ);
    store.block(1, mk_hash(1));
    let batch = hashes(10);
    store.push_anns(HW, &batch).unwrap();
    // The sum of ready counts under this key equals the batch size.
    let ready = store.ready_classes(5);
    let total: usize = ready
        .iter()
        .filter(|ci| ci.hw == HW)
        .map(|ci| ci.ann_count)
        .sum();
    assert_eq!(total, 10);
}

#[test]
fn push_spans_buffers_by_stealing() {
    let mut store = AnnStore::new(2 * ANNBUF_SZ);
    store.block(1, mk_hash(1));
    let batch = hashes(ANNBUF_SZ + 100);
    store.push_anns(HW, &batch).unwrap();
    let ready = store.ready_classes(5);
    let total: usize = ready
        .iter()
        .filter(|ci| ci.hw == HW)
        .map(|ci| ci.ann_count)
        .sum();
    assert_eq!(total, ANNBUF_SZ + 100);
}

#[test]
fn push_fails_when_nothing_stealable() {
    let mut store = AnnStore::new(ANNBUF_SZ);
    store.block(1, mk_hash(1));
    // One buffer in the whole store: a second buffer can never be found.
    let batch = hashes(ANNBUF_SZ + 1);
    assert_eq!(store.push_anns(HW, &batch).unwrap_err(), StoreError::StealExhausted);
}

#[test]
fn ready_classes_excludes_free_pool() {
    let store = AnnStore::new(2 * ANNBUF_SZ);
    // Only the sentinel-keyed free pool exists; its degraded work is the
    // sentinel at every age, so nothing is ready.
    assert_eq!(store.ready_classes(100).len(), 0);
}

#[test]
fn ready_classes_sorted_by_effective_work() {
    let mut store = AnnStore::new(8 * ANNBUF_SZ);
    store.block(10, mk_hash(1));
    let hw2 = HeightWork { block_height: 1, work: 0x1f00_ffff };
    store.push_anns(HW, &hashes(5)).unwrap();
    store.push_anns(hw2, &hashes(7)).unwrap();
    let ready = store.ready_classes(11);
    assert!(ready.len() >= 2);
    for w in ready.windows(2) {
        assert!(w[0].ann_effective_work <= w[1].ann_effective_work);
    }
    for ci in &ready {
        assert_ne!(ci.ann_effective_work, 0xffff_ffff);
    }
}

#[test]
fn steal_refused_while_reading() {
    let mut class = AnnClass::with_topbuf(AnnBuf::new(0), HW);
    class.begin_read();
    assert!(class.steal_buf().is_err());
    class.end_read();
    // Down to its last buffer: the class offers itself for destruction
    // instead of a buffer.
    assert!(matches!(class.steal_buf(), Ok(None)));
}

#[test]
fn compute_tree_over_store_snapshot() {
    let mut store = AnnStore::new(4 * ANNBUF_SZ);
    store.block(1, mk_hash(1));
    store.push_anns(HW, &hashes(37)).unwrap();
    let mut pt = ProofTree::new(4 * ANNBUF_SZ as u32);
    let locs = store.compute_tree(&vec![HW], &mut pt).unwrap();
    // Distinct prefixes: every announcement survives deduplication.
    assert_eq!(locs.len(), 37);
    assert_eq!(pt.size, 37);
    assert!(pt.root_hash.is_some());
    assert!(pt.get_commit(HW.work).is_ok());
}

#[test]
fn compute_tree_missing_reset_fails() {
    let mut store = AnnStore::new(4 * ANNBUF_SZ);
    store.block(1, mk_hash(1));
    store.push_anns(HW, &hashes(3)).unwrap();
    let mut pt = ProofTree::new(64);
    store.compute_tree(&vec![HW], &mut pt).unwrap();
    assert!(store.compute_tree(&vec![HW], &mut pt).is_err());
    pt.reset();
    assert!(store.compute_tree(&vec![HW], &mut pt).is_ok());
}
