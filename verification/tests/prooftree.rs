use blkmine::difficulty::{degrade, ANN_WAIT_PERIOD};
use blkmine::prooftree::{entry_count, ProofTree};
use blkmine::types::{AnnData, TreeError, WORK_SENTINEL};

fn mk_hash(p: u8) -> [u8; 32] {
    let mut h = [0u8; 32];
    h[0] = p;
    h
}

fn mk_ann(p: u8, mloc: u32) -> AnnData {
    AnnData { hash_pfx: p as u64, mloc, hash: mk_hash(p) }
}

fn filled_tree(prefixes: &[u8]) -> ProofTree {
    let mut t = ProofTree::new(64);
    for (i, &p) in prefixes.iter().enumerate() {
        t.ann_data[i] = mk_ann(p, i as u32);
    }
    t
}

#[test]
fn commit_layout() {
    let mut t = filled_tree(&[5, 9, 2]);
    t.compute(3).unwrap();
    let w: u32 = 0x2000_0fff;
    let c = t.get_commit(w).unwrap();
    assert_eq!(c.len(), 48);
    assert_eq!(&c[0..4], &[0x09, 0xf9, 0x11, 0x02]);
    assert_eq!(&c[4..8], &w.to_le_bytes());
    assert_eq!(&c[8..40], &t.root_hash.unwrap());
    assert_eq!(&c[40..48], &(t.size as u64).to_le_bytes());
}

#[test]
fn commit_before_compute_fails() {
    let t = filled_tree(&[5]);
    assert_eq!(t.get_commit(1).unwrap_err(), TreeError::NotComputed);
}

#[test]
fn recompute_after_reset_is_identical() {
    let mut t = filled_tree(&[7, 3, 250, 14]);
    t.compute(4).unwrap();
    let root1 = t.root_hash.unwrap();
    let size1 = t.size;
    t.reset();
    t.compute(4).unwrap();
    assert_eq!(t.root_hash.unwrap(), root1);
    assert_eq!(t.size, size1);
}

#[test]
fn order_insensitive() {
    let mut t1 = filled_tree(&[7, 3, 250, 14]);
    let mut t2 = ProofTree::new(64);
    t2.ann_data[0] = mk_ann(250, 2);
    t2.ann_data[1] = mk_ann(14, 3);
    t2.ann_data[2] = mk_ann(3, 1);
    t2.ann_data[3] = mk_ann(7, 0);
    t1.compute(4).unwrap();
    t2.compute(4).unwrap();
    assert_eq!(t1.root_hash.unwrap(), t2.root_hash.unwrap());
    assert_eq!(t1.size, t2.size);
}

#[test]
fn duplicate_prefixes_collapse() {
    let mut dup = filled_tree(&[9, 9, 9, 4]);
    dup.compute(4).unwrap();
    let mut uniq = filled_tree(&[9, 6, 8, 4]);
    uniq.compute(4).unwrap();
    // Three announcements share one prefix: the size drops by two.
    assert_eq!(dup.size, 2);
    assert_eq!(uniq.size, 4);
    assert_eq!(uniq.size - dup.size, 2);
}

#[test]
fn zero_prefix_collides_with_sentinel() {
    let mut t = filled_tree(&[0, 5]);
    t.compute(2).unwrap();
    assert_eq!(t.size, 1);
    let mut z = filled_tree(&[0]);
    assert_eq!(z.compute(1).unwrap_err(), TreeError::NoAnns);
}

#[test]
fn compute_error_cases() {
    let mut t = filled_tree(&[5]);
    assert_eq!(t.compute(0).unwrap_err(), TreeError::NoAnns);
    assert_eq!(t.compute(65).unwrap_err(), TreeError::TooMany);
    t.compute(1).unwrap();
    assert_eq!(t.compute(1).unwrap_err(), TreeError::AlreadyComputed);
    t.reset();
    t.compute(1).unwrap();
}

#[test]
fn index_table_keeps_locations() {
    let mut t = filled_tree(&[20, 10, 30]);
    t.compute(3).unwrap();
    // Sorted by prefix: 10 (mloc 1), 20 (mloc 0), 30 (mloc 2).
    assert_eq!(t.index_table, vec![1, 0, 2]);
}

#[test]
fn proof_for_valid_indices() {
    let mut t = filled_tree(&[5, 9, 2, 77]);
    t.compute(4).unwrap();
    let p = t.mk_proof(&[0, 1, 2, 3]).unwrap();
    assert!(p.len() > 0);
}

#[test]
fn proof_error_cases() {
    let mut t = filled_tree(&[5, 9]);
    assert_eq!(t.mk_proof(&[0, 0, 0, 0]).unwrap_err(), TreeError::NotComputed);
    t.compute(2).unwrap();
    assert_eq!(t.mk_proof(&[0, 1, 2, 0]).unwrap_err(), TreeError::OutOfRange);
    assert!(t.mk_proof(&[0, 1, 1, 0]).is_ok());
}

#[test]
fn proof_depends_on_tree() {
    let mut t1 = filled_tree(&[5, 9]);
    t1.compute(2).unwrap();
    let mut t2 = filled_tree(&[5, 11]);
    t2.compute(2).unwrap();
    assert_ne!(
        t1.mk_proof(&[0, 0, 0, 0]).unwrap(),
        t2.mk_proof(&[0, 0, 0, 0]).unwrap()
    );
}

#[test]
fn entry_count_formula() {
    // One announcement plus the sentinel: two leaves and a root.
    assert_eq!(entry_count(1), 3);
    // Two announcements: three leaves, one pad, two parents, one root.
    assert_eq!(entry_count(2), 7);
    assert_eq!(entry_count(0), 1);
}

#[test]
fn degrade_basics() {
    // Too young, too old, and exactly at the wait period.
    assert_eq!(degrade(0x2000_0fff, 0), WORK_SENTINEL);
    assert_eq!(degrade(0x2000_0fff, 300), WORK_SENTINEL);
    assert_eq!(degrade(0x2000_0fff, ANN_WAIT_PERIOD), 0x2000_0fff);
    // The sentinel never becomes usable.
    assert_eq!(degrade(WORK_SENTINEL, 5), WORK_SENTINEL);
    // One block past the wait period doubles the target.
    assert_eq!(degrade(0x1800_00ff, 4), 0x1701_fe00);
    // Doubling past the maximum target is unusable.
    assert_eq!(degrade(0x207f_ffff, 4), WORK_SENTINEL);
}
