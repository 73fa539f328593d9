use vstd::prelude::*;
use blake2::Digest;
use rayon::slice::ParallelSliceMut;
use crate::types::{AnnData, TreeError, le32, le64, pfx_of, push_hash, push_le32, push_le64};

verus! {

broadcast use vstd::array::group_array_axioms, vstd::seq_lib::group_to_multiset_ensures;

/// One node of the interval tree: a hash and the half-open prefix interval
/// `[start, end)` that the node's subtree owns.
#[derive(Clone, Copy)]
pub struct Entry {
    pub hash: [u8; 32],
    pub start: u64,
    pub end: u64,
}

/// The mathematical shape of an entry: its hash as a byte sequence.
pub struct GEntry {
    pub hash: Seq<u8>,
    pub start: u64,
    pub end: u64,
}

impl View for Entry {
    type V = GEntry;

    open spec fn view(&self) -> GEntry {
        GEntry { hash: self.hash@, start: self.start, end: self.end }
    }
}

/// The all-zero hash.
pub open spec fn zero_hash_seq() -> Seq<u8> {
    Seq::new(32, |i: int| 0u8)
}

/// The all-ones hash of the padding entry.
pub open spec fn ff_hash_seq() -> Seq<u8> {
    Seq::new(32, |i: int| 0xffu8)
}

/// The fixed sentinel leaf owning everything below the smallest real prefix.
pub open spec fn zero_gentry(end: u64) -> GEntry {
    GEntry { hash: zero_hash_seq(), start: 0u64, end: end }
}

/// The fully saturated padding entry appended to odd layers; its collapsed
/// interval `[MAX, MAX]` matches no real hash.
pub open spec fn ff_gentry() -> GEntry {
    GEntry { hash: ff_hash_seq(), start: u64::MAX, end: u64::MAX }
}

/// The 48 bytes of an entry as they are hashed: hash, then little-endian
/// start and end.
pub open spec fn gentry_bytes(e: GEntry) -> Seq<u8> {
    e.hash + le64(e.start) + le64(e.end)
}

/// The digest of a byte string under the tree's hash function.
/// It depends on the input bytes alone.
pub uninterp spec fn digest_of(data: Seq<u8>) -> Seq<u8>;

/// Relies on blake2's Blake2b with a 32-byte digest: the output is a pure
/// function of the input bytes.
#[verifier::external_body]
fn blake2b_256(data: &Vec<u8>) -> (r: [u8; 32])
    ensures
        r@ == digest_of(data@),
{
    let mut hasher = blake2::Blake2b::<blake2::digest::consts::U32>::new();
    hasher.update(data.as_slice());
    hasher.finalize().into()
}

/// Ascending by 64-bit hash prefix.
pub open spec fn sorted_by_pfx(s: Seq<AnnData>) -> bool {
    forall|i: int, j: int| 0 <= i < j < s.len() ==> s[i].hash_pfx <= s[j].hash_pfx
}

/// Relies on rayon's `par_sort_unstable_by_key`: it reorders the first
/// `count` elements, in place, into a permutation of themselves that ascends
/// by the key; the tail is untouched.
#[verifier::external_body]
fn par_sort_prefix_by_pfx(v: &mut Vec<AnnData>, count: usize)
    requires
        count <= old(v)@.len(),
    ensures
        final(v)@.len() == old(v)@.len(),
        final(v)@.take(count as int).to_multiset() == old(v)@.take(count as int).to_multiset(),
        sorted_by_pfx(final(v)@.take(count as int)),
        final(v)@.skip(count as int) == old(v)@.skip(count as int),
{
    v[..count].par_sort_unstable_by_key(|a| a.hash_pfx);
}

#[verifier::external_type_specification]
#[verifier::external_body]
pub struct ExBytesMut(bytes::BytesMut);

/// The bytes a `BytesMut` buffer holds.
pub uninterp spec fn bytes_of(b: bytes::BytesMut) -> Seq<u8>;

/// Relies on `BytesMut::from(&[u8])`: the new buffer holds a copy of the
/// input bytes.
#[verifier::external_body]
fn bytesmut_from_vec(v: &Vec<u8>) -> (r: bytes::BytesMut)
    ensures
        bytes_of(r) == v@,
{
    bytes::BytesMut::from(v.as_slice())
}

/// The surviving announcements a tree was built over: strictly ascending by
/// prefix, no zero prefixes, drawn from the input, and covering every nonzero
/// prefix the input holds.
pub open spec fn valid_survivors(ss: Seq<AnnData>, input: Seq<AnnData>) -> bool {
    &&& forall|i: int, j: int| 0 <= i < j < ss.len() ==> ss[i].hash_pfx < ss[j].hash_pfx
    &&& forall|i: int| 0 <= i < ss.len() ==> (#[trigger] ss[i].hash_pfx) != 0 && input.contains(
        ss[i],
    )
    &&& forall|j: int|
        0 <= j < input.len() && (#[trigger] input[j].hash_pfx) != 0 ==> exists|i: int|
            0 <= i < ss.len() && ss[i].hash_pfx == input[j].hash_pfx
}

/// Survivors validated against the sorted working copy are valid for the
/// original snapshot too: a sort only permutes, so membership, coverage and
/// the prefix bound all transfer.
proof fn lemma_survivors_valid(ss: Seq<AnnData>, work: Seq<AnnData>, input: Seq<AnnData>)
    requires
        work.to_multiset() == input.to_multiset(),
        forall|i: int, j: int| 0 <= i < j < ss.len() ==> ss[i].hash_pfx < ss[j].hash_pfx,
        forall|k: int|
            0 <= k < ss.len() ==> (#[trigger] ss[k].hash_pfx) != 0 && work.contains(ss[k]),
        forall|j: int|
            0 <= j < work.len() && (#[trigger] work[j].hash_pfx) != 0 ==> exists|k: int|
                0 <= k < ss.len() && ss[k].hash_pfx == work[j].hash_pfx,
        forall|k: int| 0 <= k < input.len() ==> (#[trigger] input[k].hash_pfx) < u64::MAX,
    ensures
        valid_survivors(ss, input),
        forall|k: int| 0 <= k < ss.len() ==> (#[trigger] ss[k].hash_pfx) < u64::MAX,
{
    assert forall|a: AnnData| work.contains(a) <==> input.contains(a) by {
        vstd::seq_lib::to_multiset_contains(work, a);
        vstd::seq_lib::to_multiset_contains(input, a);
        assert(work.to_multiset().count(a) == input.to_multiset().count(a));
    }
    assert forall|k: int| 0 <= k < ss.len() implies input.contains(#[trigger] ss[k]) by {
        let p = ss[k].hash_pfx;
        assert(work.contains(ss[k]));
    }
    assert forall|j: int|
        0 <= j < input.len() && (#[trigger] input[j].hash_pfx) != 0 implies exists|k: int|
        0 <= k < ss.len() && ss[k].hash_pfx == input[j].hash_pfx by {
        assert(input.contains(input[j]));
        assert(work.contains(input[j]));
        let l = choose|l: int| 0 <= l < work.len() && work[l] == input[j];
        assert(work[l].hash_pfx != 0);
    }
    assert forall|k: int| 0 <= k < ss.len() implies (#[trigger] ss[k].hash_pfx) < u64::MAX by {
        assert(work.contains(ss[k]));
        assert(input.contains(ss[k]));
        let j = choose|j: int| 0 <= j < input.len() && input[j] == ss[k];
        assert(input[j].hash_pfx < u64::MAX);
    }
}

/// The leaf layer over the survivors: the zero sentinel, then one leaf per
/// survivor, each owning the prefix interval up to the next survivor, the
/// last up to the largest 64-bit value.
pub open spec fn leaves_of(ss: Seq<AnnData>) -> Seq<GEntry> {
    Seq::new(
        ss.len() + 1,
        |i: int|
            if i == 0 {
                zero_gentry(ss[0].hash_pfx)
            } else {
                GEntry {
                    hash: ss[i - 1].hash@,
                    start: ss[i - 1].hash_pfx,
                    end: if i < ss.len() { ss[i].hash_pfx } else { u64::MAX },
                }
            },
    )
}

/// A layer padded to even length with the saturated entry.
pub open spec fn pad_layer(l: Seq<GEntry>) -> Seq<GEntry> {
    if l.len() % 2 == 1 {
        l.push(ff_gentry())
    } else {
        l
    }
}

/// A parent node: the digest of its two children's bytes, owning the union of
/// their intervals.
pub open spec fn combine_g(a: GEntry, b: GEntry) -> GEntry {
    GEntry { hash: digest_of(gentry_bytes(a) + gentry_bytes(b)), start: a.start, end: b.end }
}

/// The layer above an even layer: adjacent pairs combined.
pub open spec fn next_layer(l: Seq<GEntry>) -> Seq<GEntry> {
    Seq::new(l.len() / 2, |i: int| combine_g(l[2 * i], l[2 * i + 1]))
}

/// The root entry reached by repeatedly padding and pairing a layer.
pub open spec fn root_entry_of(l: Seq<GEntry>) -> GEntry
    decreases l.len(),
{
    if l.len() <= 1 {
        if l.len() == 1 {
            l[0]
        } else {
            ff_gentry()
        }
    } else {
        root_entry_of(next_layer(pad_layer(l)))
    }
}

/// The root commitment over a survivor set: the digest of the root entry.
pub open spec fn root_hash_of(ss: Seq<AnnData>) -> Seq<u8> {
    digest_of(gentry_bytes(root_entry_of(leaves_of(ss))))
}

/// The views of a layer's entries.
pub open spec fn views_of(l: Seq<Entry>) -> Seq<GEntry> {
    l.map(|i: int, e: Entry| e@)
}

/// Entries held by a run of layers.
pub open spec fn total_layer_entries(layers: Seq<Vec<Entry>>) -> int
    decreases layers.len(),
{
    if layers.len() == 0 {
        0
    } else {
        total_layer_entries(layers.drop_last()) + layers.last()@.len()
    }
}

/// Entries of the scratch table for a padded binary tree over `n` leaves: the
/// padded size of every layer, plus the root.
pub open spec fn spec_entry_count(n: nat) -> nat
    decreases n,
{
    if n <= 1 {
        1
    } else {
        let p = (n + n % 2) as nat;
        (p + spec_entry_count((p / 2) as nat)) as nat
    }
}

proof fn lemma_entry_count_bound(n: nat)
    ensures
        spec_entry_count(n) <= 4 * n + 1,
    decreases n,
{
    if n > 1 {
        let p = (n + n % 2) as nat;
        let h = (p / 2) as nat;
        lemma_entry_count_bound(h);
        assert(p == 2 * h);
    }
}

/// The scratch-table sizing formula: entries of a padded binary tree over up
/// to `max_anns + 1` leaves, the extra leaf for the zero sentinel.
pub fn entry_count(max_anns: u32) -> (r: u64)
    ensures
        r == spec_entry_count((max_anns + 1) as nat),
{
    let total: u64 = max_anns as u64 + 1;
    let mut n: u64 = total;
    let mut out: u64 = 0;
    proof {
        lemma_entry_count_bound(total as nat);
    }
    while n > 1
        invariant
            out + spec_entry_count(n as nat) == spec_entry_count(total as nat),
            spec_entry_count(total as nat) <= 4 * total + 1,
            total <= 0x1_0000_0000u64,
            n <= total,
        decreases n,
    {
        proof {
            lemma_entry_count_bound(n as nat);
        }
        let p: u64 = n + n % 2;
        out = out + p;
        n = p / 2;
    }
    out + 1
}

/// A parent entry: the digest of its children's bytes over the union of
/// their intervals.
fn combine_entries(a: &Entry, b: &Entry) -> (r: Entry)
    ensures
        r@ == combine_g(a@, b@),
{
    let mut buf: Vec<u8> = Vec::new();
    push_hash(&mut buf, &a.hash);
    push_le64(&mut buf, a.start);
    push_le64(&mut buf, a.end);
    push_hash(&mut buf, &b.hash);
    push_le64(&mut buf, b.start);
    push_le64(&mut buf, b.end);
    assert(buf@ =~= gentry_bytes(a@) + gentry_bytes(b@));
    let h = blake2b_256(&buf);
    Entry { hash: h, start: a.start, end: b.end }
}

/// The fixed 4-byte magic opening every commitment.
pub open spec fn commit_magic() -> Seq<u8> {
    seq![0x09u8, 0xf9u8, 0x11u8, 0x02u8]
}

/// The serialized commitment: magic, minimum work, root hash, set size.
pub open spec fn spec_commit(min_work: u32, root: Seq<u8>, size: u32) -> Seq<u8> {
    commit_magic() + le32(min_work) + root + le64(size as u64)
}

/// One pass over a prefix-sorted batch: keep the first announcement of each
/// prefix run, dropping prefix zero (it would repeat the sentinel leaf), and
/// record each survivor's backing-store location.
#[verifier::loop_isolation(false)]
fn dedup_sorted(work: &Vec<AnnData>) -> (r: (Vec<AnnData>, Vec<u32>))
    requires
        sorted_by_pfx(work@),
    ensures
        r.1@.len() == r.0@.len(),
        r.0@.len() <= work@.len(),
        forall|k: int| 0 <= k < r.0@.len() ==> r.1@[k] == r.0@[k].mloc,
        forall|k: int, l: int| 0 <= k < l < r.0@.len() ==> r.0@[k].hash_pfx < r.0@[l].hash_pfx,
        forall|k: int|
            0 <= k < r.0@.len() ==> (#[trigger] r.0@[k].hash_pfx) != 0 && work@.contains(r.0@[k]),
        forall|j: int|
            0 <= j < work@.len() && (#[trigger] work@[j].hash_pfx) != 0 ==> exists|k: int|
                0 <= k < r.0@.len() && r.0@[k].hash_pfx == work@[j].hash_pfx,
{
    let count = work.len();
    let mut survivors: Vec<AnnData> = Vec::new();
    let mut itable: Vec<u32> = Vec::new();
    let mut last_pfx: u64 = 0;
    let mut i: usize = 0;
    while i < count
        invariant
            i <= count,
            survivors@.len() <= i,
            itable@.len() == survivors@.len(),
            forall|k: int| 0 <= k < itable@.len() ==> itable@[k] == survivors@[k].mloc,
            forall|k: int, l: int|
                0 <= k < l < survivors@.len() ==> survivors@[k].hash_pfx < survivors@[l].hash_pfx,
            forall|k: int|
                0 <= k < survivors@.len() ==> (#[trigger] survivors@[k].hash_pfx) != 0
                    && work@.contains(survivors@[k]),
            last_pfx == 0 || (exists|j: int| 0 <= j < i && work@[j].hash_pfx == last_pfx),
            survivors@.len() > 0 ==> last_pfx == survivors@[survivors@.len() - 1].hash_pfx,
            survivors@.len() == 0 ==> last_pfx == 0,
            forall|j: int| 0 <= j < i ==> (#[trigger] work@[j].hash_pfx) <= last_pfx,
            forall|j: int|
                0 <= j < i && (#[trigger] work@[j].hash_pfx) != 0 ==> exists|k: int|
                    0 <= k < survivors@.len() && survivors@[k].hash_pfx == work@[j].hash_pfx,
        decreases count - i,
    {
        let d = work[i];
        let ghost old_surv = survivors@;
        if d.hash_pfx != last_pfx {
            proof {
                if last_pfx != 0 {
                    let j = choose|j: int| 0 <= j < i && work@[j].hash_pfx == last_pfx;
                    assert(work@[j].hash_pfx <= work@[i as int].hash_pfx);
                }
            }
            survivors.push(d);
            itable.push(d.mloc);
            last_pfx = d.hash_pfx;
            proof {
                assert(survivors@ == old_surv.push(d));
                assert forall|j: int|
                    0 <= j < i + 1 && (#[trigger] work@[j].hash_pfx) != 0 implies exists|k: int|
                    0 <= k < survivors@.len() && survivors@[k].hash_pfx == work@[j].hash_pfx by {
                    if j < i {
                        let k = choose|k: int|
                            0 <= k < old_surv.len() && old_surv[k].hash_pfx == work@[j].hash_pfx;
                        assert(survivors@[k].hash_pfx == work@[j].hash_pfx);
                    } else {
                        assert(survivors@[old_surv.len() as int].hash_pfx == work@[j].hash_pfx);
                    }
                }
            }
        } else {
            proof {
                assert forall|j: int|
                    0 <= j < i + 1 && (#[trigger] work@[j].hash_pfx) != 0 implies exists|k: int|
                    0 <= k < survivors@.len() && survivors@[k].hash_pfx == work@[j].hash_pfx by {
                    if j == i {
                        assert(survivors@.len() > 0);
                        assert(survivors@[survivors@.len() - 1].hash_pfx == work@[j].hash_pfx);
                    }
                }
            }
        }
        i = i + 1;
    }
    (survivors, itable)
}

/// The leaf layer for a survivor set: the zero sentinel, then one leaf per
/// survivor.
#[verifier::loop_isolation(false)]
fn build_leaves(survivors: &Vec<AnnData>) -> (cur: Vec<Entry>)
    requires
        survivors@.len() >= 1,
    ensures
        views_of(cur@) == leaves_of(survivors@),
        cur@.len() == survivors@.len() + 1,
{
    let ghost ss = survivors@;
    let zh = [0u8; 32];
    let n = survivors.len();
    let mut cur: Vec<Entry> = Vec::new();
    cur.push(Entry { hash: zh, start: 0, end: survivors[0].hash_pfx });
    proof {
        assert(zh@ =~= zero_hash_seq());
        assert(views_of(cur@) =~= leaves_of(ss).take(1));
    }
    let mut i: usize = 0;
    while i < n
        invariant
            i <= n,
            cur@.len() == i + 1,
            views_of(cur@) == leaves_of(ss).take(i as int + 1),
        decreases n - i,
    {
        let e = survivors[i];
        let end_v: u64 = if i + 1 < n {
            survivors[i + 1].hash_pfx
        } else {
            u64::MAX
        };
        cur.push(Entry { hash: e.hash, start: e.hash_pfx, end: end_v });
        i = i + 1;
        assert(views_of(cur@) =~= leaves_of(ss).take(i as int + 1));
    }
    assert(views_of(cur@) =~= leaves_of(ss));
    cur
}

/// Pad and pair layers bottom-up until a single root entry remains, keeping
/// every layer for later proofs.
#[verifier::loop_isolation(false)]
#[verifier::rlimit(100)]
fn build_layers(first: Vec<Entry>) -> (layers: Vec<Vec<Entry>>)
    requires
        first@.len() >= 2,
    ensures
        layers@.len() >= 2,
        views_of(layers@[0]@) == pad_layer(views_of(first@)),
        forall|j: int|
            0 <= j < layers@.len() - 2 ==> views_of(#[trigger] layers@[j + 1]@) == pad_layer(
                next_layer(views_of(layers@[j]@)),
            ),
        views_of(layers@[layers@.len() - 1]@) == next_layer(
            views_of(layers@[layers@.len() - 2]@),
        ),
        layers@[layers@.len() - 1]@.len() == 1,
        forall|j: int|
            0 <= j < layers@.len() - 1 ==> (#[trigger] layers@[j]@.len()) % 2 == 0
                && layers@[j]@.len() >= 2,
        layers@[layers@.len() - 1]@[0]@ == root_entry_of(views_of(first@)),
        total_layer_entries(layers@) == spec_entry_count(first@.len() as nat),
{
    let ghost l0 = views_of(first@);
    let ghost n0 = first@.len();
    let fh = [0xffu8; 32];
    let mut cur = first;
    let mut layers: Vec<Vec<Entry>> = Vec::new();
    while cur.len() > 1
        invariant
            cur@.len() >= 1,
            root_entry_of(views_of(cur@)) == root_entry_of(l0),
            layers@.len() == 0 ==> views_of(cur@) == l0 && cur@.len() >= 2,
            layers@.len() > 0 ==> views_of(cur@) == next_layer(
                views_of(layers@[layers@.len() - 1]@),
            ),
            layers@.len() > 0 ==> views_of(layers@[0]@) == pad_layer(l0),
            forall|j: int|
                0 <= j < layers@.len() - 1 ==> views_of(#[trigger] layers@[j + 1]@) == pad_layer(
                    next_layer(views_of(layers@[j]@)),
                ),
            forall|j: int|
                0 <= j < layers@.len() ==> (#[trigger] layers@[j]@.len()) % 2 == 0
                    && layers@[j]@.len() >= 2,
            total_layer_entries(layers@) + spec_entry_count(cur@.len() as nat)
                == spec_entry_count(n0 as nat),
        decreases cur@.len(),
    {
        let ghost before = views_of(cur@);
        let ghost n_before = cur@.len();
        if cur.len() % 2 == 1 {
            cur.push(Entry { hash: fh, start: u64::MAX, end: u64::MAX });
            proof {
                assert(fh@ =~= ff_hash_seq());
                assert(views_of(cur@) =~= pad_layer(before));
            }
        } else {
            assert(views_of(cur@) =~= pad_layer(before));
        }
        let mut next: Vec<Entry> = Vec::new();
        let mut k: usize = 0;
        while k < cur.len()
            invariant
                k % 2 == 0,
                k <= cur@.len(),
                cur@.len() % 2 == 0,
                views_of(cur@) == pad_layer(before),
                next@.len() == k / 2,
                views_of(next@) == next_layer(views_of(cur@)).take((k / 2) as int),
            decreases cur@.len() - k,
        {
            let a = cur[k];
            let b = cur[k + 1];
            let e = combine_entries(&a, &b);
            next.push(e);
            k = k + 2;
            assert(views_of(next@) =~= next_layer(views_of(cur@)).take((k / 2) as int));
        }
        assert(views_of(next@) =~= next_layer(pad_layer(before)));
        proof {
            assert(root_entry_of(before) == root_entry_of(next_layer(pad_layer(before))));
        }
        let ghost old_layers = layers@;
        layers.push(cur);
        proof {
            assert(layers@.drop_last() =~= old_layers);
            assert(layers@.last() == cur);
            assert(cur@.len() == n_before + n_before % 2);
            assert(spec_entry_count(n_before as nat) == cur@.len() + spec_entry_count(
                (cur@.len() / 2) as nat,
            ));
        }
        cur = next;
    }
    proof {
        assert(cur@.len() == 1);
        assert(layers@.len() >= 1);
        assert(views_of(cur@)[0] == root_entry_of(views_of(cur@)));
    }
    let ghost old_layers = layers@;
    layers.push(cur);
    proof {
        assert(layers@.drop_last() =~= old_layers);
        assert(layers@.last() == cur);
        assert(spec_entry_count(1) == 1);
    }
    layers
}

/// The digest of one entry's 48 bytes; the root commitment is this digest of
/// the root entry.
fn root_digest(e: &Entry) -> (r: [u8; 32])
    ensures
        r@ == digest_of(gentry_bytes(e@)),
{
    let mut rb: Vec<u8> = Vec::new();
    push_hash(&mut rb, &e.hash);
    push_le64(&mut rb, e.start);
    push_le64(&mut rb, e.end);
    assert(rb@ =~= gentry_bytes(e@));
    blake2b_256(&rb)
}

/// The views of every stored layer.
pub open spec fn all_layer_views(layers: Seq<Vec<Entry>>) -> Seq<Seq<GEntry>> {
    layers.map(|i: int, l: Vec<Entry>| views_of(l@))
}

/// The sibling entries met walking from a leaf up to (but not into) the root
/// layer: the proof material for one announcement.
pub open spec fn sibling_bytes(layers: Seq<Seq<GEntry>>, leaf: int) -> Seq<u8>
    decreases layers.len(),
{
    if layers.len() <= 1 {
        Seq::empty()
    } else {
        let sib = if leaf % 2 == 0 {
            leaf + 1
        } else {
            leaf - 1
        };
        gentry_bytes(layers[0][sib]) + sibling_bytes(layers.drop_first(), leaf / 2)
    }
}

/// The serialized proof for four announcement numbers: their four sibling
/// paths, concatenated.  Leaf `k + 1` backs announcement `k`; leaf 0 is the
/// sentinel.
pub open spec fn spec_proof(layers: Seq<Vec<Entry>>, nums: Seq<u64>) -> Seq<u8> {
    sibling_bytes(all_layer_views(layers), nums[0] as int + 1) + sibling_bytes(
        all_layer_views(layers),
        nums[1] as int + 1,
    ) + sibling_bytes(all_layer_views(layers), nums[2] as int + 1) + sibling_bytes(
        all_layer_views(layers),
        nums[3] as int + 1,
    )
}

/// Append the sibling path of one leaf, bottom layer to the one below the
/// root.
#[verifier::loop_isolation(false)]
fn path_bytes(layers: &Vec<Vec<Entry>>, leaf: usize, out: &mut Vec<u8>)
    requires
        layers@.len() >= 2,
        leaf < layers@[0]@.len(),
        forall|j: int| 0 <= j < layers@.len() - 1 ==> (#[trigger] layers@[j]@.len()) % 2 == 0,
        forall|j: int|
            0 <= j < layers@.len() - 1 ==> (#[trigger] layers@[j + 1]@.len()) >= layers@[j]@.len()
                / 2,
    ensures
        final(out)@ == old(out)@ + sibling_bytes(all_layer_views(layers@), leaf as int),
{
    let ghost avs = all_layer_views(layers@);
    let n = layers.len();
    let mut ln = leaf;
    proof {
        assert(avs.skip(0) =~= avs);
    }
    let mut j: usize = 0;
    while j < n - 1
        invariant
            j <= n - 1,
            ln < layers@[j as int]@.len(),
            out@ + sibling_bytes(avs.skip(j as int), ln as int) == old(out)@ + sibling_bytes(
                avs,
                leaf as int,
            ),
        decreases n - 1 - j,
    {
        let sib = if ln % 2 == 0 {
            ln + 1
        } else {
            ln - 1
        };
        let e = layers[j][sib];
        let ghost pre = out@;
        push_hash(out, &e.hash);
        push_le64(out, e.start);
        push_le64(out, e.end);
        proof {
            assert(out@ =~= pre + gentry_bytes(e@));
            assert(avs.skip(j as int)[0] == avs[j as int]);
            assert(avs[j as int] == views_of(layers@[j as int]@));
            assert(avs[j as int][sib as int] == e@);
            assert(avs.skip(j as int).drop_first() =~= avs.skip(j as int + 1));
            assert(sibling_bytes(avs.skip(j as int), ln as int) == gentry_bytes(e@)
                + sibling_bytes(avs.skip(j as int + 1), ln as int / 2));
        }
        ln = ln / 2;
        j = j + 1;
    }
    proof {
        assert(avs.skip(n - 1).len() == 1);
        assert(sibling_bytes(avs.skip(n - 1), ln as int) =~= Seq::<u8>::empty());
        assert(out@ =~= out@ + sibling_bytes(avs.skip(n - 1), ln as int));
    }
}

/// Every announcement's prefix determines it: no two announcements of the
/// batch share a prefix without being the same record.
pub open spec fn pfx_injective(input: Seq<AnnData>) -> bool {
    forall|i: int, j: int|
        0 <= i < input.len() && 0 <= j < input.len() && (#[trigger] input[i].hash_pfx)
            == (#[trigger] input[j].hash_pfx) ==> input[i] == input[j]
}

/// Some announcement of `ss` carries prefix `p`.
pub open spec fn has_pfx(ss: Seq<AnnData>, p: u64) -> bool {
    exists|i: int| 0 <= i < ss.len() && (#[trigger] ss[i].hash_pfx) == p
}

proof fn lemma_survivors_unique(ss1: Seq<AnnData>, ss2: Seq<AnnData>, input: Seq<AnnData>)
    requires
        forall|i: int, j: int| 0 <= i < j < ss1.len() ==> ss1[i].hash_pfx < ss1[j].hash_pfx,
        forall|i: int, j: int| 0 <= i < j < ss2.len() ==> ss2[i].hash_pfx < ss2[j].hash_pfx,
        forall|i: int| 0 <= i < ss1.len() ==> input.contains(#[trigger] ss1[i]),
        forall|i: int| 0 <= i < ss2.len() ==> input.contains(#[trigger] ss2[i]),
        forall|p: u64| #![trigger has_pfx(ss1, p)] #![trigger has_pfx(ss2, p)]
            has_pfx(ss1, p) <==> has_pfx(ss2, p),
        pfx_injective(input),
    ensures
        ss1 == ss2,
    decreases ss1.len(),
{
    if ss1.len() == 0 {
        if ss2.len() > 0 {
            assert(has_pfx(ss2, ss2[0].hash_pfx));
            assert(has_pfx(ss1, ss2[0].hash_pfx));
            assert(false);
        }
        assert(ss1 =~= ss2);
    } else {
        let p1 = ss1[0].hash_pfx;
        assert(has_pfx(ss1, p1));
        assert(has_pfx(ss2, p1));
        let j = choose|j: int| 0 <= j < ss2.len() && ss2[j].hash_pfx == p1;
        if j != 0 {
            let p2 = ss2[0].hash_pfx;
            assert(p2 < p1);
            assert(has_pfx(ss2, p2));
            assert(has_pfx(ss1, p2));
            let i = choose|i: int| 0 <= i < ss1.len() && ss1[i].hash_pfx == p2;
            assert(i > 0 ==> p1 < ss1[i].hash_pfx);
            assert(false);
        }
        assert(ss2[0].hash_pfx == p1);
        let ia = choose|k: int| 0 <= k < input.len() && input[k] == ss1[0];
        let ib = choose|k: int| 0 <= k < input.len() && input[k] == ss2[0];
        assert(input[ia].hash_pfx == input[ib].hash_pfx);
        assert(ss1[0] == ss2[0]);

        let t1 = ss1.drop_first();
        let t2 = ss2.drop_first();
        assert forall|p: u64| #![trigger has_pfx(t1, p)] #![trigger has_pfx(t2, p)]
            has_pfx(t1, p) <==> has_pfx(t2, p) by {
            if has_pfx(t1, p) {
                let i = choose|i: int| 0 <= i < t1.len() && t1[i].hash_pfx == p;
                assert(ss1[i + 1].hash_pfx == p);
                assert(p > p1);
                assert(has_pfx(ss1, p));
                assert(has_pfx(ss2, p));
                let k = choose|k: int| 0 <= k < ss2.len() && ss2[k].hash_pfx == p;
                assert(k > 0);
                assert(t2[k - 1].hash_pfx == p);
                assert(has_pfx(t2, p));
            }
            if has_pfx(t2, p) {
                let i = choose|i: int| 0 <= i < t2.len() && t2[i].hash_pfx == p;
                assert(ss2[i + 1].hash_pfx == p);
                assert(p > p1);
                assert(has_pfx(ss2, p));
                assert(has_pfx(ss1, p));
                let k = choose|k: int| 0 <= k < ss1.len() && ss1[k].hash_pfx == p;
                assert(k > 0);
                assert(t1[k - 1].hash_pfx == p);
                assert(has_pfx(t1, p));
            }
        }
        assert forall|i: int| 0 <= i < t1.len() implies input.contains(#[trigger] t1[i]) by {
            assert(t1[i] == ss1[i + 1]);
        }
        assert forall|i: int| 0 <= i < t2.len() implies input.contains(#[trigger] t2[i]) by {
            assert(t2[i] == ss2[i + 1]);
        }
        lemma_survivors_unique(t1, t2, input);
        assert forall|i: int| 0 <= i < ss1.len() implies ss1[i] == ss2[i] by {
            if i > 0 {
                assert(t1[i - 1] == ss1[i]);
                assert(t2[i - 1] == ss2[i]);
            }
        }
        assert(ss1 =~= ss2);
    }
}

/// Computing twice over one snapshot (after a reset in between) reaches the
/// same survivors, hence the same root hash and the same size, provided no
/// two distinct announcements of the snapshot share a prefix.
pub proof fn lemma_recompute_deterministic(t1: ProofTree, t2: ProofTree, input: Seq<AnnData>)
    requires
        t1.computed_wf(),
        t2.computed_wf(),
        t1.root_hash is Some,
        t2.root_hash is Some,
        valid_survivors(t1.survivors@, input),
        valid_survivors(t2.survivors@, input),
        pfx_injective(input),
    ensures
        t1.survivors@ == t2.survivors@,
        t1.size == t2.size,
        t1.root_hash == t2.root_hash,
{
    lemma_order_insensitive(t1, t2, input, input);
}

/// Permuting the input before `compute` does not change the outcome: trees
/// computed over inputs that are permutations of each other hold the same
/// survivors, root hash and size, provided no two distinct announcements
/// share a prefix.
#[verifier::rlimit(100)]
pub proof fn lemma_order_insensitive(
    t1: ProofTree,
    t2: ProofTree,
    input1: Seq<AnnData>,
    input2: Seq<AnnData>,
)
    requires
        t1.size as int == t1.survivors@.len(),
        t2.size as int == t2.survivors@.len(),
        t1.root_hash is Some,
        t2.root_hash is Some,
        t1.root_hash matches Some(h1) ==> h1@ == root_hash_of(t1.survivors@),
        t2.root_hash matches Some(h2) ==> h2@ == root_hash_of(t2.survivors@),
        valid_survivors(t1.survivors@, input1),
        valid_survivors(t2.survivors@, input2),
        input1.to_multiset() == input2.to_multiset(),
        pfx_injective(input1),
    ensures
        t1.survivors@ == t2.survivors@,
        t1.size == t2.size,
        t1.root_hash == t2.root_hash,
{
    let ss1 = t1.survivors@;
    let ss2 = t2.survivors@;
    assert forall|a: AnnData| input1.contains(a) <==> input2.contains(a) by {
        vstd::seq_lib::to_multiset_contains(input1, a);
        vstd::seq_lib::to_multiset_contains(input2, a);
        assert(input1.to_multiset().count(a) == input2.to_multiset().count(a));
    }
    assert forall|i: int| 0 <= i < ss2.len() implies input1.contains(#[trigger] ss2[i]) by {
        assert(input2.contains(ss2[i]));
    }
    assert forall|p: u64| #![trigger has_pfx(ss1, p)] #![trigger has_pfx(ss2, p)]
        has_pfx(ss1, p) <==> has_pfx(ss2, p) by {
        if has_pfx(ss1, p) {
            let i = choose|i: int| 0 <= i < ss1.len() && ss1[i].hash_pfx == p;
            assert(input1.contains(ss1[i]));
            assert(input2.contains(ss1[i]));
            let k = choose|k: int| 0 <= k < input2.len() && input2[k] == ss1[i];
            assert(input2[k].hash_pfx == p && p != 0);
            assert(has_pfx(ss2, p));
        }
        if has_pfx(ss2, p) {
            let i = choose|i: int| 0 <= i < ss2.len() && ss2[i].hash_pfx == p;
            assert(input2.contains(ss2[i]));
            assert(input1.contains(ss2[i]));
            let k = choose|k: int| 0 <= k < input1.len() && input1[k] == ss2[i];
            assert(input1[k].hash_pfx == p && p != 0);
            assert(has_pfx(ss1, p));
        }
    }
    lemma_survivors_unique(ss1, ss2, input1);
    match (t1.root_hash, t2.root_hash) {
        (Some(h1), Some(h2)) => {
            assert(h1@ == h2@);
            assert(h1 =~= h2);
        },
        _ => {
            assert(false);
        },
    }
}

/// The leaf intervals of any computed tree partition the whole 64-bit
/// prefix space — needing nothing beyond the tree's own well-formedness.
pub proof fn lemma_computed_partition(t: ProofTree)
    requires
        t.computed_wf(),
    ensures
        leaves_of(t.survivors@).len() == t.survivors@.len() + 1,
        leaves_of(t.survivors@)[0].start == 0,
        leaves_of(t.survivors@)[leaves_of(t.survivors@).len() - 1].end == u64::MAX,
        forall|i: int|
            0 <= i < leaves_of(t.survivors@).len() - 1 ==> (#[trigger] leaves_of(
                t.survivors@,
            )[i].end) == leaves_of(t.survivors@)[i + 1].start,
        forall|i: int|
            0 <= i < leaves_of(t.survivors@).len() ==> (#[trigger] leaves_of(
                t.survivors@,
            )[i].start) < leaves_of(t.survivors@)[i].end,
{
    lemma_leaves_partition(t.survivors@);
}

/// The leaves of a computed tree partition the whole 64-bit prefix space:
/// they start at zero, end at the largest value, each leaf's interval is
/// nonempty, and each begins exactly where the previous one ends — no gaps
/// and no overlaps, however many duplicates were collapsed.
pub proof fn lemma_leaves_partition(ss: Seq<AnnData>)
    requires
        ss.len() >= 1,
        forall|i: int, j: int| 0 <= i < j < ss.len() ==> ss[i].hash_pfx < ss[j].hash_pfx,
        forall|i: int| 0 <= i < ss.len() ==> (#[trigger] ss[i].hash_pfx) != 0,
        forall|i: int| 0 <= i < ss.len() ==> (#[trigger] ss[i].hash_pfx) < u64::MAX,
    ensures
        leaves_of(ss).len() == ss.len() + 1,
        leaves_of(ss)[0].start == 0,
        leaves_of(ss)[leaves_of(ss).len() - 1].end == u64::MAX,
        forall|i: int|
            0 <= i < leaves_of(ss).len() - 1 ==> (#[trigger] leaves_of(ss)[i].end) == leaves_of(
                ss,
            )[i + 1].start,
        forall|i: int|
            0 <= i < leaves_of(ss).len() ==> (#[trigger] leaves_of(ss)[i].start) < leaves_of(
                ss,
            )[i].end,
{
    let l = leaves_of(ss);
    assert forall|i: int| 0 <= i < l.len() - 1 implies (#[trigger] l[i].end) == l[i + 1].start by {
        if i == 0 {
            assert(l[0].end == ss[0].hash_pfx);
        }
    }
    assert forall|i: int| 0 <= i < l.len() implies (#[trigger] l[i].start) < l[i].end by {
        if i == 0 {
            assert(l[0].start == 0 && l[0].end == ss[0].hash_pfx);
        } else if i < l.len() - 1 {
            assert(ss[i - 1].hash_pfx < ss[i].hash_pfx);
        }
    }
}

/// The proof tree: a fixed-capacity scratch table cycled once per round.
/// The caller fills `ann_data`, calls `compute`, and reads commitments and
/// proofs until the next `reset`.
pub struct ProofTree {
    pub capacity: u32,
    pub ann_data: Vec<AnnData>,
    pub index_table: Vec<u32>,
    pub layers: Vec<Vec<Entry>>,
    pub root_hash: Option<[u8; 32]>,
    pub size: u32,
    pub survivors: Ghost<Seq<AnnData>>,
}

impl ProofTree {
    /// What a successfully computed tree looks like: the survivors are
    /// recorded, the layer chain pads and pairs them up to a single root
    /// entry, and the root hash is that entry's digest.
    pub open spec fn computed_wf(self) -> bool {
        let n = self.layers@.len() as int;
        &&& self.size as int == self.survivors@.len()
        &&& 1 <= self.size
        &&& self.size <= self.capacity
        &&& self.index_table@.len() == self.survivors@.len()
        &&& (forall|i: int|
            0 <= i < self.index_table@.len() ==> self.index_table@[i]
                == self.survivors@[i].mloc)
        &&& n >= 2
        &&& views_of(self.layers@[0]@) == pad_layer(leaves_of(self.survivors@))
        &&& (forall|j: int|
            0 <= j < n - 2 ==> views_of(#[trigger] self.layers@[j + 1]@) == pad_layer(
                next_layer(views_of(self.layers@[j]@)),
            ))
        &&& views_of(self.layers@[n - 1]@) == next_layer(views_of(self.layers@[n - 2]@))
        &&& self.layers@[n - 1]@.len() == 1
        &&& (forall|j: int|
            0 <= j < n - 1 ==> (#[trigger] self.layers@[j]@.len()) % 2 == 0 && self.layers@[j]@.len()
                >= 2)
        &&& (self.root_hash matches Some(h) ==> h@ == root_hash_of(self.survivors@))
        &&& self.layers@[n - 1]@[0]@ == root_entry_of(leaves_of(self.survivors@))
        &&& total_layer_entries(self.layers@) == spec_entry_count((self.size + 1) as nat)
        &&& (forall|i: int, j: int|
            0 <= i < j < self.survivors@.len() ==> self.survivors@[i].hash_pfx
                < self.survivors@[j].hash_pfx)
        &&& (forall|i: int|
            0 <= i < self.survivors@.len() ==> (#[trigger] self.survivors@[i].hash_pfx) != 0
                && self.survivors@[i].hash_pfx < u64::MAX)
    }

    /// A tree is well formed whenever a held root hash is backed by a full,
    /// consistent computation.
    pub open spec fn wf(self) -> bool {
        self.root_hash is Some ==> self.computed_wf()
    }

    /// A fresh tree of the given capacity, not yet computed.  The input
    /// buffer is allocated here once.  The scratch table is organized per
    /// layer and built by each `compute` rather than preallocated flat;
    /// every computed tree provably holds exactly the entries the
    /// `entry_count` sizing formula gives for its survivor count.
    pub fn new(max_anns: u32) -> (r: ProofTree)
        ensures
            r.wf(),
            r.root_hash is None,
            r.capacity == max_anns,
            r.ann_data@.len() == max_anns as usize,
            r.size == 0,
            r.index_table@.len() == 0,
            r.layers@.len() == 0,
    {
        let zh = [0u8; 32];
        let mut ann_data: Vec<AnnData> = Vec::new();
        let mut i: usize = 0;
        while i < max_anns as usize
            invariant
                ann_data@.len() == i,
                i <= max_anns as usize,
            decreases max_anns as usize - i,
        {
            ann_data.push(AnnData { hash_pfx: 0, mloc: 0, hash: zh });
            i = i + 1;
        }
        ProofTree {
            capacity: max_anns,
            ann_data,
            index_table: Vec::new(),
            layers: Vec::new(),
            root_hash: None,
            size: 0,
            survivors: Ghost(Seq::empty()),
        }
    }

    /// Forget the previous round's result; storage is kept for reuse.
    pub fn reset(&mut self)
        ensures
            final(self).root_hash is None,
            final(self).wf(),
            final(self).size == 0,
            final(self).ann_data == old(self).ann_data,
            final(self).capacity == old(self).capacity,
            final(self).index_table == old(self).index_table,
            final(self).layers == old(self).layers,
    {
        self.size = 0;
        self.root_hash = None;
    }

    /// Sort the first `count` announcements by prefix, drop duplicate
    /// prefixes (and prefix zero, which collides with the sentinel leaf),
    /// build the interval tree, and record root and size.  All-or-nothing:
    /// on any error the tree is unchanged.
    #[verifier::loop_isolation(false)]
    #[verifier::rlimit(100)]
    pub fn compute(&mut self, count: usize) -> (r: Result<(), TreeError>)
        requires
            old(self).root_hash is Some || count > old(self).capacity as usize || (count <= old(
                self,
            ).ann_data@.len() && (forall|i: int|
                0 <= i < count ==> (#[trigger] old(self).ann_data@[i].hash_pfx) == pfx_of(
                    old(self).ann_data@[i].hash@,
                ) && old(self).ann_data@[i].hash_pfx < u64::MAX)),
        ensures
            final(self).ann_data@.len() == old(self).ann_data@.len(),
            final(self).capacity == old(self).capacity,
            r is Err ==> *final(self) == *old(self),
            r is Ok ==> sorted_by_pfx(final(self).ann_data@.take(count as int)),
            r is Ok ==> final(self).ann_data@.take(count as int).to_multiset()
                == old(self).ann_data@.take(count as int).to_multiset(),
            r is Ok ==> final(self).ann_data@.skip(count as int)
                == old(self).ann_data@.skip(count as int),
            (r matches Err(e) && e == TreeError::AlreadyComputed) <==> old(self).root_hash is Some,
            (r matches Err(e) && e == TreeError::TooMany) <==> (old(self).root_hash is None && count
                > old(self).capacity as usize),
            (r matches Err(e) && e == TreeError::NoAnns) <==> (old(self).root_hash is None && count
                <= old(self).capacity as usize && (forall|i: int|
                0 <= i < count ==> (#[trigger] old(self).ann_data@[i].hash_pfx) == 0)),
            r is Ok <==> (old(self).root_hash is None && count <= old(self).capacity as usize && (
            exists|i: int| 0 <= i < count && (#[trigger] old(self).ann_data@[i].hash_pfx) != 0)),
            r is Ok ==> final(self).root_hash is Some && final(self).computed_wf()
                && valid_survivors(
                final(self).survivors@,
                old(self).ann_data@.take(count as int),
            ) && final(self).size as int <= count,
    {
        if self.root_hash.is_some() {
            return Err(TreeError::AlreadyComputed);
        }
        if count == 0 {
            return Err(TreeError::NoAnns);
        }
        if count > self.capacity as usize {
            return Err(TreeError::TooMany);
        }
        assert(count <= self.ann_data@.len());
        let ghost input: Seq<AnnData> = old(self).ann_data@.take(count as int);
        assert(self.ann_data@ == old(self).ann_data@);

        // Reject a batch with nothing usable before mutating anything, so
        // that every error leaves the tree exactly as it was.
        let mut has_nonzero = false;
        let mut i: usize = 0;
        while i < count
            invariant
                i <= count,
                has_nonzero ==> exists|k: int|
                    0 <= k < count && (#[trigger] self.ann_data@[k].hash_pfx) != 0,
                !has_nonzero ==> forall|k: int|
                    0 <= k < i ==> (#[trigger] self.ann_data@[k].hash_pfx) == 0,
            decreases count - i,
        {
            if self.ann_data[i].hash_pfx != 0 {
                has_nonzero = true;
            }
            i = i + 1;
        }
        if !has_nonzero {
            return Err(TreeError::NoAnns);
        }

        // Sort the first `count` announcements of the input buffer itself,
        // ascending by prefix; the tail is untouched.
        par_sort_prefix_by_pfx(&mut self.ann_data, count);
        assert(self.ann_data@.take(count as int).to_multiset() == input.to_multiset());
        assert(sorted_by_pfx(self.ann_data@.take(count as int)));

        // Working copy of the sorted prefix.
        let mut work: Vec<AnnData> = Vec::new();
        i = 0;
        while i < count
            invariant
                i <= count,
                work@ == self.ann_data@.take(i as int),
            decreases count - i,
        {
            work.push(self.ann_data[i]);
            i = i + 1;
            assert(work@ =~= self.ann_data@.take(i as int));
        }
        assert(work@ =~= self.ann_data@.take(count as int));
        assert(sorted_by_pfx(work@));
        assert(work@.to_multiset() == input.to_multiset());
        assert forall|a: AnnData| work@.contains(a) <==> input.contains(a) by {
            assert(work@.to_multiset().count(a) == input.to_multiset().count(a));
        }

        let (survivors, itable) = dedup_sorted(&work);

        if survivors.len() == 0 {
            proof {
                let k = choose|k: int|
                    0 <= k < count && (#[trigger] old(self).ann_data@[k].hash_pfx) != 0;
                assert(input[k] == old(self).ann_data@[k]);
                assert(input.contains(input[k]));
                assert(work@.contains(input[k]));
                let j = choose|j: int| 0 <= j < work@.len() && work@[j] == input[k];
                assert(work@[j].hash_pfx != 0);
                assert(false);
            }
            return Err(TreeError::NoAnns);
        }
        let ghost ss: Seq<AnnData> = survivors@;
        proof {
            assert forall|k: int|
                0 <= k < input.len() implies (#[trigger] input[k].hash_pfx) < u64::MAX by {
                assert(input[k] == old(self).ann_data@[k]);
            }
            lemma_survivors_valid(ss, work@, input);
        }

        let cur = build_leaves(&survivors);
        let layers = build_layers(cur);
        let last = layers.len() - 1;
        let root_e = layers[last][0];
        let rh = root_digest(&root_e);
        proof {
            assert(root_e@ == root_entry_of(leaves_of(ss)));
        }

        self.index_table = itable;
        self.size = survivors.len() as u32;
        self.layers = layers;
        self.survivors = Ghost(ss);
        self.root_hash = Some(rh);
        proof {
            assert(rh@ == root_hash_of(ss));
            assert(self.computed_wf());
        }
        Ok(())
    }

    /// The 48-byte commitment: magic, minimum work, root hash, and the
    /// number of committed announcements, multi-byte fields little-endian.
    pub fn get_commit(&self, ann_min_work: u32) -> (r: Result<bytes::BytesMut, TreeError>)
        ensures
            r is Ok <==> self.root_hash is Some,
            r is Err ==> (r matches Err(e) && e == TreeError::NotComputed),
            self.root_hash matches Some(h) ==> (r matches Ok(b) && bytes_of(b) == spec_commit(
                ann_min_work,
                h@,
                self.size,
            )),
    {
        match &self.root_hash {
            None => Err(TreeError::NotComputed),
            Some(h) => {
                let mut out: Vec<u8> = Vec::new();
                out.push(0x09);
                out.push(0xf9);
                out.push(0x11);
                out.push(0x02);
                push_le32(&mut out, ann_min_work);
                push_hash(&mut out, h);
                push_le64(&mut out, self.size as u64);
                assert(out@ =~= spec_commit(ann_min_work, h@, self.size));
                Ok(bytesmut_from_vec(&out))
            },
        }
    }

    /// The inclusion proof for four announcement numbers: the sibling path
    /// of each, bottom-up, concatenated as plain 48-byte entries.  Every
    /// number must name a surviving announcement (`< size`) of a computed
    /// tree.  This byte layout is this library's own; a consumer that needs
    /// the compressed consensus wire format can rebuild it from the public
    /// `layers` table and `root_hash`.
    #[verifier::loop_isolation(false)]
    pub fn mk_proof(&self, ann_nums: &[u64; 4]) -> (r: Result<bytes::BytesMut, TreeError>)
        requires
            self.wf(),
        ensures
            r is Ok <==> (self.root_hash is Some && forall|k: int|
                0 <= k < 4 ==> (#[trigger] ann_nums@[k]) < self.size),
            (r matches Err(e) && e == TreeError::NotComputed) <==> self.root_hash is None,
            (r matches Err(e) && e == TreeError::OutOfRange) <==> (self.root_hash is Some && exists|
                k: int,
            | 0 <= k < 4 && (#[trigger] ann_nums@[k]) >= self.size),
            r matches Ok(b) ==> bytes_of(b) == spec_proof(self.layers@, ann_nums@) && bytes_of(
                b,
            ).len() > 0,
    {
        if self.root_hash.is_none() {
            return Err(TreeError::NotComputed);
        }
        let mut k: usize = 0;
        while k < 4
            invariant
                k <= 4,
                forall|l: int| 0 <= l < k ==> (#[trigger] ann_nums@[l]) < self.size,
            decreases 4 - k,
        {
            if ann_nums[k] >= self.size as u64 {
                return Err(TreeError::OutOfRange);
            }
            k = k + 1;
        }
        proof {
            let n = self.layers@.len() as int;
            assert(views_of(self.layers@[0]@).len() == pad_layer(
                leaves_of(self.survivors@),
            ).len());
            assert(pad_layer(leaves_of(self.survivors@)).len() >= leaves_of(
                self.survivors@,
            ).len());
            assert(self.layers@[0]@.len() >= self.size + 1);
            assert forall|j: int|
                0 <= j < n - 1 implies (#[trigger] self.layers@[j + 1]@.len())
                    >= self.layers@[j]@.len() / 2 by {
                let v = views_of(self.layers@[j]@);
                assert(v.len() == self.layers@[j]@.len());
                assert(views_of(self.layers@[j + 1]@).len() == self.layers@[j + 1]@.len());
                assert(next_layer(v).len() == v.len() / 2);
                if j < n - 2 {
                    assert(views_of(self.layers@[j + 1]@) == pad_layer(next_layer(v)));
                    assert(pad_layer(next_layer(v)).len() >= next_layer(v).len());
                } else {
                    assert(views_of(self.layers@[n - 1]@) == next_layer(
                        views_of(self.layers@[n - 2]@),
                    ));
                }
            }
        }
        let mut out: Vec<u8> = Vec::new();
        path_bytes(&self.layers, ann_nums[0] as usize + 1, &mut out);
        path_bytes(&self.layers, ann_nums[1] as usize + 1, &mut out);
        path_bytes(&self.layers, ann_nums[2] as usize + 1, &mut out);
        path_bytes(&self.layers, ann_nums[3] as usize + 1, &mut out);
        proof {
            assert(out@ =~= spec_proof(self.layers@, ann_nums@));
            let avs = all_layer_views(self.layers@);
            assert(sibling_bytes(avs, ann_nums@[0] as int + 1).len() >= gentry_bytes(
                avs[0][ann_nums@[0] as int + 1 + (if (ann_nums@[0] as int + 1) % 2 == 0 {
                    1int
                } else {
                    -1int
                })],
            ).len());
            assert(gentry_bytes(
                avs[0][ann_nums@[0] as int + 1 + (if (ann_nums@[0] as int + 1) % 2 == 0 {
                    1int
                } else {
                    -1int
                })],
            ).len() >= 16);
        }
        Ok(bytesmut_from_vec(&out))
    }
}

} // verus!
