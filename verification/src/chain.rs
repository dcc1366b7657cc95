//! The active header chain.
//!
//! A [`Chain`] owns a store and maintains the chain well-formedness
//! invariant [`chain_wf`]: the height index is dense from genesis to the
//! tip, every indexed record sits at its height, consecutive entries are
//! linked by `prev_blockhash`, every record is keyed by the hash of its
//! header and has its parent present, and forward (`next_blockhash`)
//! pointers trace exactly the active chain.

use vstd::prelude::*;

use crate::block::{block_hash, hash_of, zero_hash, BlockHash, BlockHeader};
use crate::store::{genesis_model, BlockIndex, ChainStore, IndexModel, StoreModel};

verus! {

broadcast use vstd::array::group_array_axioms;

/// Failures of chain and store operations.
#[derive(Clone, Copy, Debug, PartialEq, Eq, Structural)]
pub enum Error {
    /// A header whose parent is unknown to the store.
    OrphanHeader,
    /// The store disagrees with what the chain requires of it.
    StoreConsistency,
}

/// Per-record part of the chain invariant; `k` is a key of `s.records`.
pub open spec fn record_ok(s: StoreModel, k: Seq<u8>) -> bool {
    let b = s.records[k];
    &&& hash_of(b.header) == k
    &&& 0 <= b.height < s.heights.len()
    &&& b.height > 0 ==> s.records.contains_key(b.header.prev_blockhash@)
        && s.records[b.header.prev_blockhash@].height == b.height - 1
    &&& b.height == 0 ==> k == s.heights[0]
    &&& (if s.heights[b.height] == k {
        b.next == (if b.height == s.heights.len() - 1 {
            zero_hash()
        } else {
            s.heights[b.height + 1]
        })
    } else {
        b.next == zero_hash()
    })
}

/// Chain well-formedness over the abstract store state.
pub open spec fn chain_wf(s: StoreModel) -> bool {
    &&& 1 <= s.heights.len() <= i32::MAX as int
    &&& s.tip == s.heights[s.heights.len() - 1]
    &&& forall|h: int| 0 <= h < s.heights.len() ==> s.records.contains_key(#[trigger] s.heights[h])
    &&& forall|h: int| 0 <= h < s.heights.len() ==> s.records[#[trigger] s.heights[h]].height == h
    &&& forall|h: int|
        1 <= h < s.heights.len() ==> s.records[#[trigger] s.heights[h]].header.prev_blockhash@
            == s.heights[h - 1]
    &&& forall|k: Seq<u8>| s.records.contains_key(k) ==> #[trigger] record_ok(s, k)
}

/// The parent of record `k` is present, one height below.
pub open spec fn parent_ok(s: StoreModel, k: Seq<u8>) -> bool {
    s.records[k].height > 0 ==> s.records.contains_key(s.records[k].header.prev_blockhash@)
        && s.records[s.records[k].header.prev_blockhash@].height == s.records[k].height - 1
}

/// Every stored record has its full ancestry present: the walk below is
/// well-defined.
pub open spec fn parents_linked(s: StoreModel) -> bool {
    forall|k: Seq<u8>| s.records.contains_key(k) ==> #[trigger] parent_ok(s, k)
}

/// The hash of the ancestor of record `k` at height `h`, reached by walking
/// `prev_blockhash` links.
pub open spec fn ancestor_at(s: StoreModel, k: Seq<u8>, h: int) -> Seq<u8>
    decreases s.records[k].height - h,
        when parents_linked(s) && s.records.contains_key(k) && 0 <= h <= s.records[k].height
        via ancestor_at_decreases
{
    if s.records[k].height == h {
        k
    } else {
        ancestor_at(s, s.records[k].header.prev_blockhash@, h)
    }
}

#[via_fn]
proof fn ancestor_at_decreases(s: StoreModel, k: Seq<u8>, h: int) {
    assert(parent_ok(s, k));
}

/// A well-formed chain is parent-closed.
pub proof fn lemma_wf_parents_linked(s: StoreModel)
    requires
        chain_wf(s),
    ensures
        parents_linked(s),
{
    assert forall|k: Seq<u8>| s.records.contains_key(k) implies #[trigger] parent_ok(s, k) by {
        assert(record_ok(s, k));
    }
}

/// The ancestor walk lands on a present record of the requested height.
pub proof fn lemma_ancestor_props(s: StoreModel, k: Seq<u8>, h: int)
    requires
        parents_linked(s),
        s.records.contains_key(k),
        0 <= h <= s.records[k].height,
    ensures
        s.records.contains_key(ancestor_at(s, k, h)),
        s.records[ancestor_at(s, k, h)].height == h,
    decreases s.records[k].height - h,
{
    assert(parent_ok(s, k));
    if s.records[k].height != h {
        lemma_ancestor_props(s, s.records[k].header.prev_blockhash@, h);
    }
}

/// Walking to height `h` and on to `h2` equals walking to `h2` directly.
pub proof fn lemma_ancestor_trans(s: StoreModel, k: Seq<u8>, h: int, h2: int)
    requires
        parents_linked(s),
        s.records.contains_key(k),
        0 <= h2 <= h <= s.records[k].height,
    ensures
        ancestor_at(s, ancestor_at(s, k, h), h2) == ancestor_at(s, k, h2),
    decreases s.records[k].height - h,
{
    assert(parent_ok(s, k));
    if s.records[k].height != h {
        lemma_ancestor_trans(s, s.records[k].header.prev_blockhash@, h, h2);
    }
}

/// One step of the walk: the ancestor at `h - 1` is the parent of the
/// ancestor at `h`.
pub proof fn lemma_ancestor_step(s: StoreModel, k: Seq<u8>, h: int)
    requires
        parents_linked(s),
        s.records.contains_key(k),
        1 <= h <= s.records[k].height,
    ensures
        ancestor_at(s, k, h - 1) == s.records[ancestor_at(s, k, h)].header.prev_blockhash@,
    decreases s.records[k].height - h,
{
    lemma_ancestor_props(s, k, h);
    assert(parent_ok(s, k));
    if s.records[k].height == h {
        assert(ancestor_at(s, k, h) == k);
        let p = s.records[k].header.prev_blockhash@;
        assert(s.records.contains_key(p) && s.records[p].height == h - 1);
        assert(ancestor_at(s, k, h - 1) == ancestor_at(s, p, h - 1));
        assert(ancestor_at(s, p, h - 1) == p);
    } else {
        lemma_ancestor_step(s, s.records[k].header.prev_blockhash@, h);
    }
}

/// On a well-formed chain the ancestors of an active-chain entry are the
/// active-chain entries below it.
pub proof fn lemma_ancestor_of_active(s: StoreModel, h: int, h2: int)
    requires
        chain_wf(s),
        0 <= h2 <= h < s.heights.len(),
    ensures
        ancestor_at(s, s.heights[h], h2) == s.heights[h2],
    decreases h - h2,
{
    lemma_wf_parents_linked(s);
    assert(s.records[s.heights[h]].height == h);
    if h2 < h {
        assert(s.records[s.heights[h]].header.prev_blockhash@ == s.heights[h - 1]);
        lemma_ancestor_of_active(s, h - 1, h2);
    }
}

/// The store after the candidate record for `header` is persisted: its key
/// is the header's hash, its height one above its parent's, its forward
/// pointer empty.  Meaningful when the parent is present and the key fresh.
pub open spec fn s1_of(s: StoreModel, header: BlockHeader) -> StoreModel {
    StoreModel {
        records: s.records.insert(
            hash_of(header),
            IndexModel {
                header,
                height: s.records[header.prev_blockhash@].height + 1,
                next: zero_hash(),
            },
        ),
        heights: s.heights,
        tip: s.tip,
    }
}

/// The height index after the candidate becomes the new tip: at each height
/// the ancestor of the candidate, shared entries included.
#[verifier::opaque]
pub open spec fn new_heights_of(s: StoreModel, header: BlockHeader) -> Seq<Seq<u8>> {
    Seq::new(
        (s.heights.len() + 1) as nat,
        |h: int| ancestor_at(s1_of(s, header), hash_of(header), h),
    )
}

/// The forward pointer a record keyed `k` at height `h` carries once
/// `heights` is the active chain: its successor's hash on the chain, the
/// empty hash off it or at the tip.
pub open spec fn succ_in(heights: Seq<Seq<u8>>, h: int, k: Seq<u8>) -> Seq<u8> {
    if 0 <= h < heights.len() && heights[h] == k {
        if h == heights.len() - 1 {
            zero_hash()
        } else {
            heights[h + 1]
        }
    } else {
        zero_hash()
    }
}

/// What admitting one header does to the store: the whole of
/// `connect_block_header`, as a function of the abstract state.
///
/// A known header changes nothing; an orphan changes nothing; a candidate
/// whose height stays at or below the tip is stored off the active chain;
/// a candidate one above the tip becomes the tip, with the height index
/// rebuilt from its ancestry and every forward pointer retraced.
pub open spec fn spec_connect(s: StoreModel, header: BlockHeader) -> StoreModel {
    let k = hash_of(header);
    let pk = header.prev_blockhash@;
    if s.records.contains_key(k) {
        s
    } else if !s.records.contains_key(pk) {
        s
    } else if s.records[pk].height + 1 >= i32::MAX as int {
        s
    } else {
        let hnew = s.records[pk].height + 1;
        let s1 = s1_of(s, header);
        if hnew >= s.heights.len() {
            let nh = new_heights_of(s, header);
            StoreModel {
                records: Map::new(
                    |kk: Seq<u8>| s1.records.contains_key(kk),
                    |kk: Seq<u8>|
                        IndexModel {
                            header: s1.records[kk].header,
                            height: s1.records[kk].height,
                            next: succ_in(nh, s1.records[kk].height, kk),
                        },
                ),
                heights: nh,
                tip: k,
            }
        } else {
            s1
        }
    }
}

/// The conditions under which `spec_connect` stores a fresh candidate.
pub open spec fn connects_fresh(s: StoreModel, header: BlockHeader) -> bool {
    &&& !s.records.contains_key(hash_of(header))
    &&& s.records.contains_key(header.prev_blockhash@)
    &&& s.records[header.prev_blockhash@].height + 1 < i32::MAX as int
}

/// The conditions under which the candidate becomes the new tip.
pub open spec fn connects_new_tip(s: StoreModel, header: BlockHeader) -> bool {
    &&& connects_fresh(s, header)
    &&& s.records[header.prev_blockhash@].height + 1 >= s.heights.len()
}

/// Persisting the candidate keeps every ancestor walk well-defined.
proof fn lemma_s1_linked(s: StoreModel, header: BlockHeader)
    requires
        chain_wf(s),
        !s.records.contains_key(hash_of(header)),
        s.records.contains_key(header.prev_blockhash@),
    ensures
        parents_linked(s1_of(s, header)),
        s1_of(s, header).records.contains_key(hash_of(header)),
        s1_of(s, header).records[hash_of(header)].height == s.records[header.prev_blockhash@].height
            + 1,
        forall|kk: Seq<u8>| #[trigger]
            s.records.contains_key(kk) ==> s1_of(s, header).records.contains_key(kk) && s1_of(
                s,
                header,
            ).records[kk] == s.records[kk],
{
    let s1 = s1_of(s, header);
    assert forall|kk: Seq<u8>| s1.records.contains_key(kk) implies #[trigger] parent_ok(
        s1,
        kk,
    ) by {
        if kk != hash_of(header) {
            assert(s.records.contains_key(kk));
            assert(record_ok(s, kk));
        }
    }
}

/// Walks in the extended store agree with walks in the old store.
proof fn lemma_ancestor_preserved(s: StoreModel, header: BlockHeader, kk: Seq<u8>, h: int)
    requires
        chain_wf(s),
        !s.records.contains_key(hash_of(header)),
        s.records.contains_key(header.prev_blockhash@),
        s.records.contains_key(kk),
        0 <= h <= s.records[kk].height,
    ensures
        ancestor_at(s1_of(s, header), kk, h) == ancestor_at(s, kk, h),
    decreases s.records[kk].height - h,
{
    lemma_wf_parents_linked(s);
    lemma_s1_linked(s, header);
    if s.records[kk].height != h {
        assert(record_ok(s, kk));
        lemma_ancestor_preserved(s, header, s.records[kk].header.prev_blockhash@, h);
    }
}

/// Shape of the rebuilt height index when the candidate takes the tip.
proof fn lemma_new_heights_props(s: StoreModel, header: BlockHeader)
    requires
        chain_wf(s),
        connects_new_tip(s, header),
    ensures
        ({
            let k = hash_of(header);
            let pk = header.prev_blockhash@;
            let s1 = s1_of(s, header);
            let nh = new_heights_of(s, header);
            let ph = s.records[pk].height;
            &&& ph == s.heights.len() - 1
            &&& nh.len() == s.heights.len() + 1
            &&& nh[ph + 1] == k
            &&& forall|h: int| 0 <= h <= ph ==> nh[h] == ancestor_at(s, pk, h)
            &&& forall|h: int|
                0 <= h < nh.len() ==> s1.records.contains_key(#[trigger] nh[h])
                    && s1.records[nh[h]].height == h
            &&& forall|h: int|
                1 <= h < nh.len() ==> s1.records[#[trigger] nh[h]].header.prev_blockhash@ == nh[h
                    - 1]
            &&& nh[0] == s.heights[0]
        }),
{
    let k = hash_of(header);
    let pk = header.prev_blockhash@;
    let s1 = s1_of(s, header);
    let nh = new_heights_of(s, header);
    let ph = s.records[pk].height;
    reveal(new_heights_of);
    assert(record_ok(s, pk));
    assert(ph == s.heights.len() - 1);
    lemma_wf_parents_linked(s);
    lemma_s1_linked(s, header);
    assert(s1.records[k].height == ph + 1);
    assert(nh[ph + 1] == ancestor_at(s1, k, ph + 1));
    assert(ancestor_at(s1, k, ph + 1) == k);
    assert forall|h: int| 0 <= h <= ph implies nh[h] == ancestor_at(s, pk, h) by {
        assert(ancestor_at(s1, k, h) == ancestor_at(s1, pk, h));
        lemma_ancestor_preserved(s, header, pk, h);
    }
    assert forall|h: int|
        0 <= h < nh.len() implies s1.records.contains_key(#[trigger] nh[h])
        && s1.records[nh[h]].height == h by {
        lemma_ancestor_props(s1, k, h);
    }
    assert forall|h: int|
        1 <= h < nh.len() implies s1.records[#[trigger] nh[h]].header.prev_blockhash@ == nh[h
        - 1] by {
        lemma_ancestor_props(s1, k, h);
        lemma_ancestor_step(s1, k, h);
    }
    lemma_ancestor_props(s, pk, 0);
    let g = ancestor_at(s, pk, 0);
    assert(record_ok(s, g));
    assert(nh[0] == ancestor_at(s1, k, 0));
    assert(ancestor_at(s1, k, 0) == ancestor_at(s1, pk, 0));
    lemma_ancestor_preserved(s, header, pk, 0);
}

/// Admitting a header preserves chain well-formedness.
pub proof fn lemma_connect_preserves_wf(s: StoreModel, header: BlockHeader)
    requires
        chain_wf(s),
    ensures
        chain_wf(spec_connect(s, header)),
{
    let k = hash_of(header);
    let pk = header.prev_blockhash@;
    if s.records.contains_key(k) {
    } else if !s.records.contains_key(pk) {
    } else if s.records[pk].height + 1 >= i32::MAX as int {
    } else {
        let hnew = s.records[pk].height + 1;
        let s1 = s1_of(s, header);
        assert(record_ok(s, pk));
        assert(0 <= s.records[pk].height < s.heights.len());
        if hnew >= s.heights.len() {
            let nh = new_heights_of(s, header);
            let t = spec_connect(s, header);
            lemma_new_heights_props(s, header);
            assert(t.heights == nh && t.tip == k);
            assert(t.records.dom() =~= s1.records.dom());
            assert forall|h: int|
                0 <= h < t.heights.len() implies t.records.contains_key(
                #[trigger] t.heights[h],
            ) by {
                assert(s1.records.contains_key(nh[h]));
            }
            assert forall|h: int|
                0 <= h < t.heights.len() implies t.records[#[trigger] t.heights[h]].height
                == h by {
                assert(s1.records.contains_key(nh[h]));
            }
            assert forall|h: int|
                1 <= h < t.heights.len() implies t.records[#[trigger] t.heights[h]].header.prev_blockhash@
                == t.heights[h - 1] by {
                assert(s1.records.contains_key(nh[h]));
            }
            assert forall|kk: Seq<u8>| #[trigger]
                t.records.contains_key(kk) implies record_ok(t, kk) by {
                assert(s1.records.contains_key(kk));
                let b = t.records[kk];
                assert(b.header == s1.records[kk].header && b.height == s1.records[kk].height);
                if kk == k {
                    assert(hash_of(b.header) == kk);
                    assert(0 <= b.height < t.heights.len());
                    assert(t.records.contains_key(pk) && t.records[pk].height == b.height - 1);
                } else {
                    assert(s.records.contains_key(kk));
                    assert(record_ok(s, kk));
                    if b.height == 0 {
                        assert(kk == s.heights[0]);
                        assert(t.heights[0] == s.heights[0]);
                    }
                }
                assert(b.next == succ_in(nh, b.height, kk));
            }
        } else {
            let t = s1;
            assert forall|h: int|
                0 <= h < t.heights.len() implies t.records.contains_key(#[trigger] t.heights[h])
                && t.records[t.heights[h]].height == h && (1 <= h
                ==> t.records[t.heights[h]].header.prev_blockhash@ == t.heights[h - 1]) by {
                assert(s.records.contains_key(s.heights[h]));
                assert(s.heights[h] != k);
            }
            assert forall|kk: Seq<u8>| #[trigger]
                t.records.contains_key(kk) implies record_ok(t, kk) by {
                if kk == k {
                    let b = t.records[kk];
                    assert(0 <= b.height < t.heights.len());
                    assert(s.records.contains_key(s.heights[b.height]));
                    assert(s.heights[b.height] != k);
                } else {
                    assert(record_ok(s, kk));
                    let b = t.records[kk];
                    if s.heights[b.height] == kk && b.height < s.heights.len() - 1 {
                        assert(t.records[kk].next == s.records[kk].next);
                    }
                }
            }
        }
    }
}

/// Admitting the same header twice is the same as admitting it once.
pub proof fn lemma_connect_idempotent(s: StoreModel, header: BlockHeader)
    requires
        chain_wf(s),
    ensures
        spec_connect(spec_connect(s, header), header) == spec_connect(s, header),
{
    let t = spec_connect(s, header);
    let k = hash_of(header);
    if !s.records.contains_key(k) && s.records.contains_key(header.prev_blockhash@)
        && s.records[header.prev_blockhash@].height + 1 < i32::MAX as int {
        assert(t.records.contains_key(k));
    }
}

/// A freshly connected candidate is stored exactly as built: its header,
/// one above its parent's height, with an empty forward pointer — what a
/// repeated `connect_block_header` for the same header returns.
pub proof fn lemma_connect_stores_candidate(s: StoreModel, header: BlockHeader)
    requires
        chain_wf(s),
        connects_fresh(s, header),
    ensures
        spec_connect(s, header).records.contains_key(hash_of(header)),
        spec_connect(s, header).records[hash_of(header)] == (IndexModel {
            header,
            height: s.records[header.prev_blockhash@].height + 1,
            next: zero_hash(),
        }),
{
    let k = hash_of(header);
    let ph = s.records[header.prev_blockhash@].height;
    if ph + 1 >= s.heights.len() {
        lemma_new_heights_props(s, header);
        let nh = new_heights_of(s, header);
        assert(nh[ph + 1] == k);
        assert(succ_in(nh, ph + 1, k) == zero_hash());
    }
}

/// First-seen tie-break: a candidate that does not exceed the tip height
/// leaves the active chain and the tip untouched.
pub proof fn lemma_connect_tie_break(s: StoreModel, header: BlockHeader)
    requires
        chain_wf(s),
        connects_fresh(s, header),
        s.records[header.prev_blockhash@].height + 1 < s.heights.len(),
    ensures
        spec_connect(s, header).heights == s.heights,
        spec_connect(s, header).tip == s.tip,
{
}

/// Reorg correctness: a candidate one above the tip becomes the tip, and
/// every entry of the rebuilt height index is the candidate's ancestor at
/// that height; entries at and below the fork with the old chain are
/// unchanged.
pub proof fn lemma_reorg_correctness(s: StoreModel, header: BlockHeader)
    requires
        chain_wf(s),
        connects_new_tip(s, header),
    ensures
        spec_connect(s, header).tip == hash_of(header),
        spec_connect(s, header).heights.len() == s.heights.len() + 1,
        spec_connect(s, header).heights[s.heights.len() as int] == hash_of(header),
        forall|h: int|
            0 <= h < s.heights.len() + 1 ==> spec_connect(s, header).heights[h] == ancestor_at(
                s1_of(s, header),
                hash_of(header),
                h,
            ),
        forall|h: int|
            0 <= h <= s.heights.len() - 1 ==> spec_connect(s, header).heights[h] == ancestor_at(
                s,
                header.prev_blockhash@,
                h,
            ),
{
    lemma_new_heights_props(s, header);
    reveal(new_heights_of);
}

/// A record's value after the old branch above the fork has had its forward
/// pointers cleared, for clearing progress `j` (heights in `(fork_h, j)` are
/// done).
spec fn cleared_rec(s: StoreModel, header: BlockHeader, fork_h: int, j: int, kk: Seq<u8>) -> IndexModel {
    let b = s1_of(s, header).records[kk];
    if kk != hash_of(header) && fork_h < b.height < j && b.height < s.heights.len() && s.heights[b.height] == kk {
        IndexModel { header: b.header, height: b.height, next: zero_hash() }
    } else {
        b
    }
}

/// A record's value while the new branch is being applied: entries of the
/// rebuilt chain whose child is already processed (branch indices `[i, len)`)
/// carry their new forward pointer; the rest are as after clearing.
spec fn staged_rec(s: StoreModel, header: BlockHeader, fork_h: int, i: int, kk: Seq<u8>) -> IndexModel {
    let b = s1_of(s, header).records[kk];
    let nh = new_heights_of(s, header);
    let hnew = s.records[header.prev_blockhash@].height + 1;
    if 0 <= b.height < nh.len() && nh[b.height] == kk && fork_h <= b.height && b.height <= hnew - 1
        - i {
        IndexModel { header: b.header, height: b.height, next: nh[b.height + 1] }
    } else {
        cleared_rec(s, header, fork_h, s.heights.len() as int, kk)
    }
}

/// Below the fork the rebuilt height index keeps the old entries.
proof fn lemma_nh_below_fork(s: StoreModel, header: BlockHeader, fork_h: int)
    requires
        chain_wf(s),
        connects_new_tip(s, header),
        0 <= fork_h <= s.heights.len() - 1,
        ancestor_at(s1_of(s, header), hash_of(header), fork_h) == s.heights[fork_h],
    ensures
        forall|h: int| 0 <= h <= fork_h ==> new_heights_of(s, header)[h] == s.heights[h],
{
    let s1 = s1_of(s, header);
    let k = hash_of(header);
    lemma_wf_parents_linked(s);
    lemma_s1_linked(s, header);
    lemma_new_heights_props(s, header);
    reveal(new_heights_of);
    assert forall|h: int| 0 <= h <= fork_h implies new_heights_of(s, header)[h]
        == s.heights[h] by {
        lemma_ancestor_trans(s1, k, fork_h, h);
        assert(ancestor_at(s1, k, h) == ancestor_at(s1, s.heights[fork_h], h));
        lemma_ancestor_preserved(s, header, s.heights[fork_h], h);
        lemma_ancestor_of_active(s, fork_h, h);
    }
}

/// Once applied, one staged record equals what `spec_connect` prescribes.
proof fn lemma_staged_one(s: StoreModel, header: BlockHeader, fork_h: int, kk: Seq<u8>)
    requires
        chain_wf(s),
        connects_new_tip(s, header),
        0 <= fork_h <= s.heights.len() - 1,
        ancestor_at(s1_of(s, header), hash_of(header), fork_h) == s.heights[fork_h],
        forall|h2: int|
            fork_h < h2 <= s.heights.len() - 1 ==> ancestor_at(
                s1_of(s, header),
                hash_of(header),
                h2,
            ) != s.heights[h2],
        s1_of(s, header).records.contains_key(kk),
    ensures
        staged_rec(s, header, fork_h, 0, kk) == (IndexModel {
            header: s1_of(s, header).records[kk].header,
            height: s1_of(s, header).records[kk].height,
            next: succ_in(new_heights_of(s, header), s1_of(s, header).records[kk].height, kk),
        }),
{
    let s1 = s1_of(s, header);
    let k = hash_of(header);
    let pk = header.prev_blockhash@;
    let nh = new_heights_of(s, header);
    let ph = s.records[pk].height;
    lemma_wf_parents_linked(s);
    lemma_s1_linked(s, header);
    lemma_new_heights_props(s, header);
    lemma_nh_below_fork(s, header, fork_h);
    let b = s1.records[kk];
    let hh = b.height;
    if kk == k {
        // the candidate: tip of the rebuilt chain, forward pointer empty
        assert(hh == ph + 1);
        assert(nh[hh] == kk);
        assert(succ_in(nh, hh, kk) == zero_hash());
    } else {
        assert(s.records.contains_key(kk));
        assert(record_ok(s, kk));
        assert(b == s.records[kk]);
        assert(0 <= hh < s.heights.len());
        if nh[hh] == kk && fork_h <= hh {
            // on the rebuilt chain with its child processed
            assert(hh <= ph);
            assert(staged_rec(s, header, fork_h, 0, kk).next == nh[hh + 1]);
            assert(succ_in(nh, hh, kk) == nh[hh + 1]);
        } else {
            // keeps its cleared value; show that equals the prescribed one
            if fork_h < hh && s.heights[hh] == kk {
                // old branch above the fork: cleared to the empty hash
                assert(nh[hh] != kk);
                assert(cleared_rec(s, header, fork_h, s.heights.len() as int, kk).next
                    == zero_hash());
                assert(succ_in(nh, hh, kk) == zero_hash());
            } else if s.heights[hh] == kk {
                // shared part strictly below the fork: pointer unchanged
                assert(hh <= fork_h);
                assert(nh[hh] == s.heights[hh]);
                assert(nh[hh] == kk);
                assert(hh < fork_h);
                assert(hh < s.heights.len() - 1);
                assert(b.next == s.heights[hh + 1]);
                assert(nh[hh + 1] == s.heights[hh + 1]);
                assert(succ_in(nh, hh, kk) == nh[hh + 1]);
                assert(cleared_rec(s, header, fork_h, s.heights.len() as int, kk) == b);
            } else {
                // off the old chain entirely: pointer was and stays empty
                assert(b.next == zero_hash());
                if 0 <= hh < nh.len() && nh[hh] == kk {
                    if hh <= fork_h {
                        assert(nh[hh] == s.heights[hh]);
                        assert(false);
                    } else {
                        assert(fork_h <= hh);
                        assert(false);
                    }
                }
                assert(succ_in(nh, hh, kk) == zero_hash());
                assert(cleared_rec(s, header, fork_h, s.heights.len() as int, kk).next
                    == zero_hash());
            }
        }
    }
}

/// Once every branch entry is applied, the staged records are exactly the
/// records `spec_connect` prescribes.
proof fn lemma_staged_final(s: StoreModel, header: BlockHeader, fork_h: int)
    requires
        chain_wf(s),
        connects_new_tip(s, header),
        0 <= fork_h <= s.heights.len() - 1,
        ancestor_at(s1_of(s, header), hash_of(header), fork_h) == s.heights[fork_h],
        forall|h2: int|
            fork_h < h2 <= s.heights.len() - 1 ==> ancestor_at(
                s1_of(s, header),
                hash_of(header),
                h2,
            ) != s.heights[h2],
    ensures
        forall|kk: Seq<u8>| #[trigger]
            s1_of(s, header).records.contains_key(kk) ==> staged_rec(s, header, fork_h, 0, kk) == (
            IndexModel {
                header: s1_of(s, header).records[kk].header,
                height: s1_of(s, header).records[kk].height,
                next: succ_in(
                    new_heights_of(s, header),
                    s1_of(s, header).records[kk].height,
                    kk,
                ),
            }),
{
    assert forall|kk: Seq<u8>| #[trigger]
        s1_of(s, header).records.contains_key(kk) implies staged_rec(s, header, fork_h, 0, kk)
        == (IndexModel {
        header: s1_of(s, header).records[kk].header,
        height: s1_of(s, header).records[kk].height,
        next: succ_in(new_heights_of(s, header), s1_of(s, header).records[kk].height, kk),
    }) by {
        lemma_staged_one(s, header, fork_h, kk);
    }
}

/// After clearing, laying the new branch and moving the tip, the store is
/// exactly what `spec_connect` prescribes.
#[verifier::rlimit(100)]
proof fn lemma_reorg_final(s: StoreModel, header: BlockHeader, fork_h: int, m: StoreModel)
    requires
        chain_wf(s),
        connects_new_tip(s, header),
        0 <= fork_h <= s.heights.len() - 1,
        ancestor_at(s1_of(s, header), hash_of(header), fork_h) == s.heights[fork_h],
        forall|h2: int|
            fork_h < h2 <= s.heights.len() - 1 ==> ancestor_at(
                s1_of(s, header),
                hash_of(header),
                h2,
            ) != s.heights[h2],
        m.tip == hash_of(header),
        m.records.dom() =~= s1_of(s, header).records.dom(),
        forall|kk: Seq<u8>|
            s1_of(s, header).records.contains_key(kk) ==> m.records[kk] == staged_rec(
                s,
                header,
                fork_h,
                0,
                kk,
            ),
        m.heights.len() == s.heights.len() + 1,
        forall|idx: int| 0 <= idx <= fork_h ==> m.heights[idx] == s.heights[idx],
        forall|idx: int|
            fork_h < idx < m.heights.len() ==> m.heights[idx] == ancestor_at(
                s1_of(s, header),
                hash_of(header),
                idx,
            ),
    ensures
        m == spec_connect(s, header),
{
    let s1 = s1_of(s, header);
    let t = spec_connect(s, header);
    let nh = new_heights_of(s, header);
    lemma_new_heights_props(s, header);
    lemma_staged_final(s, header, fork_h);
    lemma_nh_below_fork(s, header, fork_h);
    assert forall|kk: Seq<u8>| #[trigger] t.records.dom().contains(kk) implies m.records.contains_key(
        kk,
    ) && m.records[kk] == t.records[kk] by {
        assert(s1.records.contains_key(kk));
        assert(m.records[kk] == staged_rec(s, header, fork_h, 0, kk));
    }
    assert(m.records =~= t.records);
    assert forall|idx: int| 0 <= idx < m.heights.len() implies m.heights[idx] == nh[idx] by {
        if idx > fork_h {
            reveal(new_heights_of);
        }
    }
    assert(m.heights =~= t.heights);
}

/// A store freshly initialized with a genesis header is a well-formed
/// chain of one record; `Chain::new` accepts it.
pub proof fn lemma_genesis_wf(g: BlockHeader)
    ensures
        chain_wf(genesis_model(g)),
{
    let s = genesis_model(g);
    assert(s.heights.len() == 1);
    assert(s.records.contains_key(s.heights[0]));
    assert forall|k: Seq<u8>| s.records.contains_key(k) implies #[trigger] record_ok(s, k) by {
        assert(k == hash_of(g));
    }
}

/// Admitting a batch of headers in order, leftmost first.
pub open spec fn connect_all(s: StoreModel, headers: Seq<BlockHeader>) -> StoreModel
    decreases headers.len(),
{
    if headers.len() == 0 {
        s
    } else {
        connect_all(spec_connect(s, headers[0]), headers.drop_first())
    }
}

/// A batch preserves chain well-formedness.
pub proof fn lemma_connect_all_wf(s: StoreModel, headers: Seq<BlockHeader>)
    requires
        chain_wf(s),
    ensures
        chain_wf(connect_all(s, headers)),
    decreases headers.len(),
{
    if headers.len() > 0 {
        lemma_connect_preserves_wf(s, headers[0]);
        lemma_connect_all_wf(spec_connect(s, headers[0]), headers.drop_first());
    }
}

/// Admitting a header never shortens the active chain.
pub proof fn lemma_connect_extends_heights(s: StoreModel, header: BlockHeader)
    ensures
        spec_connect(s, header).heights.len() >= s.heights.len(),
{
    reveal(new_heights_of);
}

/// A batch never shortens the active chain.
pub proof fn lemma_connect_all_extends_heights(s: StoreModel, headers: Seq<BlockHeader>)
    ensures
        connect_all(s, headers).heights.len() >= s.heights.len(),
    decreases headers.len(),
{
    if headers.len() > 0 {
        lemma_connect_extends_heights(s, headers[0]);
        lemma_connect_all_extends_heights(spec_connect(s, headers[0]), headers.drop_first());
    }
}

/// Folding a batch in two halves.
proof fn lemma_connect_all_append(s: StoreModel, a: Seq<BlockHeader>, b: Seq<BlockHeader>)
    ensures
        connect_all(s, a + b) == connect_all(connect_all(s, a), b),
    decreases a.len(),
{
    if a.len() == 0 {
        assert(a + b =~= b);
    } else {
        assert((a + b)[0] == a[0]);
        assert((a + b).drop_first() =~= a.drop_first() + b);
        lemma_connect_all_append(spec_connect(s, a[0]), a.drop_first(), b);
    }
}

/// A header whose parent is unknown is ignored: the identity on the state.
pub proof fn lemma_connect_orphan_identity(s: StoreModel, header: BlockHeader)
    requires
        !s.records.contains_key(hash_of(header)),
        !s.records.contains_key(header.prev_blockhash@),
    ensures
        spec_connect(s, header) == s,
{
}

/// Orphan tolerance over a batch: a header whose parent is still unknown
/// when its turn comes is ignored, and the rest of the batch connects as
/// if it were absent.
pub proof fn lemma_orphan_in_batch(
    s: StoreModel,
    xs: Seq<BlockHeader>,
    o: BlockHeader,
    ys: Seq<BlockHeader>,
)
    requires
        !connect_all(s, xs).records.contains_key(hash_of(o)),
        !connect_all(s, xs).records.contains_key(o.prev_blockhash@),
    ensures
        connect_all(s, xs + seq![o] + ys) == connect_all(s, xs + ys),
{
    lemma_connect_all_append(s, xs, seq![o] + ys);
    assert((seq![o] + ys)[0] == o);
    assert((seq![o] + ys).drop_first() =~= ys);
    lemma_connect_orphan_identity(connect_all(s, xs), o);
    lemma_connect_all_append(s, xs, ys);
    assert(xs + seq![o] + ys =~= xs + (seq![o] + ys));
}

/// First-seen tie-break for two children of the tip: connecting two
/// distinct headers that both extend the tip, in order, leaves the first as
/// the tip; the second is stored at the same height, off the active chain.
/// (Stated for headers whose hashes are fresh and distinct; the digest is
/// otherwise uninterpreted here.)
pub proof fn lemma_two_children_first_seen(s: StoreModel, h1: BlockHeader, h2: BlockHeader)
    requires
        chain_wf(s),
        h1.prev_blockhash@ == s.tip,
        h2.prev_blockhash@ == s.tip,
        !s.records.contains_key(hash_of(h1)),
        !s.records.contains_key(hash_of(h2)),
        hash_of(h1) != hash_of(h2),
        s.heights.len() < i32::MAX as int,
    ensures
        ({
            let t = spec_connect(spec_connect(s, h1), h2);
            &&& t.tip == hash_of(h1)
            &&& t.heights == spec_connect(s, h1).heights
            &&& t.records.contains_key(hash_of(h2))
            &&& t.records[hash_of(h2)].height == s.heights.len()
            &&& t.records.contains_key(hash_of(h1))
            &&& t.records[hash_of(h1)].height == s.heights.len()
        }),
{
    let t1 = spec_connect(s, h1);
    let k1 = hash_of(h1);
    let k2 = hash_of(h2);
    let len = s.heights.len() as int;
    assert(s.records.contains_key(s.tip));
    assert(s.records[s.tip].height == len - 1);
    lemma_connect_preserves_wf(s, h1);
    lemma_new_heights_props(s, h1);
    assert(t1.heights.len() == len + 1);
    assert(t1.tip == k1);
    assert(t1.records.contains_key(h2.prev_blockhash@));
    assert(t1.records[h2.prev_blockhash@].height == len - 1);
    assert(t1.records.contains_key(k1) && t1.records[k1].height == len);
    assert(!t1.records.contains_key(k2));
    let t = spec_connect(t1, h2);
    assert(t == s1_of(t1, h2));
    assert(t.records[k1].height == len);
}

/// A sequence of headers forming a branch: the first links to `root`, each
/// later one to its predecessor.
pub open spec fn linked_branch(root: Seq<u8>, bs: Seq<BlockHeader>) -> bool {
    forall|i: int|
        0 <= i < bs.len() ==> (#[trigger] bs[i]).prev_blockhash@ == (if i == 0 {
            root
        } else {
            hash_of(bs[i - 1])
        })
}

/// The branch's hashes are new to the store and pairwise distinct.  (The
/// digest is an uninterpreted name here, so collision-freedom is a
/// hypothesis, not a theorem.)
pub open spec fn fresh_branch(s: StoreModel, bs: Seq<BlockHeader>) -> bool {
    &&& forall|i: int| 0 <= i < bs.len() ==> !s.records.contains_key(hash_of(#[trigger] bs[i]))
    &&& forall|i: int, j: int| 0 <= i < j < bs.len() ==> hash_of(bs[i]) != hash_of(bs[j])
}

/// The store after the first `i` headers of a fresh branch rooted at the
/// active-chain entry of height `hf` were admitted into `s`: every admitted
/// header is stored at its height, nothing else arrived, the old records
/// keep their place, and the active chain is untouched until the branch
/// passes the old tip — from then on it is the shared prefix plus the
/// branch, with the newest branch header as tip.
pub open spec fn branch_state(
    s: StoreModel,
    hf: int,
    bs: Seq<BlockHeader>,
    i: int,
    t: StoreModel,
) -> bool {
    &&& chain_wf(t)
    &&& forall|j: int|
        0 <= j < i ==> t.records.contains_key(hash_of(#[trigger] bs[j])) && t.records[hash_of(
            bs[j],
        )].height == hf + 1 + j && t.records[hash_of(bs[j])].header == bs[j]
    &&& forall|k: Seq<u8>| #[trigger]
        t.records.contains_key(k) ==> s.records.contains_key(k) || exists|j: int|
            0 <= j < i && k == hash_of(#[trigger] bs[j])
    &&& forall|k: Seq<u8>| #[trigger]
        s.records.contains_key(k) ==> t.records.contains_key(k) && t.records[k].height
            == s.records[k].height && t.records[k].header == s.records[k].header
    &&& (hf + i < s.heights.len() ==> t.heights == s.heights && t.tip == s.tip)
    &&& (hf + i >= s.heights.len() ==> {
        &&& t.heights.len() == hf + i + 1
        &&& (forall|k: int| 0 <= k <= hf ==> t.heights[k] == s.heights[k])
        &&& (forall|j: int| 0 <= j < i ==> t.heights[hf + 1 + j] == hash_of(#[trigger] bs[j]))
        &&& t.tip == hash_of(bs[i - 1])
    })
}

/// Walks agree between two stores whose records coincide in height and
/// header wherever the first store has them.
proof fn lemma_ancestor_agree(sa: StoreModel, sb: StoreModel, kk: Seq<u8>, h: int)
    requires
        parents_linked(sa),
        parents_linked(sb),
        sa.records.contains_key(kk),
        0 <= h <= sa.records[kk].height,
        forall|k: Seq<u8>| #[trigger]
            sa.records.contains_key(k) ==> sb.records.contains_key(k) && sb.records[k].height
                == sa.records[k].height && sb.records[k].header == sa.records[k].header,
    ensures
        ancestor_at(sb, kk, h) == ancestor_at(sa, kk, h),
    decreases sa.records[kk].height - h,
{
    assert(parent_ok(sa, kk));
    if sa.records[kk].height != h {
        lemma_ancestor_agree(sa, sb, sa.records[kk].header.prev_blockhash@, h);
    }
}

/// Within a branch state, the ancestors of the newest admitted header are
/// the earlier branch headers, then the shared prefix of the old chain.
proof fn lemma_branch_ancestor(
    s: StoreModel,
    hf: int,
    bs: Seq<BlockHeader>,
    i: int,
    t: StoreModel,
    j: int,
    h: int,
)
    requires
        chain_wf(s),
        0 <= hf < s.heights.len(),
        linked_branch(s.heights[hf], bs),
        branch_state(s, hf, bs, i, t),
        0 <= j < i <= bs.len(),
        0 <= h <= hf + 1 + j,
    ensures
        h > hf ==> ancestor_at(t, hash_of(bs[j]), h) == hash_of(bs[h - hf - 1]),
        h <= hf ==> ancestor_at(t, hash_of(bs[j]), h) == s.heights[h],
    decreases j,
{
    lemma_wf_parents_linked(t);
    lemma_wf_parents_linked(s);
    let kj = hash_of(bs[j]);
    assert(t.records[kj].header == bs[j]);
    if h == hf + 1 + j {
        assert(ancestor_at(t, kj, h) == kj);
    } else if j > 0 {
        assert(ancestor_at(t, kj, h) == ancestor_at(t, hash_of(bs[j - 1]), h));
        lemma_branch_ancestor(s, hf, bs, i, t, j - 1, h);
    } else {
        // one step to the root, then along the old chain
        let root = s.heights[hf];
        assert(bs[0].prev_blockhash@ == root);
        assert(s.records.contains_key(root));
        assert(t.records.contains_key(root) && t.records[root].height == hf);
        assert(ancestor_at(t, kj, h) == ancestor_at(t, root, h));
        lemma_ancestor_agree(s, t, root, h);
        lemma_ancestor_of_active(s, hf, h);
    }
}

/// A left fold over a batch, one header at a time from the right.
proof fn lemma_connect_all_snoc(s: StoreModel, hs: Seq<BlockHeader>, h: BlockHeader)
    ensures
        connect_all(s, hs.push(h)) == spec_connect(connect_all(s, hs), h),
    decreases hs.len(),
{
    if hs.len() == 0 {
        assert(hs.push(h)[0] == h);
        assert(hs.push(h).drop_first() =~= Seq::<BlockHeader>::empty());
        assert(connect_all(s, hs.push(h)) == connect_all(spec_connect(s, h), Seq::empty()));
    } else {
        assert(hs.push(h)[0] == hs[0]);
        assert(hs.push(h).drop_first() =~= hs.drop_first().push(h));
        lemma_connect_all_snoc(spec_connect(s, hs[0]), hs.drop_first(), h);
    }
}

/// One step of the replay while the branch is still at or below the old
/// tip: the candidate is stored off the active chain.
proof fn lemma_branch_step_low(s: StoreModel, hf: int, bs: Seq<BlockHeader>, i: int, t: StoreModel)
    requires
        chain_wf(s),
        0 <= hf < s.heights.len(),
        linked_branch(s.heights[hf], bs),
        fresh_branch(s, bs),
        hf + bs.len() < i32::MAX as int,
        0 <= i < bs.len(),
        branch_state(s, hf, bs, i, t),
        connects_fresh(t, bs[i]),
        t.records[bs[i].prev_blockhash@].height == hf + i,
        hf + i + 1 < s.heights.len(),
    ensures
        branch_state(s, hf, bs, i + 1, spec_connect(t, bs[i])),
{
    let hd = bs[i];
    let ki = hash_of(hd);
    let u = spec_connect(t, hd);
    lemma_connect_preserves_wf(t, hd);
    lemma_connect_stores_candidate(t, hd);
    assert(t.heights == s.heights && t.tip == s.tip);
    assert(u == s1_of(t, hd));
    assert forall|k: Seq<u8>| #[trigger] u.records.contains_key(k) implies
        s.records.contains_key(k) || exists|j: int|
            0 <= j < i + 1 && k == hash_of(#[trigger] bs[j]) by {
        if k != ki {
            assert(t.records.contains_key(k));
        } else {
            assert(k == hash_of(bs[i]));
        }
    }
}

/// One step of the replay once the branch reaches past the old tip: the
/// candidate takes the tip and the height index is the shared prefix plus
/// the branch.
#[verifier::rlimit(100)]
proof fn lemma_branch_step_high(s: StoreModel, hf: int, bs: Seq<BlockHeader>, i: int, t: StoreModel)
    requires
        chain_wf(s),
        0 <= hf < s.heights.len(),
        linked_branch(s.heights[hf], bs),
        fresh_branch(s, bs),
        hf + bs.len() < i32::MAX as int,
        0 <= i < bs.len(),
        branch_state(s, hf, bs, i, t),
        connects_fresh(t, bs[i]),
        t.records[bs[i].prev_blockhash@].height == hf + i,
        hf + i + 1 >= s.heights.len(),
    ensures
        branch_state(s, hf, bs, i + 1, spec_connect(t, bs[i])),
{
    let hd = bs[i];
    let ki = hash_of(hd);
    let pk = hd.prev_blockhash@;
    let u = spec_connect(t, hd);
    lemma_wf_parents_linked(t);
    lemma_connect_preserves_wf(t, hd);
    lemma_connect_stores_candidate(t, hd);
    assert(hf + i + 1 >= t.heights.len());
    assert(connects_new_tip(t, hd));
    lemma_new_heights_props(t, hd);
    let nh = new_heights_of(t, hd);
    assert(u.heights == nh && u.tip == ki);
    assert(u.heights.len() == hf + i + 2);
    assert(nh[hf + i + 1] == ki);
    assert forall|k: Seq<u8>| #[trigger] u.records.contains_key(k) implies
        s.records.contains_key(k) || exists|j: int|
            0 <= j < i + 1 && k == hash_of(#[trigger] bs[j]) by {
        if k != ki {
            assert(t.records.contains_key(k));
        } else {
            assert(k == hash_of(bs[i]));
        }
    }
    assert forall|k: int| 0 <= k <= hf implies u.heights[k] == s.heights[k] by {
        assert(nh[k] == ancestor_at(t, pk, k));
        if i == 0 {
            lemma_wf_parents_linked(s);
            lemma_ancestor_agree(s, t, pk, k);
            lemma_ancestor_of_active(s, hf, k);
        } else {
            lemma_branch_ancestor(s, hf, bs, i, t, i - 1, k);
        }
    }
    assert forall|j: int| 0 <= j < i + 1 implies u.heights[hf + 1 + j] == hash_of(
        #[trigger] bs[j],
    ) by {
        if j == i {
            assert(u.heights[hf + 1 + i] == nh[hf + i + 1]);
        } else {
            assert(nh[hf + 1 + j] == ancestor_at(t, pk, hf + 1 + j));
            lemma_branch_ancestor(s, hf, bs, i, t, i - 1, hf + 1 + j);
        }
    }
}

/// One step of the branch replay preserves the branch state.
proof fn lemma_branch_step(s: StoreModel, hf: int, bs: Seq<BlockHeader>, i: int, t: StoreModel)
    requires
        chain_wf(s),
        0 <= hf < s.heights.len(),
        linked_branch(s.heights[hf], bs),
        fresh_branch(s, bs),
        hf + bs.len() < i32::MAX as int,
        0 <= i < bs.len(),
        branch_state(s, hf, bs, i, t),
    ensures
        branch_state(s, hf, bs, i + 1, spec_connect(t, bs[i])),
{
    let hd = bs[i];
    let ki = hash_of(hd);
    let pk = hd.prev_blockhash@;
    // the candidate is new to the store
    assert(!t.records.contains_key(ki)) by {
        if t.records.contains_key(ki) {
            assert(!s.records.contains_key(ki));
            let j = choose|j: int| 0 <= j < i && ki == hash_of(bs[j]);
            assert(hash_of(bs[j]) != hash_of(bs[i]));
        }
    }
    // its parent sits at height hf + i
    if i == 0 {
        assert(pk == s.heights[hf]);
        assert(s.records.contains_key(pk));
        assert(t.records.contains_key(pk) && t.records[pk].height == hf);
    } else {
        assert(pk == hash_of(bs[i - 1]));
        assert(t.records.contains_key(pk) && t.records[pk].height == hf + i);
    }
    assert(connects_fresh(t, hd));
    if hf + i + 1 < s.heights.len() {
        lemma_branch_step_low(s, hf, bs, i, t);
    } else {
        lemma_branch_step_high(s, hf, bs, i, t);
    }
}

/// Replaying a whole fresh branch: the prefix states, by induction.
proof fn lemma_branch_replay(s: StoreModel, hf: int, bs: Seq<BlockHeader>, i: int)
    requires
        chain_wf(s),
        0 <= hf < s.heights.len(),
        linked_branch(s.heights[hf], bs),
        fresh_branch(s, bs),
        hf + bs.len() < i32::MAX as int,
        0 <= i <= bs.len(),
    ensures
        branch_state(s, hf, bs, i, connect_all(s, bs.take(i))),
    decreases i,
{
    if i == 0 {
        assert(bs.take(0) =~= Seq::<BlockHeader>::empty());
        assert(connect_all(s, bs.take(0)) == s);
    } else {
        lemma_branch_replay(s, hf, bs, i - 1);
        let t = connect_all(s, bs.take(i - 1));
        assert(bs.take(i) =~= bs.take(i - 1).push(bs[i - 1]));
        lemma_connect_all_snoc(s, bs.take(i - 1), bs[i - 1]);
        lemma_branch_step(s, hf, bs, i - 1, t);
    }
}

/// Reorg over a whole batch: admitting a fresh branch, rooted at any
/// active-chain ancestor and strictly longer than the old tip, makes its
/// newest header the tip; the active chain keeps the shared prefix and
/// carries the branch above it, and every branch header is stored at its
/// height.  (Stated for branches with fresh, pairwise distinct hashes.)
pub proof fn lemma_branch_reorg(s: StoreModel, hf: int, bs: Seq<BlockHeader>)
    requires
        chain_wf(s),
        0 <= hf < s.heights.len(),
        linked_branch(s.heights[hf], bs),
        fresh_branch(s, bs),
        hf + bs.len() < i32::MAX as int,
        hf + bs.len() >= s.heights.len(),
        bs.len() >= 1,
    ensures
        ({
            let t = connect_all(s, bs);
            &&& chain_wf(t)
            &&& t.heights.len() == hf + bs.len() + 1
            &&& t.tip == hash_of(bs.last())
            &&& forall|k: int| 0 <= k <= hf ==> t.heights[k] == s.heights[k]
            &&& forall|j: int|
                0 <= j < bs.len() ==> t.heights[hf + 1 + j] == hash_of(#[trigger] bs[j])
            &&& forall|j: int|
                0 <= j < bs.len() ==> t.records.contains_key(hash_of(#[trigger] bs[j]))
                    && t.records[hash_of(bs[j])].height == hf + 1 + j && t.records[hash_of(
                    bs[j],
                )].header == bs[j]
        }),
{
    lemma_branch_replay(s, hf, bs, bs.len() as int);
    assert(bs.take(bs.len() as int) =~= bs);
}

/// The heights a locator walk emits, newest first: from `h` downward,
/// `ones` single steps, then steps that double; height 0 (genesis) is
/// always the final entry.
pub open spec fn locator_tail(h: int, ones: int, step: int) -> Seq<int>
    decreases (if h <= 0 {
        0int
    } else {
        h
    }),
        when step >= 1
{
    if h <= 0 {
        seq![0int]
    } else if ones > 0 {
        seq![h] + locator_tail(h - 1, ones - 1, step)
    } else {
        seq![h] + locator_tail(h - step, 0, step * 2)
    }
}

/// The heights of a locator for a chain whose tip is at `tip`: ten single
/// steps, then doubling gaps, genesis last.
pub open spec fn locator_heights(tip: int) -> Seq<int> {
    locator_tail(tip, 10, 2)
}

proof fn lemma_locator_tail_shape(h: int, ones: int, step: int)
    requires
        step >= 1,
        ones >= 0,
    ensures
        ({
            let t = locator_tail(h, ones, step);
            &&& t.len() >= 1
            &&& t[0] == (if h <= 0 {
                0int
            } else {
                h
            })
            &&& t[t.len() - 1] == 0
            &&& forall|j: int|
                0 <= j < t.len() ==> 0 <= t[j] && t[j] <= (if h <= 0 {
                    0int
                } else {
                    h
                })
            &&& forall|j: int| 0 <= j < t.len() - 1 ==> #[trigger] t[j] > t[j + 1]
            &&& forall|j: int|
                0 <= j < t.len() && j <= ones ==> #[trigger] t[j] == (if h - j > 0 {
                    h - j
                } else {
                    0int
                })
        }),
    decreases (if h <= 0 {
        0int
    } else {
        h
    }),
{
    if h <= 0 {
    } else if ones > 0 {
        lemma_locator_tail_shape(h - 1, ones - 1, step);
    } else {
        lemma_locator_tail_shape(h - step, 0, step * 2);
    }
}

proof fn lemma_locator_tail_doubling(h: int, ones: int, step: int)
    requires
        step >= 1,
        ones >= 0,
    ensures
        ({
            let t = locator_tail(h, ones, step);
            &&& forall|j: int|
                ones <= j && 0 <= j && j + 2 <= t.len() - 2 ==> t[j + 1] - t[j + 2] == 2 * ((
                #[trigger] t[j]) - t[j + 1])
            &&& (ones == 0 && t.len() >= 3 ==> t[0] - t[1] == step)
        }),
    decreases (if h <= 0 {
        0int
    } else {
        h
    }),
{
    let t = locator_tail(h, ones, step);
    if h <= 0 {
    } else if ones > 0 {
        lemma_locator_tail_doubling(h - 1, ones - 1, step);
        let t2 = locator_tail(h - 1, ones - 1, step);
        assert forall|j: int|
            ones <= j && 0 <= j && j + 2 <= t.len() - 2 implies t[j + 1] - t[j + 2] == 2 * ((
        #[trigger] t[j]) - t[j + 1]) by {
            assert(t[j] == t2[j - 1] && t[j + 1] == t2[j] && t[j + 2] == t2[j + 1]);
        }
    } else {
        lemma_locator_tail_doubling(h - step, 0, step * 2);
        lemma_locator_tail_shape(h - step, 0, step * 2);
        let t2 = locator_tail(h - step, 0, step * 2);
        if h - step <= 0 {
            assert(t2 =~= seq![0int]);
        }
        assert forall|j: int|
            0 <= j && j + 2 <= t.len() - 2 implies t[j + 1] - t[j + 2] == 2 * ((#[trigger] t[j])
            - t[j + 1]) by {
            if j == 0 {
                assert(t.len() >= 4);
                assert(t2.len() >= 3);
                assert(h - step > 0);
                assert(t[1] == t2[0] && t[2] == t2[1]);
                assert(t2[0] - t2[1] == step * 2);
            } else {
                assert(t[j] == t2[j - 1] && t[j + 1] == t2[j] && t[j + 2] == t2[j + 1]);
            }
        }
    }
}

/// Locator shape: heights strictly decrease; the first ten steps from the
/// tip go down one height each; interior gaps after them double; genesis
/// (height 0) is the final entry.
pub proof fn lemma_locator_shape(tip: int)
    requires
        tip >= 0,
    ensures
        ({
            let t = locator_heights(tip);
            &&& t.len() >= 1
            &&& t[0] == tip
            &&& t[t.len() - 1] == 0
            &&& forall|j: int| 0 <= j < t.len() ==> 0 <= #[trigger] t[j] <= tip
            &&& forall|j: int| 0 <= j < t.len() - 1 ==> #[trigger] t[j] > t[j + 1]
            &&& forall|j: int|
                0 <= j < t.len() && j <= 10 ==> #[trigger] t[j] == (if tip - j > 0 {
                    tip - j
                } else {
                    0int
                })
            &&& forall|j: int|
                10 <= j && j + 2 <= t.len() - 2 ==> t[j + 1] - t[j + 2] == 2 * ((#[trigger] t[j])
                    - t[j + 1])
        }),
{
    lemma_locator_tail_shape(tip, 10, 2);
    lemma_locator_tail_doubling(tip, 10, 2);
}

/// Ambient facts of a reorganization in progress, bundled for the loops of
/// `connect_block_header`.
spec fn reorg_ctx(
    s: StoreModel,
    header: BlockHeader,
    s1: StoreModel,
    key: BlockHash,
    phi: int,
) -> bool {
    &&& chain_wf(s)
    &&& connects_new_tip(s, header)
    &&& s1 == s1_of(s, header)
    &&& key@ == hash_of(header)
    &&& phi == s.records[header.prev_blockhash@].height
    &&& phi == s.heights.len() - 1
    &&& phi + 1 < i32::MAX as int
    &&& parents_linked(s1)
}

/// The chain: a store plus the invariant that makes it a chain.
pub struct Chain<T: ChainStore> {
    store: T,
}

impl<T: ChainStore> View for Chain<T> {
    type V = StoreModel;

    closed spec fn view(&self) -> StoreModel {
        self.store.model()
    }
}

impl<T: ChainStore> Chain<T> {
    /// Both the store's own invariant and chain well-formedness hold.
    pub closed spec fn wf(&self) -> bool {
        self.store.inv() && chain_wf(self.store.model())
    }

    /// What `wf` says of the abstract state.
    pub proof fn lemma_wf_chain(&self)
        requires
            self.wf(),
        ensures
            chain_wf(self@),
    {
    }

    /// Height of the active-chain tip.
    pub open spec fn spec_height(&self) -> int {
        self@.heights.len() - 1
    }

    /// Wraps an initialized store.  `ChainStore::initialize` establishes the
    /// precondition for a fresh store.
    pub fn new(store: T) -> (r: Chain<T>)
        requires
            store.inv(),
            chain_wf(store.model()),
        ensures
            r.wf(),
            r@ == store.model(),
    {
        Chain { store }
    }

    /// Gives the store back, dissolving the chain.
    pub fn into_store(self) -> (r: T)
        ensures
            r.model() == self@,
            self.wf() ==> r.inv() && chain_wf(r.model()),
    {
        self.store
    }

    /// The record at the active-chain tip.
    pub fn tip(&self) -> (r: BlockIndex)
        requires
            self.wf(),
        ensures
            r@ == self@.records[self@.tip],
            r.height == self.spec_height(),
    {
        let len = self.store.height_index_len();
        let b = self.store.get_at_height((len - 1) as i32);
        proof {
            assert(self@.heights[self.spec_height()] == self@.tip);
        }
        match b {
            Some(b) => b,
            None => {
                proof {
                    assert(false);
                }
                // unreachable on a well-formed chain
                BlockIndex {
                    header: BlockHeader {
                        version: 0,
                        prev_blockhash: BlockHash::zero(),
                        merkle_root: BlockHash::zero(),
                        time: 0,
                        bits: 0,
                        nonce: 0,
                    },
                    height: 0,
                    next_blockhash: BlockHash::zero(),
                }
            },
        }
    }

    /// Height of the active-chain tip.
    pub fn height(&self) -> (r: i32)
        requires
            self.wf(),
        ensures
            r == self.spec_height(),
    {
        let len = self.store.height_index_len();
        (len - 1) as i32
    }

    /// Hash on the active chain at the given height; `None` above the tip or
    /// below zero.
    pub fn get_block_hash(&self, height: i32) -> (r: Option<BlockHash>)
        requires
            self.wf(),
        ensures
            match r {
                Some(h) => 0 <= height <= self.spec_height() && h@ == self@.heights[height as int],
                None => !(0 <= height <= self.spec_height()),
            },
    {
        self.store.height_hash(height)
    }

    /// Admits one header into the chain.
    ///
    /// A header already known is returned as stored and nothing changes; a
    /// header whose parent is unknown fails with `OrphanHeader`; a parent
    /// height at the representable maximum fails with `StoreConsistency`
    /// (the height counter would leave `i32`).  Otherwise the candidate is
    /// persisted at one above its parent's height, and if that exceeds the
    /// tip height the active chain is extended or reorganized onto the
    /// candidate's ancestry; at or below the tip the active chain is kept
    /// (first-seen tie-break).  The abstract effect is exactly
    /// [`spec_connect`].
    #[verifier::rlimit(100)]
    pub fn connect_block_header(&mut self, header: BlockHeader) -> (r: Result<BlockIndex, Error>)
        requires
            old(self).wf(),
        ensures
            final(self).wf(),
            final(self)@ == spec_connect(old(self)@, header),
            ({
                let s = old(self)@;
                let k = hash_of(header);
                let pk = header.prev_blockhash@;
                if s.records.contains_key(k) {
                    r matches Ok(b) && b@ == s.records[k]
                } else if !s.records.contains_key(pk) {
                    r == Err::<BlockIndex, Error>(Error::OrphanHeader)
                } else if s.records[pk].height + 1 >= i32::MAX as int {
                    r == Err::<BlockIndex, Error>(Error::StoreConsistency)
                } else {
                    r matches Ok(b) && b@ == (IndexModel {
                        header,
                        height: s.records[pk].height + 1,
                        next: zero_hash(),
                    })
                }
            }),
    {
        let ghost s = old(self)@;
        proof {
            lemma_connect_preserves_wf(s, header);
            lemma_wf_parents_linked(s);
        }
        let key = block_hash(&header);
        if let Some(b) = self.store.get(&key) {
            return Ok(b);
        }
        let parent = match self.store.get(&header.prev_blockhash) {
            Some(p) => p,
            None => {
                return Err(Error::OrphanHeader);
            },
        };
        proof {
            assert(record_ok(s, header.prev_blockhash@));
        }
        if parent.height >= i32::MAX - 1 {
            return Err(Error::StoreConsistency);
        }
        let height = parent.height + 1;
        let candidate = BlockIndex { header, height, next_blockhash: BlockHash::zero() };
        self.store.put(&key, &candidate);
        let ghost s1 = s1_of(s, header);
        proof {
            assert(candidate@ == s1.records[key@]);
            assert(self.store.model() == s1);
            lemma_s1_linked(s, header);
        }
        let tip_len = self.store.height_index_len();
        if (height as usize) < tip_len {
            // at or below the tip: stored off the active chain, nothing moves
            return Ok(candidate);
        }
        // one above the tip: the candidate's ancestry becomes the active chain
        proof {
            assert(parent.height as int == s.heights.len() - 1);
            assert(connects_new_tip(s, header));
            lemma_new_heights_props(s, header);
        }
        let ghost nh = new_heights_of(s, header);
        let ghost phi = parent.height as int;
        // walk the candidate's ancestry and the active chain down in
        // lockstep until they meet; collect the candidate's side
        let mut walk_new: BlockHash = header.prev_blockhash;
        let mut walk_old: BlockHash = self.store.tip_hash();
        let mut h: i32 = parent.height;
        let mut branch: Vec<BlockHash> = Vec::new();
        branch.push(key);
        proof {
            assert(ancestor_at(s1, key@, phi) == ancestor_at(s1, header.prev_blockhash@, phi));
            assert(walk_new@ == ancestor_at(s1, key@, phi));
            assert(walk_old@ == s.heights[phi]);
        }
        while !walk_new.same(&walk_old)
            invariant
                reorg_ctx(s, header, s1, key, phi),
                self.store.inv(),
                self.store.model() == s1,
                0 <= h <= phi,
                walk_new@ == ancestor_at(s1, key@, h as int),
                walk_old@ == s.heights[h as int],
                branch@.len() == phi + 1 - h,
                forall|t: int|
                    0 <= t < branch@.len() ==> branch@[t]@ == ancestor_at(s1, key@, phi + 1 - t),
                forall|h2: int|
                    h < h2 <= phi ==> ancestor_at(s1, key@, h2) != s.heights[h2],
            decreases h,
        {
            proof {
                if h == 0 {
                    // both walks sit on the unique height-0 record
                    lemma_ancestor_props(s1, key@, 0);
                    let g = ancestor_at(s1, key@, 0);
                    assert(g != key@);
                    assert(s.records.contains_key(g));
                    assert(record_ok(s, g));
                    assert(false);
                }
                lemma_ancestor_props(s1, key@, h as int);
                lemma_ancestor_step(s1, key@, h as int);
                assert(record_ok(s, s.heights[h as int]));
            }
            branch.push(walk_new);
            let b_new = match self.store.get(&walk_new) {
                Some(b) => b,
                None => {
                    proof {
                        assert(false);
                    }
                    candidate
                },
            };
            let b_old = match self.store.get(&walk_old) {
                Some(b) => b,
                None => {
                    proof {
                        assert(false);
                    }
                    candidate
                },
            };
            walk_new = b_new.header.prev_blockhash;
            walk_old = b_old.header.prev_blockhash;
            h = h - 1;
        }
        let fork_h = h;
        let fork_hash = walk_new;
        proof {
            assert(fork_hash@ == s.heights[fork_h as int]);
            assert(ancestor_at(s1, key@, fork_h as int) == s.heights[fork_h as int]);
        }
        // clear the forward pointers of the old branch above the fork
        let mut j: i32 = fork_h + 1;
        while (j as usize) < tip_len
            invariant
                reorg_ctx(s, header, s1, key, phi),
                0 <= fork_h <= phi,
                fork_hash@ == s.heights[fork_h as int],
                ancestor_at(s1, key@, fork_h as int) == s.heights[fork_h as int],
                tip_len == s.heights.len(),
                fork_h + 1 <= j <= phi + 1,
                self.store.inv(),
                self.store.model().heights == s.heights,
                self.store.model().tip == s.tip,
                self.store.model().records.dom() =~= s1.records.dom(),
                forall|kk: Seq<u8>|
                    s1.records.contains_key(kk) ==> self.store.model().records[kk] == cleared_rec(
                        s,
                        header,
                        fork_h as int,
                        j as int,
                        kk,
                    ),
            decreases phi + 1 - j,
        {
            let oh = match self.store.height_hash(j) {
                Some(x) => x,
                None => {
                    proof {
                        assert(false);
                    }
                    key
                },
            };
            proof {
                assert(oh@ == s.heights[j as int]);
                assert(record_ok(s, oh@));
                assert(oh@ != key@);
            }
            let rec = match self.store.get(&oh) {
                Some(b) => b,
                None => {
                    proof {
                        assert(false);
                    }
                    candidate
                },
            };
            let cleared = BlockIndex {
                header: rec.header,
                height: rec.height,
                next_blockhash: BlockHash::zero(),
            };
            self.store.put(&oh, &cleared);
            proof {
                assert forall|kk: Seq<u8>| s1.records.contains_key(kk) implies self.store.model().records[kk]
                    == cleared_rec(s, header, fork_h as int, j + 1, kk) by {
                    if kk != oh@ {
                        assert(self.store.model().records[kk] == cleared_rec(
                            s,
                            header,
                            fork_h as int,
                            j as int,
                            kk,
                        ));
                        if kk != key@ {
                            assert(record_ok(s, kk));
                        }
                    }
                }
                assert(self.store.model().records.dom() =~= s1.records.dom());
            }
            j = j + 1;
        }
        // shorten the height index to the fork, then lay the new branch
        self.store.clear_height_index_above(fork_h);
        proof {
            assert(self.store.model().heights =~= s.heights.take(fork_h + 1));
        }
        let mut i: usize = branch.len();
        while i > 0
            invariant
                reorg_ctx(s, header, s1, key, phi),
                0 <= fork_h <= phi,
                fork_hash@ == s.heights[fork_h as int],
                ancestor_at(s1, key@, fork_h as int) == s.heights[fork_h as int],
                height == phi + 1,
                nh == new_heights_of(s, header),
                branch@.len() == phi + 1 - fork_h,
                forall|t: int|
                    0 <= t < branch@.len() ==> branch@[t]@ == ancestor_at(s1, key@, phi + 1 - t),
                0 <= i <= branch@.len(),
                self.store.inv(),
                self.store.model().tip == s.tip,
                self.store.model().heights.len() == fork_h + 1 + (branch@.len() - i),
                forall|idx: int|
                    0 <= idx <= fork_h ==> self.store.model().heights[idx] == s.heights[idx],
                forall|idx: int|
                    fork_h < idx < self.store.model().heights.len()
                        ==> self.store.model().heights[idx] == ancestor_at(s1, key@, idx),
                self.store.model().records.dom() =~= s1.records.dom(),
                forall|kk: Seq<u8>|
                    s1.records.contains_key(kk) ==> self.store.model().records[kk] == staged_rec(
                        s,
                        header,
                        fork_h as int,
                        i as int,
                        kk,
                    ),
            decreases i,
        {
            let t = i - 1;
            let hh: i32 = height - (t as i32);
            let bh = branch[t];
            proof {
                reveal(new_heights_of);
                assert(bh@ == ancestor_at(s1, key@, hh as int));
                lemma_ancestor_props(s1, key@, hh as int);
                lemma_ancestor_step(s1, key@, hh as int);
            }
            self.store.set_height_index(hh, &bh);
            let parent_hash = if t + 1 < branch.len() {
                branch[t + 1]
            } else {
                fork_hash
            };
            proof {
                assert(parent_hash@ == ancestor_at(s1, key@, hh - 1));
                lemma_ancestor_props(s1, key@, hh - 1);
            }
            let prec = match self.store.get(&parent_hash) {
                Some(b) => b,
                None => {
                    proof {
                        assert(false);
                    }
                    candidate
                },
            };
            let upd = BlockIndex { header: prec.header, height: prec.height, next_blockhash: bh };
            self.store.put(&parent_hash, &upd);
            proof {
                reveal(new_heights_of);
                assert(nh[hh as int] == bh@);
                assert(nh[hh - 1] == parent_hash@);
                assert forall|kk: Seq<u8>| s1.records.contains_key(kk) implies self.store.model().records[kk]
                    == staged_rec(s, header, fork_h as int, t as int, kk) by {
                    if kk == parent_hash@ {
                        assert(s1.records[kk].height == hh - 1);
                        assert(upd@ == staged_rec(s, header, fork_h as int, t as int, kk));
                    } else {
                        assert(self.store.model().records[kk] == staged_rec(
                            s,
                            header,
                            fork_h as int,
                            i as int,
                            kk,
                        ));
                        assert(s1.records[kk].height != hh - 1 || nh[s1.records[kk].height] != kk);
                    }
                }
                assert(self.store.model().records.dom() =~= s1.records.dom());
            }
            i = t;
        }
        self.store.update_tip(&key);
        proof {
            lemma_reorg_final(s, header, fork_h as int, self.store.model());
        }
        Ok(candidate)
    }

    /// Builds the locator for a `getheaders` request: the active-chain hash
    /// at each height of [`locator_heights`], newest first, genesis last.
    pub fn get_locator(&self) -> (r: Vec<BlockHash>)
        requires
            self.wf(),
        ensures
            r@.len() == locator_heights(self.spec_height()).len(),
            forall|j: int|
                0 <= j < r@.len() ==> r@[j]@ == self@.heights[locator_heights(self.spec_height())[j]],
    {
        let tip = self.height();
        proof {
            lemma_locator_shape(tip as int);
        }
        let ghost full = locator_heights(tip as int);
        let mut r: Vec<BlockHash> = Vec::new();
        let mut h: i64 = tip as i64;
        let mut ones: u32 = 10;
        let mut step: i64 = 2;
        while h > 0
            invariant
                self.wf(),
                tip == self.spec_height(),
                0 <= tip <= i32::MAX,
                full == locator_heights(tip as int),
                h <= tip,
                h >= -(2 * (tip + 2)),
                1 <= step <= 2 * (tip + 2),
                h + step <= tip + 2,
                full.len() == r@.len() + locator_tail(h as int, ones as int, step as int).len(),
                forall|j: int| 0 <= j < r@.len() ==> r@[j]@ == self@.heights[full[j]],
                forall|j: int|
                    0 <= j < locator_tail(h as int, ones as int, step as int).len()
                        ==> locator_tail(h as int, ones as int, step as int)[j] == full[r@.len()
                        + j],
                forall|j: int| 0 <= j < full.len() ==> 0 <= #[trigger] full[j] <= tip,
            decreases (if h > 0 {
                h
            } else {
                0
            }),
        {
            let ghost h0 = h as int;
            let ghost ones0 = ones as int;
            let ghost step0 = step as int;
            let bh = match self.get_block_hash(h as i32) {
                Some(x) => x,
                None => {
                    proof {
                        assert(false);
                    }
                    BlockHash::zero()
                },
            };
            proof {
                assert(locator_tail(h as int, ones as int, step as int)[0] == h as int);
                assert(full[r@.len() as int] == h as int);
            }
            r.push(bh);
            if ones > 0 {
                h = h - 1;
                ones = ones - 1;
            } else {
                h = h - step;
                step = step * 2;
            }
            proof {
                assert(locator_tail(h0, ones0, step0) =~= seq![h0] + locator_tail(
                    h as int,
                    ones as int,
                    step as int,
                ));
                assert forall|j: int|
                    0 <= j < locator_tail(h as int, ones as int, step as int).len() implies locator_tail(
                    h as int,
                    ones as int,
                    step as int,
                )[j] == full[r@.len() + j] by {
                    assert(locator_tail(h0, ones0, step0)[j + 1] == full[(r@.len() - 1) + (j
                        + 1)]);
                    assert(locator_tail(h0, ones0, step0)[j + 1] == locator_tail(
                        h as int,
                        ones as int,
                        step as int,
                    )[j]);
                }
            }
        }
        proof {
            assert(locator_tail(h as int, ones as int, step as int) =~= seq![0int]);
        }
        let gh = match self.get_block_hash(0) {
            Some(x) => x,
            None => {
                proof {
                    assert(false);
                }
                BlockHash::zero()
            },
        };
        r.push(gh);
        r
    }

    /// Record lookup anywhere known to the store.
    pub fn get_block_index(&self, hash: &BlockHash) -> (r: Option<BlockIndex>)
        requires
            self.wf(),
        ensures
            match r {
                Some(b) => self@.records.contains_key(hash@) && b@ == self@.records[hash@],
                None => !self@.records.contains_key(hash@),
            },
    {
        self.store.get(hash)
    }
}

/// Chain density: every height up to the tip resolves to a record at
/// exactly that height.
pub proof fn lemma_chain_density(s: StoreModel, h: int)
    requires
        chain_wf(s),
        0 <= h < s.heights.len(),
    ensures
        s.records.contains_key(s.heights[h]),
        s.records[s.heights[h]].height == h,
{
}

/// Chain integrity: every active-chain record above genesis links to the
/// active-chain hash one height below.
pub proof fn lemma_chain_integrity(s: StoreModel, h: int)
    requires
        chain_wf(s),
        1 <= h < s.heights.len(),
    ensures
        s.records[s.heights[h]].header.prev_blockhash@ == s.heights[h - 1],
{
}

} // verus!
