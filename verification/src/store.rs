//! Persistence capability for `BlockIndex` records.
//!
//! A chain store keeps records keyed by block hash, a dense height-to-hash
//! index for the active chain, and a single tip pointer.  Its abstract state
//! is a [`StoreModel`]; every operation is specified against that model, so
//! any store variant with the same contracts can sit below a `Chain`.

use vstd::prelude::*;

use crate::block::{block_hash, hash_of, header_bytes, le32, lemma_header_bytes_injective, lemma_le32_injective, push_hash, push_header, push_le32, read_hash, read_header, read_le32, zero_hash, BlockHash, BlockHeader};
use crate::chain::{chain_wf, record_ok, Error};

verus! {

broadcast use vstd::array::group_array_axioms;

/// A persisted record: one header together with its chain position.
#[derive(Clone, Copy, Debug)]
pub struct BlockIndex {
    /// The header itself.
    pub header: BlockHeader,
    /// Height on the chain; genesis is 0.
    pub height: i32,
    /// Hash of the successor on the active chain; all-zero if this record is
    /// the tip or does not lie on the active chain.
    pub next_blockhash: BlockHash,
}

/// Abstract value of a [`BlockIndex`].
pub struct IndexModel {
    /// The header.
    pub header: BlockHeader,
    /// Height on the chain.
    pub height: int,
    /// Hash of the successor on the active chain, or all-zero.
    pub next: Seq<u8>,
}

impl View for BlockIndex {
    type V = IndexModel;

    open spec fn view(&self) -> IndexModel {
        IndexModel { header: self.header, height: self.height as int, next: self.next_blockhash@ }
    }
}

/// Abstract state of a chain store.
pub struct StoreModel {
    /// All known records, keyed by the hash of their header.
    pub records: Map<Seq<u8>, IndexModel>,
    /// The active chain: `heights[h]` is the hash at height `h`, dense from 0.
    pub heights: Seq<Seq<u8>>,
    /// Hash of the active-chain tip.
    pub tip: Seq<u8>,
}

/// A store holding nothing at all, as it is before initialization.
pub open spec fn store_empty(s: StoreModel) -> bool {
    s.records.dom() =~= Set::empty() && s.heights.len() == 0
}

/// The store state right after initialization with genesis header `g`.
pub open spec fn genesis_model(g: BlockHeader) -> StoreModel {
    StoreModel {
        records: Map::empty().insert(
            hash_of(g),
            IndexModel { header: g, height: 0, next: zero_hash() },
        ),
        heights: seq![hash_of(g)],
        tip: hash_of(g),
    }
}

/// Persistence of `BlockIndex` records: the capability a `Chain` builds on.
pub trait ChainStore: Sized {
    /// The abstract state of this store.
    spec fn model(&self) -> StoreModel;

    /// Representation invariant of this store.
    spec fn inv(&self) -> bool;

    /// Idempotent setup: an empty store receives the genesis record at height
    /// 0 and the tip pointer; a store already holding this genesis is left
    /// untouched; a store holding anything else fails.
    fn initialize(&mut self, genesis: &BlockHeader) -> (r: Result<(), Error>)
        requires
            old(self).inv(),
        ensures
            final(self).inv(),
            store_empty(old(self).model()) ==> r is Ok && final(self).model() == genesis_model(
                *genesis,
            ),
            !store_empty(old(self).model()) ==> final(self).model() == old(self).model() && (
            if old(self).model().heights.len() > 0 && old(self).model().heights[0] == hash_of(
                *genesis,
            ) {
                r is Ok
            } else {
                r == Err::<(), Error>(Error::StoreConsistency)
            }),
    ;

    /// Lookup by block hash.
    fn get(&self, hash: &BlockHash) -> (r: Option<BlockIndex>)
        requires
            self.inv(),
        ensures
            match r {
                Some(b) => self.model().records.contains_key(hash@) && b@ == self.model().records[hash@],
                None => !self.model().records.contains_key(hash@),
            },
    ;

    /// Upsert by block hash.
    fn put(&mut self, hash: &BlockHash, b: &BlockIndex)
        requires
            old(self).inv(),
        ensures
            final(self).inv(),
            final(self).model().records == old(self).model().records.insert(hash@, b@),
            final(self).model().heights == old(self).model().heights,
            final(self).model().tip == old(self).model().tip,
    ;

    /// The hash on the active chain at the given height, if the height index
    /// covers it.
    fn height_hash(&self, height: i32) -> (r: Option<BlockHash>)
        requires
            self.inv(),
        ensures
            match r {
                Some(h) => 0 <= height < self.model().heights.len() && h@
                    == self.model().heights[height as int],
                None => !(0 <= height < self.model().heights.len()),
            },
    ;

    /// Lookup by height on the active chain.
    fn get_at_height(&self, height: i32) -> (r: Option<BlockIndex>)
        requires
            self.inv(),
        ensures
            match r {
                Some(b) => 0 <= height < self.model().heights.len()
                    && self.model().records.contains_key(self.model().heights[height as int]) && b@
                    == self.model().records[self.model().heights[height as int]],
                None => !(0 <= height < self.model().heights.len()
                    && self.model().records.contains_key(self.model().heights[height as int])),
            },
    ;

    /// Number of entries in the height index (tip height + 1 once
    /// initialized).
    fn height_index_len(&self) -> (r: usize)
        requires
            self.inv(),
        ensures
            r == self.model().heights.len(),
    ;

    /// The tip pointer.
    fn tip_hash(&self) -> (r: BlockHash)
        requires
            self.inv(),
        ensures
            r@ == self.model().tip,
    ;

    /// Sets the tip pointer.
    fn update_tip(&mut self, hash: &BlockHash)
        requires
            old(self).inv(),
        ensures
            final(self).inv(),
            final(self).model().records == old(self).model().records,
            final(self).model().heights == old(self).model().heights,
            final(self).model().tip == hash@,
    ;

    /// Writes one entry of the height index; `height` may extend the dense
    /// range by exactly one.
    fn set_height_index(&mut self, height: i32, hash: &BlockHash)
        requires
            old(self).inv(),
            0 <= height <= old(self).model().heights.len(),
        ensures
            final(self).inv(),
            final(self).model().records == old(self).model().records,
            final(self).model().tip == old(self).model().tip,
            height < old(self).model().heights.len() ==> final(self).model().heights == old(
                self,
            ).model().heights.update(height as int, hash@),
            height == old(self).model().heights.len() ==> final(self).model().heights == old(
                self,
            ).model().heights.push(hash@),
    ;

    /// Removes every height-index entry strictly above `height`.
    fn clear_height_index_above(&mut self, height: i32)
        requires
            old(self).inv(),
            0 <= height,
        ensures
            final(self).inv(),
            final(self).model().records == old(self).model().records,
            final(self).model().tip == old(self).model().tip,
            height + 1 < old(self).model().heights.len() ==> final(self).model().heights == old(
                self,
            ).model().heights.take(height + 1),
            height + 1 >= old(self).model().heights.len() ==> final(self).model().heights == old(
                self,
            ).model().heights,
    ;
}

/// One slot of the in-memory store: a record and the hash that keys it.
#[derive(Clone, Copy, Debug)]
pub struct StoreEntry {
    /// Key: hash of `index.header`.
    pub hash: BlockHash,
    /// The stored record.
    pub index: BlockIndex,
}

/// The record map an entry list denotes: later entries shadow earlier ones,
/// though the store keeps keys unique anyway.
pub open spec fn entries_map(s: Seq<StoreEntry>) -> Map<Seq<u8>, IndexModel>
    decreases s.len(),
{
    if s.len() == 0 {
        Map::empty()
    } else {
        entries_map(s.drop_last()).insert(s.last().hash@, s.last().index@)
    }
}

/// No two entries share a key.
pub open spec fn unique_keys(s: Seq<StoreEntry>) -> bool {
    forall|i: int, j: int| 0 <= i < j < s.len() ==> s[i].hash@ != s[j].hash@
}

proof fn lemma_entries_map_contains(s: Seq<StoreEntry>, k: Seq<u8>)
    ensures
        entries_map(s).contains_key(k) <==> exists|i: int| 0 <= i < s.len() && s[i].hash@ == k,
    decreases s.len(),
{
    if s.len() > 0 {
        lemma_entries_map_contains(s.drop_last(), k);
        if s.last().hash@ == k {
            assert(s[s.len() - 1].hash@ == k);
        } else if entries_map(s).contains_key(k) {
            let i = choose|i: int| 0 <= i < s.drop_last().len() && s.drop_last()[i].hash@ == k;
            assert(s[i].hash@ == k);
        } else if exists|i: int| 0 <= i < s.len() && s[i].hash@ == k {
            let i = choose|i: int| 0 <= i < s.len() && s[i].hash@ == k;
            assert(i < s.len() - 1);
            assert(s.drop_last()[i].hash@ == k);
        }
    }
}

proof fn lemma_entries_map_value(s: Seq<StoreEntry>, i: int)
    requires
        unique_keys(s),
        0 <= i < s.len(),
    ensures
        entries_map(s).contains_key(s[i].hash@),
        entries_map(s)[s[i].hash@] == s[i].index@,
    decreases s.len(),
{
    if i < s.len() - 1 {
        lemma_entries_map_value(s.drop_last(), i);
        assert(s.drop_last()[i] == s[i]);
    }
}

proof fn lemma_entries_map_update(s: Seq<StoreEntry>, i: int, b: BlockIndex)
    requires
        unique_keys(s),
        0 <= i < s.len(),
    ensures
        entries_map(s.update(i, (StoreEntry { hash: s[i].hash, index: b }))) == entries_map(
            s,
        ).insert(s[i].hash@, b@),
    decreases s.len(),
{
    let e = StoreEntry { hash: s[i].hash, index: b };
    if i == s.len() - 1 {
        assert(s.update(i, e).drop_last() =~= s.drop_last());
        assert(s.update(i, e).last() == e);
        assert(entries_map(s.update(i, e)) =~= entries_map(s).insert(s[i].hash@, b@));
    } else {
        lemma_entries_map_update(s.drop_last(), i, b);
        assert(s.drop_last()[i] == s[i]);
        assert(s.update(i, e).drop_last() =~= s.drop_last().update(i, e));
        assert(s.update(i, e).last() == s.last());
        // Inserting at the updated key and at the unchanged last key commute,
        // because uniqueness keeps the two keys distinct.
        assert(s[i].hash@ != s.last().hash@);
        assert(entries_map(s.update(i, e)) =~= entries_map(s).insert(s[i].hash@, b@));
    }
}

/// In-memory chain store: an association list of records plus a dense
/// height vector.
pub struct OnMemoryChainStore {
    entries: Vec<StoreEntry>,
    heights: Vec<BlockHash>,
    tip: BlockHash,
}

impl OnMemoryChainStore {
    /// Creates an empty, uninitialized store.
    pub fn new() -> (r: OnMemoryChainStore)
        ensures
            r.inv(),
            store_empty(r.model()),
    {
        let r = OnMemoryChainStore {
            entries: Vec::new(),
            heights: Vec::new(),
            tip: BlockHash::zero(),
        };
        proof {
            assert(r.model().records.dom() =~= Set::empty());
        }
        r
    }

    /// Position of the entry keyed by `hash`, if any.
    fn find(&self, hash: &BlockHash) -> (r: Option<usize>)
        requires
            self.inv(),
        ensures
            match r {
                Some(i) => i < self.entries@.len() && self.entries@[i as int].hash@ == hash@,
                None => forall|j: int|
                    0 <= j < self.entries@.len() ==> self.entries@[j].hash@ != hash@,
            },
    {
        let mut i: usize = 0;
        while i < self.entries.len()
            invariant
                0 <= i <= self.entries@.len(),
                forall|j: int| 0 <= j < i ==> self.entries@[j].hash@ != hash@,
            decreases self.entries@.len() - i,
        {
            if self.entries[i].hash.same(hash) {
                return Some(i);
            }
            i += 1;
        }
        None
    }
}

impl ChainStore for OnMemoryChainStore {
    closed spec fn model(&self) -> StoreModel {
        StoreModel {
            records: entries_map(self.entries@),
            heights: self.heights@.map_values(|h: BlockHash| h@),
            tip: self.tip@,
        }
    }

    closed spec fn inv(&self) -> bool {
        unique_keys(self.entries@)
    }

    fn initialize(&mut self, genesis: &BlockHeader) -> (r: Result<(), Error>) {
        if self.entries.len() == 0 && self.heights.len() == 0 {
            proof {
                assert(store_empty(self.model()));
            }
            let gh = crate::block::block_hash(genesis);
            let b = BlockIndex { header: *genesis, height: 0, next_blockhash: BlockHash::zero() };
            self.entries.push(StoreEntry { hash: gh, index: b });
            self.heights.push(gh);
            self.tip = gh;
            proof {
                assert(self.entries@.drop_last() =~= Seq::<StoreEntry>::empty());
                assert(entries_map(self.entries@.drop_last()) =~= Map::<Seq<u8>, IndexModel>::empty());
                assert(self.entries@.last().hash@ == hash_of(*genesis));
                assert(self.entries@.last().index@ == (IndexModel {
                    header: *genesis,
                    height: 0,
                    next: zero_hash(),
                }));
                assert(entries_map(self.entries@) =~= genesis_model(*genesis).records);
                assert(self.heights@.map_values(|h: BlockHash| h@) =~= genesis_model(
                    *genesis,
                ).heights);
            }
            Ok(())
        } else {
            proof {
                if self.entries@.len() > 0 {
                    lemma_entries_map_value(self.entries@, 0);
                    assert(self.model().records.contains_key(self.entries@[0].hash@));
                    assert(!store_empty(self.model()));
                }
            }
            if self.heights.len() > 0 {
                let gh = crate::block::block_hash(genesis);
                if self.heights[0].same(&gh) {
                    return Ok(());
                }
            }
            Err(Error::StoreConsistency)
        }
    }

    fn get(&self, hash: &BlockHash) -> (r: Option<BlockIndex>) {
        match self.find(hash) {
            Some(i) => {
                proof {
                    lemma_entries_map_value(self.entries@, i as int);
                }
                Some(self.entries[i].index)
            },
            None => {
                proof {
                    lemma_entries_map_contains(self.entries@, hash@);
                }
                None
            },
        }
    }

    fn put(&mut self, hash: &BlockHash, b: &BlockIndex) {
        match self.find(hash) {
            Some(i) => {
                proof {
                    assert(self.entries@[i as int].hash.bytes =~= hash.bytes);
                    assert(self.entries@[i as int].hash == *hash);
                    lemma_entries_map_update(self.entries@, i as int, *b);
                }
                self.entries[i] = StoreEntry { hash: *hash, index: *b };
                proof {
                    assert(unique_keys(self.entries@));
                }
            },
            None => {
                proof {
                    let s = self.entries@.push(StoreEntry { hash: *hash, index: *b });
                    assert(s.drop_last() =~= self.entries@);
                    assert(unique_keys(s));
                }
                self.entries.push(StoreEntry { hash: *hash, index: *b });
            },
        }
    }

    fn height_hash(&self, height: i32) -> (r: Option<BlockHash>) {
        if height >= 0 && (height as usize) < self.heights.len() {
            Some(self.heights[height as usize])
        } else {
            None
        }
    }

    fn get_at_height(&self, height: i32) -> (r: Option<BlockIndex>) {
        match self.height_hash(height) {
            Some(h) => self.get(&h),
            None => None,
        }
    }

    fn height_index_len(&self) -> (r: usize) {
        self.heights.len()
    }

    fn tip_hash(&self) -> (r: BlockHash) {
        self.tip
    }

    fn update_tip(&mut self, hash: &BlockHash) {
        self.tip = *hash;
    }

    fn set_height_index(&mut self, height: i32, hash: &BlockHash) {
        let h = height as usize;
        if h < self.heights.len() {
            self.heights[h] = *hash;
            proof {
                assert(self.model().heights =~= old(self).model().heights.update(
                    height as int,
                    hash@,
                ));
            }
        } else {
            self.heights.push(*hash);
            proof {
                assert(self.model().heights =~= old(self).model().heights.push(hash@));
            }
        }
    }

    fn clear_height_index_above(&mut self, height: i32) {
        let keep = (height as usize) + 1;
        if keep < self.heights.len() {
            self.heights.truncate(keep);
            proof {
                assert(self.model().heights =~= old(self).model().heights.take(height + 1));
            }
        }
    }
}

/// One record as it is persisted: key, height, forward pointer, header.
spec fn entry_bytes(e: StoreEntry) -> Seq<u8> {
    e.hash@ + le32(e.index.height as u32) + e.index.next_blockhash@ + header_bytes(e.index.header)
}

spec fn entries_bytes(s: Seq<StoreEntry>) -> Seq<u8>
    decreases s.len(),
{
    if s.len() == 0 {
        Seq::empty()
    } else {
        entries_bytes(s.drop_last()) + entry_bytes(s.last())
    }
}

spec fn hashes_bytes(s: Seq<BlockHash>) -> Seq<u8>
    decreases s.len(),
{
    if s.len() == 0 {
        Seq::empty()
    } else {
        hashes_bytes(s.drop_last()) + s.last()@
    }
}

proof fn lemma_entries_bytes_len(s: Seq<StoreEntry>)
    ensures
        entries_bytes(s).len() == 148 * s.len(),
    decreases s.len(),
{
    if s.len() > 0 {
        lemma_entries_bytes_len(s.drop_last());
    }
}

proof fn lemma_hashes_bytes_len(s: Seq<BlockHash>)
    ensures
        hashes_bytes(s).len() == 32 * s.len(),
    decreases s.len(),
{
    if s.len() > 0 {
        lemma_hashes_bytes_len(s.drop_last());
    }
}

impl OnMemoryChainStore {
    /// The byte image this store persists as: record count and records,
    /// height-index length and entries, then the tip hash.
    pub closed spec fn store_bytes(&self) -> Seq<u8> {
        le32(self.entries@.len() as u32) + entries_bytes(self.entries@) + le32(
            self.heights@.len() as u32,
        ) + hashes_bytes(self.heights@) + self.tip@
    }

    /// Whether the store is small enough for the byte image's counters.
    pub closed spec fn encodable(&self) -> bool {
        self.entries@.len() <= u32::MAX && self.heights@.len() <= u32::MAX
    }

    /// Whether `encode` can image this store right now.
    pub fn fits_image(&self) -> (r: bool)
        ensures
            r == self.encodable(),
    {
        self.entries.len() <= u32::MAX as usize && self.heights.len() <= u32::MAX as usize
    }

    /// Serializes the store into the image `decode` reads back.
    pub fn encode(&self) -> (r: Vec<u8>)
        requires
            self.encodable(),
        ensures
            r@ == self.store_bytes(),
    {
        let mut v: Vec<u8> = Vec::new();
        let n = self.entries.len();
        let m = self.heights.len();
        push_le32(&mut v, n as u32);
        let mut i: usize = 0;
        while i < n
            invariant
                0 <= i <= self.entries@.len(),
                n == self.entries@.len(),
                v@ == le32(self.entries@.len() as u32) + entries_bytes(
                    self.entries@.take(i as int),
                ),
            decreases n - i,
        {
            let e = self.entries[i];
            push_hash(&mut v, &e.hash);
            push_le32(&mut v, e.index.height as u32);
            push_hash(&mut v, &e.index.next_blockhash);
            push_header(&mut v, &e.index.header);
            proof {
                assert(self.entries@.take(i + 1).drop_last() =~= self.entries@.take(i as int));
                assert(self.entries@.take(i + 1).last() == self.entries@[i as int]);
                assert(v@ =~= le32(self.entries@.len() as u32) + entries_bytes(
                    self.entries@.take(i + 1),
                ));
            }
            i += 1;
        }
        proof {
            assert(self.entries@.take(self.entries@.len() as int) =~= self.entries@);
        }
        push_le32(&mut v, m as u32);
        let mut j: usize = 0;
        while j < m
            invariant
                0 <= j <= self.heights@.len(),
                m == self.heights@.len(),
                v@ == le32(self.entries@.len() as u32) + entries_bytes(self.entries@) + le32(
                    self.heights@.len() as u32,
                ) + hashes_bytes(self.heights@.take(j as int)),
            decreases m - j,
        {
            let hh = self.heights[j];
            push_hash(&mut v, &hh);
            proof {
                assert(self.heights@.take(j + 1).drop_last() =~= self.heights@.take(j as int));
                assert(self.heights@.take(j + 1).last() == self.heights@[j as int]);
                assert(v@ =~= le32(self.entries@.len() as u32) + entries_bytes(self.entries@)
                    + le32(self.heights@.len() as u32) + hashes_bytes(self.heights@.take(j + 1)));
            }
            j += 1;
        }
        proof {
            assert(self.heights@.take(self.heights@.len() as int) =~= self.heights@);
        }
        push_hash(&mut v, &self.tip);
        proof {
            assert(v@ =~= self.store_bytes());
        }
        v
    }

    /// Whether height `h` of the index resolves to a record at that height,
    /// linked to the entry below.
    fn check_height(&self, h: usize) -> (r: bool)
        requires
            self.inv(),
            h < self.heights@.len(),
        ensures
            r == ({
                &&& self.model().records.contains_key(self.model().heights[h as int])
                &&& self.model().records[self.model().heights[h as int]].height == h as int
                &&& (1 <= h ==> self.model().records[self.model().heights[h as int]].header.prev_blockhash@
                    == self.model().heights[h as int - 1])
            }),
    {
        let hh = self.heights[h];
        match self.find(&hh) {
            None => {
                proof {
                    lemma_entries_map_contains(self.entries@, hh@);
                }
                false
            },
            Some(ix) => {
                proof {
                    lemma_entries_map_value(self.entries@, ix as int);
                }
                let b = self.entries[ix].index;
                if b.height < 0 || (b.height as usize) != h {
                    return false;
                }
                if h > 0 {
                    if !b.header.prev_blockhash.same(&self.heights[h - 1]) {
                        return false;
                    }
                }
                true
            },
        }
    }

    /// Whether entry `i` satisfies the per-record chain invariant.
    fn check_record(&self, i: usize) -> (r: bool)
        requires
            self.inv(),
            i < self.entries@.len(),
            1 <= self.heights@.len() <= i32::MAX as int,
        ensures
            r == record_ok(self.model(), self.entries@[i as int].hash@),
    {
        let m = self.heights.len();
        let e = self.entries[i];
        proof {
            lemma_entries_map_value(self.entries@, i as int);
        }
        let kh = block_hash(&e.index.header);
        if !kh.same(&e.hash) {
            return false;
        }
        if e.index.height < 0 {
            return false;
        }
        if (e.index.height as usize) >= m {
            return false;
        }
        if e.index.height > 0 {
            match self.find(&e.index.header.prev_blockhash) {
                None => {
                    proof {
                        lemma_entries_map_contains(self.entries@, e.index.header.prev_blockhash@);
                    }
                    return false;
                },
                Some(pj) => {
                    proof {
                        lemma_entries_map_value(self.entries@, pj as int);
                    }
                    if self.entries[pj].index.height != e.index.height - 1 {
                        return false;
                    }
                },
            }
        }
        if e.index.height == 0 {
            if !e.hash.same(&self.heights[0]) {
                return false;
            }
        }
        let hh = e.index.height as usize;
        if self.heights[hh].same(&e.hash) {
            if hh == m - 1 {
                if !e.index.next_blockhash.is_zero() {
                    return false;
                }
            } else {
                if !e.index.next_blockhash.same(&self.heights[hh + 1]) {
                    return false;
                }
            }
        } else {
            if !e.index.next_blockhash.is_zero() {
                return false;
            }
        }
        true
    }

    /// Whether this store carries a well-formed chain: unique keys, a dense
    /// height index from genesis to the tip, every record keyed by its
    /// header hash with its parent present, forward pointers tracing the
    /// active chain.
    fn check_consistency(&self) -> (r: bool)
        ensures
            r == (self.inv() && chain_wf(self.model())),
    {
        let n = self.entries.len();
        let m = self.heights.len();
        // key uniqueness
        let mut i: usize = 0;
        while i < n
            invariant
                0 <= i <= n,
                n == self.entries@.len(),
                forall|a: int, b: int|
                    0 <= a < i && a < b < n ==> self.entries@[a].hash@ != self.entries@[b].hash@,
            decreases n - i,
        {
            let mut j: usize = i + 1;
            while j < n
                invariant
                    0 <= i < j <= n,
                    n == self.entries@.len(),
                    forall|b: int| i < b < j ==> self.entries@[i as int].hash@ != self.entries@[b].hash@,
                decreases n - j,
            {
                if self.entries[i].hash.same(&self.entries[j].hash) {
                    proof {
                        assert(!unique_keys(self.entries@));
                    }
                    return false;
                }
                j += 1;
            }
            i += 1;
        }
        proof {
            assert(unique_keys(self.entries@));
        }
        // the height index is nonempty, bounded, and ends at the tip
        if m == 0 {
            return false;
        }
        if m > (i32::MAX as usize) {
            return false;
        }
        if !self.tip.same(&self.heights[m - 1]) {
            return false;
        }
        // each height resolves to a record at that height, linked downward
        let mut h: usize = 0;
        while h < m
            invariant
                0 <= h <= m,
                m == self.heights@.len(),
                unique_keys(self.entries@),
                forall|x: int|
                    0 <= x < h ==> self.model().records.contains_key(
                        #[trigger] self.model().heights[x],
                    ) && self.model().records[self.model().heights[x]].height == x && (1 <= x
                        ==> self.model().records[self.model().heights[x]].header.prev_blockhash@
                        == self.model().heights[x - 1]),
            decreases m - h,
        {
            if !self.check_height(h) {
                proof {
                    if chain_wf(self.model()) {
                        assert(self.model().records.contains_key(self.model().heights[h as int]));
                        assert(false);
                    }
                }
                return false;
            }
            h += 1;
        }
        // each record satisfies the per-record invariant
        let mut i2: usize = 0;
        while i2 < n
            invariant
                0 <= i2 <= n,
                n == self.entries@.len(),
                m == self.heights@.len(),
                1 <= m <= i32::MAX as int,
                unique_keys(self.entries@),
                forall|x: int|
                    0 <= x < i2 ==> record_ok(self.model(), #[trigger] self.entries@[x].hash@),
            decreases n - i2,
        {
            if !self.check_record(i2) {
                proof {
                    if chain_wf(self.model()) {
                        lemma_entries_map_value(self.entries@, i2 as int);
                        assert(record_ok(self.model(), self.entries@[i2 as int].hash@));
                        assert(false);
                    }
                }
                return false;
            }
            i2 += 1;
        }
        proof {
            assert forall|k: Seq<u8>|
                self.model().records.contains_key(k) implies #[trigger] record_ok(
                self.model(),
                k,
            ) by {
                lemma_entries_map_contains(self.entries@, k);
                let x = choose|x: int|
                    0 <= x < self.entries@.len() && self.entries@[x].hash@ == k;
                assert(record_ok(self.model(), self.entries@[x].hash@));
            }
            assert(chain_wf(self.model()));
        }
        true
    }

    /// Reads a store back from its byte image.  Anything but the image of
    /// a store holding a well-formed chain is rejected with
    /// `StoreConsistency`.
    #[verifier::rlimit(100)]
    pub fn decode(bytes: &[u8]) -> (r: Result<OnMemoryChainStore, Error>)
        ensures
            match r {
                Ok(st) => st.inv() && chain_wf(st.model()) && st.encodable() && st.store_bytes()
                    == bytes@,
                Err(e) => e == Error::StoreConsistency,
            },
            forall|st0: OnMemoryChainStore|
                st0.inv() && chain_wf(st0.model()) && st0.encodable() && #[trigger] st0.store_bytes()
                    == bytes@ ==> r is Ok,
    {
        let total: usize = bytes.len();
        if total < 4 {
            proof {
                assert forall|st0: OnMemoryChainStore|
                    st0.encodable() && #[trigger] st0.store_bytes() == bytes@ implies false by {
                    lemma_store_bytes_index(st0);
                }
            }
            return Err(Error::StoreConsistency);
        }
        let n32 = read_le32(bytes, 0);
        let after_entries: u64 = 4u64 + (n32 as u64) * 148u64;
        if (total as u64) < after_entries + 4 {
            proof {
                assert forall|st0: OnMemoryChainStore|
                    st0.encodable() && #[trigger] st0.store_bytes() == bytes@ implies false by {
                    lemma_image_counter_n(st0, bytes@, n32);
                }
            }
            return Err(Error::StoreConsistency);
        }
        let m_off: usize = after_entries as usize;
        let m32 = read_le32(bytes, m_off);
        let expect: u64 = after_entries + 4 + (m32 as u64) * 32 + 32;
        if (total as u64) != expect {
            proof {
                assert forall|st0: OnMemoryChainStore|
                    st0.encodable() && #[trigger] st0.store_bytes() == bytes@ implies false by {
                    lemma_image_counter_n(st0, bytes@, n32);
                    lemma_image_counter_m(st0, bytes@, m32);
                }
            }
            return Err(Error::StoreConsistency);
        }
        let n = n32 as usize;
        let m = m32 as usize;
        let mut entries: Vec<StoreEntry> = Vec::new();
        let mut i: usize = 0;
        while i < n
            invariant
                0 <= i <= n,
                total == bytes@.len(),
                n == n32 as int,
                m == m32 as int,
                total == 4 + n * 148 + 4 + m * 32 + 32,
                entries@.len() == i,
                entries_bytes(entries@) == bytes@.subrange(4, 4 + 148 * (i as int)),
            decreases n - i,
        {
            let off: usize = 4 + i * 148;
            let hash = read_hash(bytes, off);
            let hv = read_le32(bytes, off + 32);
            let next = read_hash(bytes, off + 36);
            let header = read_header(bytes, off + 68);
            let b = BlockIndex { header, height: hv as i32, next_blockhash: next };
            let ghost before = entries@;
            entries.push(StoreEntry { hash, index: b });
            proof {
                assert((hv as i32) as u32 == hv) by (bit_vector);
                assert(entry_bytes(entries@.last()) =~= bytes@.subrange(
                    off as int,
                    off + 148,
                ));
                assert(entries@.drop_last() =~= before);
                assert(entries_bytes(entries@) =~= bytes@.subrange(4, 4 + 148 * (i + 1)));
            }
            i += 1;
        }
        let heights_off: usize = m_off + 4;
        let mut heights: Vec<BlockHash> = Vec::new();
        let mut j: usize = 0;
        while j < m
            invariant
                0 <= j <= m,
                total == bytes@.len(),
                n == n32 as int,
                m == m32 as int,
                heights_off == 4 + n * 148 + 4,
                total == 4 + n * 148 + 4 + m * 32 + 32,
                heights@.len() == j,
                hashes_bytes(heights@) == bytes@.subrange(
                    heights_off as int,
                    heights_off + 32 * (j as int),
                ),
            decreases m - j,
        {
            let off: usize = heights_off + j * 32;
            let hh = read_hash(bytes, off);
            let ghost before = heights@;
            heights.push(hh);
            proof {
                assert(heights@.drop_last() =~= before);
                assert(hashes_bytes(heights@) =~= bytes@.subrange(
                    heights_off as int,
                    heights_off + 32 * (j + 1),
                ));
            }
            j += 1;
        }
        let tip = read_hash(bytes, total - 32);
        let st = OnMemoryChainStore { entries, heights, tip };
        proof {
            assert(st.store_bytes() =~= bytes@);
        }
        if st.check_consistency() {
            Ok(st)
        } else {
            proof {
                assert forall|st0: OnMemoryChainStore|
                    st0.inv() && chain_wf(st0.model()) && st0.encodable()
                        && #[trigger] st0.store_bytes() == bytes@ implies false by {
                    lemma_store_bytes_injective_inner(st0, st);
                    assert forall|a: int, b: int|
                        0 <= a < b < st.entries@.len() implies #[trigger] st.entries@[a].hash@
                        != #[trigger] st.entries@[b].hash@ by {
                        assert(st0.entries@[a].hash@ != st0.entries@[b].hash@);
                    }
                    assert(st.inv());
                    assert(chain_wf(st.model()));
                }
            }
            Err(Error::StoreConsistency)
        }
    }
}

/// The record counter in a store's image is the store's record count.
proof fn lemma_image_counter_n(st0: OnMemoryChainStore, bytes: Seq<u8>, n32: u32)
    requires
        st0.encodable(),
        st0.store_bytes() == bytes,
        le32(n32) == bytes.subrange(0, 4),
    ensures
        st0.entries@.len() == n32 as int,
        bytes.len() == 4 + 148 * (n32 as int) + 4 + 32 * st0.heights@.len() + 32,
{
    lemma_store_bytes_index(st0);
    assert forall|j: int| 0 <= j < 4 implies #[trigger] le32(st0.entries@.len() as u32)[j] == le32(
        n32,
    )[j] by {
        assert(le32(n32)[j] == bytes.subrange(0, 4)[j]);
        assert(bytes[j] == le32(st0.entries@.len() as u32)[j]);
    }
    lemma_le32_injective(st0.entries@.len() as u32, n32);
}

/// The height counter in a store's image is the store's height-index length.
proof fn lemma_image_counter_m(st0: OnMemoryChainStore, bytes: Seq<u8>, m32: u32)
    requires
        st0.encodable(),
        st0.store_bytes() == bytes,
        le32(m32) == bytes.subrange(
            (4 + 148 * st0.entries@.len()) as int,
            (4 + 148 * st0.entries@.len() + 4) as int,
        ),
    ensures
        st0.heights@.len() == m32 as int,
{
    lemma_store_bytes_index(st0);
    assert forall|j: int| 0 <= j < 4 implies #[trigger] le32(st0.heights@.len() as u32)[j] == le32(
        m32,
    )[j] by {
        assert(le32(m32)[j] == bytes.subrange(
            (4 + 148 * st0.entries@.len()) as int,
            (4 + 148 * st0.entries@.len() + 4) as int,
        )[j]);
        assert(bytes[4 + 148 * st0.entries@.len() + j] == le32(st0.heights@.len() as u32)[j]);
    }
    lemma_le32_injective(st0.heights@.len() as u32, m32);
}

proof fn lemma_entries_bytes_index(s: Seq<StoreEntry>, i: int, k: int)
    requires
        0 <= i < s.len(),
        0 <= k < 148,
    ensures
        entries_bytes(s)[148 * i + k] == entry_bytes(s[i])[k],
    decreases s.len(),
{
    lemma_entries_bytes_len(s.drop_last());
    if i == s.len() - 1 {
        assert(entries_bytes(s)[148 * i + k] == entry_bytes(s.last())[k]);
    } else {
        lemma_entries_bytes_index(s.drop_last(), i, k);
        assert(s.drop_last()[i] == s[i]);
        assert(148 * i + k < 148 * (s.len() - 1));
        assert(entries_bytes(s)[148 * i + k] == entries_bytes(s.drop_last())[148 * i + k]);
    }
}

proof fn lemma_hashes_bytes_index(s: Seq<BlockHash>, i: int, k: int)
    requires
        0 <= i < s.len(),
        0 <= k < 32,
    ensures
        hashes_bytes(s)[32 * i + k] == s[i]@[k],
    decreases s.len(),
{
    lemma_hashes_bytes_len(s.drop_last());
    if i == s.len() - 1 {
        assert(hashes_bytes(s)[32 * i + k] == s.last()@[k]);
    } else {
        lemma_hashes_bytes_index(s.drop_last(), i, k);
        assert(s.drop_last()[i] == s[i]);
        assert(32 * i + k < 32 * (s.len() - 1));
        assert(hashes_bytes(s)[32 * i + k] == hashes_bytes(s.drop_last())[32 * i + k]);
    }
}

proof fn lemma_entry_bytes_injective(x: StoreEntry, y: StoreEntry)
    requires
        forall|k: int| 0 <= k < 148 ==> entry_bytes(x)[k] == entry_bytes(y)[k],
    ensures
        x.hash@ == y.hash@,
        x.index@ == y.index@,
{
    assert forall|k: int| 0 <= k < 32 implies x.hash@[k] == y.hash@[k] by {
        assert(entry_bytes(x)[k] == entry_bytes(y)[k]);
    }
    assert(x.hash@ =~= y.hash@);
    assert forall|k: int| 0 <= k < 4 implies #[trigger] le32(x.index.height as u32)[k] == le32(
        y.index.height as u32,
    )[k] by {
        assert(entry_bytes(x)[32 + k] == entry_bytes(y)[32 + k]);
    }
    lemma_le32_injective(x.index.height as u32, y.index.height as u32);
    let hx = x.index.height;
    let hy = y.index.height;
    assert(hx as u32 == hy as u32 ==> hx == hy) by (bit_vector);
    assert forall|k: int| 0 <= k < 32 implies x.index.next_blockhash@[k]
        == y.index.next_blockhash@[k] by {
        assert(entry_bytes(x)[36 + k] == entry_bytes(y)[36 + k]);
    }
    assert(x.index.next_blockhash@ =~= y.index.next_blockhash@);
    assert forall|k: int| 0 <= k < 80 implies #[trigger] header_bytes(x.index.header)[k]
        == header_bytes(y.index.header)[k] by {
        assert(entry_bytes(x)[68 + k] == entry_bytes(y)[68 + k]);
    }
    assert(header_bytes(x.index.header) =~= header_bytes(y.index.header));
    lemma_header_bytes_injective(x.index.header, y.index.header);
}

proof fn lemma_entries_map_congruent(s1: Seq<StoreEntry>, s2: Seq<StoreEntry>)
    requires
        s1.len() == s2.len(),
        forall|i: int| 0 <= i < s1.len() ==> (#[trigger] s1[i]).hash@ == s2[i].hash@ && s1[i].index@
            == s2[i].index@,
    ensures
        entries_map(s1) == entries_map(s2),
    decreases s1.len(),
{
    if s1.len() > 0 {
        lemma_entries_map_congruent(s1.drop_last(), s2.drop_last());
        assert(s1[s1.len() - 1].hash@ == s2[s2.len() - 1].hash@);
        assert(entries_map(s1) =~= entries_map(s2));
    }
}

proof fn lemma_store_bytes_index(a: OnMemoryChainStore)
    ensures
        a.store_bytes().len() == 4 + 148 * a.entries@.len() + 4 + 32 * a.heights@.len() + 32,
        forall|j: int|
            0 <= j < 4 ==> a.store_bytes()[j] == #[trigger] le32(a.entries@.len() as u32)[j],
        forall|k: int|
            0 <= k < 148 * a.entries@.len() ==> a.store_bytes()[4 + k] == #[trigger] entries_bytes(
                a.entries@,
            )[k],
        forall|j: int|
            0 <= j < 4 ==> a.store_bytes()[4 + 148 * a.entries@.len() + j] == #[trigger] le32(
                a.heights@.len() as u32,
            )[j],
        forall|k: int|
            0 <= k < 32 * a.heights@.len() ==> a.store_bytes()[8 + 148 * a.entries@.len() + k]
                == #[trigger] hashes_bytes(a.heights@)[k],
        forall|j: int|
            0 <= j < 32 ==> a.store_bytes()[8 + 148 * a.entries@.len() + 32 * a.heights@.len() + j]
                == #[trigger] a.tip@[j],
{
    lemma_entries_bytes_len(a.entries@);
    lemma_hashes_bytes_len(a.heights@);
    let sb = a.store_bytes();
    let ne = a.entries@.len() as int;
    let mh = a.heights@.len() as int;
    assert forall|k: int| 0 <= k < 148 * ne implies sb[4 + k] == #[trigger] entries_bytes(
        a.entries@,
    )[k] by {
        assert(sb[4 + k] == entries_bytes(a.entries@)[k]);
    }
    assert forall|j: int| 0 <= j < 4 implies sb[4 + 148 * ne + j] == #[trigger] le32(
        a.heights@.len() as u32,
    )[j] by {
        assert(sb[4 + 148 * ne + j] == le32(a.heights@.len() as u32)[j]);
    }
    assert forall|k: int| 0 <= k < 32 * mh implies sb[8 + 148 * ne + k] == #[trigger] hashes_bytes(
        a.heights@,
    )[k] by {
        assert(sb[8 + 148 * ne + k] == hashes_bytes(a.heights@)[k]);
    }
    assert forall|j: int| 0 <= j < 32 implies sb[8 + 148 * ne + 32 * mh + j] == #[trigger] a.tip@[j] by {
        assert(sb[8 + 148 * ne + 32 * mh + j] == a.tip@[j]);
    }
}

/// The byte image determines the abstract store state: two encodable
/// stores with the same image hold the same records, height index and tip.
pub proof fn lemma_store_bytes_injective(a: OnMemoryChainStore, b: OnMemoryChainStore)
    requires
        a.encodable(),
        b.encodable(),
        a.store_bytes() == b.store_bytes(),
    ensures
        a.model() == b.model(),
{
    lemma_store_bytes_injective_inner(a, b);
}

proof fn lemma_store_bytes_injective_inner(a: OnMemoryChainStore, b: OnMemoryChainStore)
    requires
        a.encodable(),
        b.encodable(),
        a.store_bytes() == b.store_bytes(),
    ensures
        a.model() == b.model(),
        a.entries@.len() == b.entries@.len(),
        forall|i: int|
            0 <= i < a.entries@.len() ==> (#[trigger] a.entries@[i]).hash@ == b.entries@[i].hash@
                && a.entries@[i].index@ == b.entries@[i].index@,
{
    let sa = a.store_bytes();
    let sb = b.store_bytes();
    let na = a.entries@.len() as int;
    let nb = b.entries@.len() as int;
    let ma = a.heights@.len() as int;
    let mb = b.heights@.len() as int;
    lemma_entries_bytes_len(a.entries@);
    lemma_entries_bytes_len(b.entries@);
    lemma_hashes_bytes_len(a.heights@);
    lemma_hashes_bytes_len(b.heights@);
    lemma_store_bytes_index(a);
    lemma_store_bytes_index(b);
    // the record counters agree
    assert forall|j: int| 0 <= j < 4 implies #[trigger] le32(a.entries@.len() as u32)[j] == le32(
        b.entries@.len() as u32,
    )[j] by {
        assert(sa[j] == sb[j]);
    }
    lemma_le32_injective(a.entries@.len() as u32, b.entries@.len() as u32);
    assert(na == nb);
    // hence the height counters agree
    assert forall|j: int| 0 <= j < 4 implies #[trigger] le32(a.heights@.len() as u32)[j] == le32(
        b.heights@.len() as u32,
    )[j] by {
        assert(sa[4 + 148 * na + j] == sb[4 + 148 * na + j]);
    }
    lemma_le32_injective(a.heights@.len() as u32, b.heights@.len() as u32);
    assert(ma == mb);
    // records agree entry by entry
    assert forall|i: int| 0 <= i < na implies (#[trigger] a.entries@[i]).hash@
        == b.entries@[i].hash@ && a.entries@[i].index@ == b.entries@[i].index@ by {
        assert forall|k: int| 0 <= k < 148 implies entry_bytes(a.entries@[i])[k] == entry_bytes(
            b.entries@[i],
        )[k] by {
            lemma_entries_bytes_index(a.entries@, i, k);
            lemma_entries_bytes_index(b.entries@, i, k);
            assert(sa[4 + (148 * i + k)] == sb[4 + (148 * i + k)]);
        }
        lemma_entry_bytes_injective(a.entries@[i], b.entries@[i]);
    }
    lemma_entries_map_congruent(a.entries@, b.entries@);
    // the height index agrees entry by entry
    assert forall|i: int| 0 <= i < ma implies (#[trigger] a.heights@[i])@ == b.heights@[i]@ by {
        assert forall|k: int| 0 <= k < 32 implies a.heights@[i]@[k] == b.heights@[i]@[k] by {
            lemma_hashes_bytes_index(a.heights@, i, k);
            lemma_hashes_bytes_index(b.heights@, i, k);
            assert(sa[4 + 148 * na + 4 + (32 * i + k)] == sb[4 + 148 * na + 4 + (32 * i + k)]);
        }
        assert(a.heights@[i]@ =~= b.heights@[i]@);
    }
    assert(a.model().heights =~= b.model().heights);
    // and so does the tip
    assert forall|k: int| 0 <= k < 32 implies a.tip@[k] == b.tip@[k] by {
        assert(sa[4 + 148 * na + 4 + 32 * ma + k] == sb[4 + 148 * na + 4 + 32 * ma + k]);
    }
    assert(a.tip@ =~= b.tip@);
}

} // verus!
