//! The chain: an ordered sequence of hash-linked blocks rooted at genesis.

use crate::block::{block_hash_of, block_init_hash, block_valid, genesis_previous_hash, Block,
    BlockM};
use crate::record::{genesis_entry, record_valid, record_views, Record, RecordM};
use vstd::prelude::*;
use vstd::string::StringExecFns;

verus! {

/// The models of a sequence of blocks.
pub open spec fn block_views(bs: Seq<Block>) -> Seq<BlockM> {
    bs.map_values(|b: Block| b@)
}

/// The views of a sequence of strings.
pub open spec fn string_views(ss: Seq<String>) -> Seq<Seq<char>> {
    ss.map_values(|s: String| s@)
}

/// Whether `h` occurs in `ss`.
pub open spec fn contains_str(ss: Seq<Seq<char>>, h: Seq<char>) -> bool {
    exists|i: int| 0 <= i < ss.len() && ss[i] == h
}

/// The hashes of a sequence of records, in order.
pub open spec fn record_hashes(rs: Seq<RecordM>) -> Seq<Seq<char>> {
    rs.map_values(|r: RecordM| r.hash)
}

/// The hashes of a sequence of blocks, in order.
pub open spec fn block_hashes_of(bs: Seq<BlockM>) -> Seq<Seq<char>> {
    bs.map_values(|b: BlockM| b.hash)
}

/// Pushing a string pushes its view.
pub proof fn lemma_string_views_push(ss: Seq<String>, x: String)
    ensures
        string_views(ss.push(x)) == string_views(ss).push(x@),
{
    assert forall|j: int| 0 <= j < ss.len() + 1 implies string_views(ss.push(x))[j]
        == string_views(ss).push(x@)[j] by {
        if j < ss.len() {
            assert(ss.push(x)[j] == ss[j]);
        } else {
            assert(ss.push(x)[j] == x);
        }
    }
    assert(string_views(ss.push(x)) =~= string_views(ss).push(x@));
}

/// Pushing a block pushes its model.
pub proof fn lemma_block_views_push(bs: Seq<Block>, x: Block)
    ensures
        block_views(bs.push(x)) == block_views(bs).push(x@),
{
    assert forall|j: int| 0 <= j < bs.len() + 1 implies block_views(bs.push(x))[j]
        == block_views(bs).push(x@)[j] by {
        if j < bs.len() {
            assert(bs.push(x)[j] == bs[j]);
        } else {
            assert(bs.push(x)[j] == x);
        }
    }
    assert(block_views(bs.push(x)) =~= block_views(bs).push(x@));
}

/// Every block in `[from, to)` of `bs` is valid.
pub open spec fn blocks_valid_range(bs: Seq<BlockM>, from: int, to: int) -> bool {
    forall|i: int| from <= i < to ==> block_valid(#[trigger] bs[i])
}

/// Each block after the first carries the hash of its predecessor.
pub open spec fn chain_linked(bs: Seq<BlockM>) -> bool {
    forall|i: int| 0 < i < bs.len() ==> #[trigger] bs[i].previous_hash == bs[i - 1].hash
}

/// The records of `rs` that carry a hash not yet in `hashes`, in order.
pub open spec fn unseen(rs: Seq<RecordM>, hashes: Seq<Seq<char>>) -> Seq<RecordM>
    decreases rs.len(),
{
    if rs.len() == 0 {
        Seq::empty()
    } else {
        let rest = unseen(rs.drop_last(), hashes);
        if contains_str(hashes, rs.last().hash) {
            rest
        } else {
            rest.push(rs.last())
        }
    }
}

/// The index the `since` walk stops at: the highest index in `[1, idx]`
/// whose block carries hash `h`, or 0 when none does.
pub open spec fn since_cut(bs: Seq<BlockM>, h: Seq<char>, idx: int) -> int
    decreases idx,
{
    if idx <= 0 {
        0
    } else if bs[idx].hash == h {
        idx
    } else {
        since_cut(bs, h, idx - 1)
    }
}

/// No two blocks of the chain carry the same hash: the hash-uniqueness
/// invariant of the data model. It cannot live inside `wf`, because nothing
/// spec-side rules a digest collision out; it is stated where a law needs it.
pub open spec fn block_hashes_unique(bs: Seq<BlockM>) -> bool {
    forall|i: int, j: int| 0 <= i < j < bs.len() ==> bs[i].hash != bs[j].hash
}

/// The backwards walk finds no match above `idx` when none of those blocks
/// carries `h`.
proof fn lemma_since_cut_unmatched(bs: Seq<BlockM>, h: Seq<char>, idx: int)
    requires
        forall|j: int| 1 <= j <= idx ==> #[trigger] bs[j].hash != h,
    ensures
        since_cut(bs, h, idx) == 0,
    decreases idx,
{
    if idx > 0 {
        lemma_since_cut_unmatched(bs, h, idx - 1);
    }
}

/// On a chain whose block hashes are pairwise distinct, the walk since the
/// genesis block's hash stops only at index 0 — so `since` applied to the
/// genesis hash returns every block after genesis, in ascending order.
pub proof fn lemma_since_from_genesis(bs: Seq<BlockM>)
    requires
        bs.len() >= 1,
        block_hashes_unique(bs),
    ensures
        since_cut(bs, bs[0].hash, bs.len() - 1) == 0,
        bs.skip(since_cut(bs, bs[0].hash, bs.len() - 1) + 1) == bs.skip(1),
{
    lemma_since_cut_unmatched(bs, bs[0].hash, bs.len() - 1);
}

/// The three outcomes of comparing a candidate chain against the local one.
#[derive(Debug, PartialEq, Eq)]
pub enum ChainComparison {
    Longer,
    ShorterOrSame,
    Invalid(String),
}

/// The model of a comparison outcome.
pub enum CompareM {
    Longer,
    ShorterOrSame,
    Invalid,
}

impl View for ChainComparison {
    type V = CompareM;

    open spec fn view(&self) -> CompareM {
        match self {
            ChainComparison::Longer => CompareM::Longer,
            ChainComparison::ShorterOrSame => CompareM::ShorterOrSame,
            ChainComparison::Invalid(_) => CompareM::Invalid,
        }
    }
}

/// The comparison outcome: an empty chain on either side or a candidate that
/// fails validation (from its own watermark up) is `Invalid`; otherwise the
/// candidate is `Longer` exactly when it has strictly more blocks.
pub open spec fn compare_spec(self_len: int, cand: Seq<BlockM>, cand_mv: int) -> CompareM {
    if self_len == 0 {
        CompareM::Invalid
    } else if cand.len() == 0 {
        CompareM::Invalid
    } else if !blocks_valid_range(cand, cand_mv, cand.len() as int) {
        CompareM::Invalid
    } else if cand.len() > self_len {
        CompareM::Longer
    } else {
        CompareM::ShorterOrSame
    }
}

/// The ordered sequence of blocks, with derived hash indices for O(1)
/// duplicate filtering and an incremental-validation watermark.
pub struct Blockchain {
    pub blocks: Vec<Block>,
    pub known_block_hashes: Vec<String>,
    pub known_record_hashes: Vec<String>,
    pub max_verified: u64,
}

impl Blockchain {
    /// The models of this chain's blocks, in index order.
    pub open spec fn blocks_m(&self) -> Seq<BlockM> {
        block_views(self.blocks@)
    }

    /// The known block hashes, as character sequences.
    pub open spec fn block_hashes_m(&self) -> Seq<Seq<char>> {
        string_views(self.known_block_hashes@)
    }

    /// The known record hashes, as character sequences.
    pub open spec fn record_hashes_m(&self) -> Seq<Seq<char>> {
        string_views(self.known_record_hashes@)
    }

    /// What every chain satisfies: at least the genesis block, and a
    /// watermark inside the chain.
    pub open spec fn wf(&self) -> bool {
        &&& self.blocks@.len() >= 1
        &&& self.max_verified < self.blocks@.len()
    }

    /// A chain holding only a freshly built genesis block — whose single
    /// datum is the genesis record: zero uuid, timestamp 0, the fixed entry,
    /// its content hash — with the hash indices seeded with the genesis
    /// block's and genesis record's hashes.
    pub fn new() -> (c: Blockchain)
        ensures
            c.wf(),
            c.blocks_m().len() == 1,
            c.blocks_m()[0].index == 0,
            c.blocks_m()[0].previous_hash == genesis_previous_hash(),
            c.blocks_m()[0].timestamp == 0,
            c.blocks_m()[0].data.len() == 1,
            c.blocks_m()[0].data[0].uuid == Seq::new(16, |i: int| 0u8),
            c.blocks_m()[0].data[0].timestamp == 0,
            c.blocks_m()[0].data[0].entry == genesis_entry(),
            record_valid(c.blocks_m()[0].data[0]),
            block_valid(c.blocks_m()[0]),
            chain_linked(c.blocks_m()),
            c.max_verified == 0,
            c.block_hashes_m() == seq![c.blocks_m()[0].hash],
            c.record_hashes_m() == seq![c.blocks_m()[0].data[0].hash],
    {
        let genesis = Block::genesis();
        let genesis_hash = genesis.hash.clone();
        let genesis_record_hash = genesis.data[0].hash.clone();
        let mut blocks: Vec<Block> = Vec::new();
        let mut known_block_hashes: Vec<String> = Vec::new();
        let mut known_record_hashes: Vec<String> = Vec::new();
        blocks.push(genesis);
        known_block_hashes.push(genesis_hash);
        known_record_hashes.push(genesis_record_hash);
        let c = Blockchain { blocks, known_block_hashes, known_record_hashes, max_verified: 0 };
        proof {
            assert(c.block_hashes_m() =~= seq![c.blocks_m()[0].hash]);
            assert(c.record_hashes_m() =~= seq![c.blocks_m()[0].data[0].hash]);
        }
        c
    }

    /// Borrows the block at `idx`, or nothing past the end.
    pub fn get(&self, idx: u64) -> (r: Option<&Block>)
        ensures
            idx < self.blocks_m().len() ==> (r matches Some(b) && b@ == self.blocks_m()[idx as int]),
            idx >= self.blocks_m().len() ==> r is None,
    {
        if idx < self.blocks.len() as u64 {
            Some(&self.blocks[idx as usize])
        } else {
            None
        }
    }

    /// The number of blocks in the chain.
    pub fn length(&self) -> (n: u64)
        ensures
            n == self.blocks_m().len(),
    {
        self.blocks.len() as u64
    }

    /// The last `min(n, length)` blocks, in ascending index order.
    pub fn tail(&self, n: u64) -> (r: Vec<Block>)
        ensures
            block_views(r@) == self.blocks_m().skip(
                if n < self.blocks_m().len() {
                    self.blocks_m().len() - n
                } else {
                    0
                },
            ),
    {
        let len = self.blocks.len();
        let start: usize = if n < len as u64 {
            len - n as usize
        } else {
            0
        };
        let mut r: Vec<Block> = Vec::new();
        let mut i: usize = start;
        while i < len
            invariant
                start <= i <= len,
                len == self.blocks@.len(),
                block_views(r@) == self.blocks_m().subrange(start as int, i as int),
            decreases len - i,
        {
            let b = self.blocks[i].clone();
            let ghost bv = b;
            let ghost r0 = r@;
            r.push(b);
            proof {
                lemma_block_views_push(r0, bv);
                assert(block_views(r@) =~= self.blocks_m().subrange(start as int, i + 1));
            }
            i = i + 1;
        }
        proof {
            assert(self.blocks_m().subrange(start as int, len as int) =~= self.blocks_m().skip(
                start as int,
            ));
        }
        r
    }

    /// Walks backwards from the head collecting blocks until it meets one
    /// whose hash is `h` (that block excluded), then returns the collected
    /// blocks in ascending order. When no block matches, everything after
    /// the genesis block is returned.
    pub fn since(&self, h: &str) -> (res: Result<Vec<Block>, String>)
        requires
            self.wf(),
        ensures
            res matches Ok(r) && block_views(r@) == self.blocks_m().skip(
                since_cut(self.blocks_m(), h@, self.blocks_m().len() - 1) + 1,
            ),
    {
        let hv: String = h.to_owned();
        let len = self.blocks.len();
        let idx = self.since_scan(&hv);
        let ghost cut = since_cut(self.blocks_m(), hv@, len - 1);
        let mut r: Vec<Block> = Vec::new();
        let mut i: usize = idx + 1;
        while i < len
            invariant
                idx + 1 <= i <= len,
                len == self.blocks@.len(),
                block_views(r@) == self.blocks_m().subrange(idx + 1, i as int),
            decreases len - i,
        {
            let b = self.blocks[i].clone();
            let ghost bv = b;
            let ghost r0 = r@;
            r.push(b);
            proof {
                lemma_block_views_push(r0, bv);
                assert(block_views(r@) =~= self.blocks_m().subrange(idx + 1, i + 1));
            }
            i = i + 1;
        }
        proof {
            assert(block_views(r@) =~= self.blocks_m().skip(cut + 1));
        }
        Ok(r)
    }

    /// The index the backwards walk stops at: the highest index below the
    /// head whose block carries hash `h`, or 0 when none does.
    fn since_scan(&self, hv: &String) -> (cut: usize)
        requires
            self.wf(),
        ensures
            cut == since_cut(self.blocks_m(), hv@, self.blocks_m().len() - 1),
            cut < self.blocks_m().len(),
    {
        let len = self.blocks.len();
        let mut idx: usize = len - 1;
        while idx > 0
            invariant
                0 <= idx < len,
                len == self.blocks@.len(),
                since_cut(self.blocks_m(), hv@, len - 1) == since_cut(
                    self.blocks_m(),
                    hv@,
                    idx as int,
                ),
            decreases idx,
        {
            if self.blocks[idx].hash == *hv {
                return idx;
            }
            idx = idx - 1;
        }
        0
    }

    /// Whether a record with hash `h` has been appended through the batch
    /// path before.
    pub fn record_seen(&self, h: &String) -> (b: bool)
        ensures
            b == contains_str(self.record_hashes_m(), h@),
    {
        contains_string(&self.known_record_hashes, h)
    }

    /// Whether a block with hash `h` is known.
    pub fn block_seen(&self, h: &String) -> (b: bool)
        ensures
            b == contains_str(self.block_hashes_m(), h@),
    {
        contains_string(&self.known_block_hashes, h)
    }

    /// The known block hashes, as new strings.
    pub fn block_hashes(&self) -> (r: Vec<String>)
        ensures
            string_views(r@) == self.block_hashes_m(),
    {
        let mut r: Vec<String> = Vec::new();
        let mut i: usize = 0;
        while i < self.known_block_hashes.len()
            invariant
                i <= self.known_block_hashes@.len(),
                string_views(r@) == self.block_hashes_m().take(i as int),
            decreases self.known_block_hashes@.len() - i,
        {
            let h = self.known_block_hashes[i].clone();
            let ghost hv = h;
            let ghost r0 = r@;
            r.push(h);
            proof {
                lemma_string_views_push(r0, hv);
                assert(string_views(r@) =~= self.block_hashes_m().take(i + 1));
            }
            i = i + 1;
        }
        proof {
            assert(string_views(r@) =~= self.block_hashes_m());
        }
        r
    }

    /// Seals a new block over `records` at the end of the chain, linking it
    /// to the current head and recording every new hash; refuses an empty
    /// batch, which would make an invalid block.
    pub fn append_records(&mut self, records: Vec<Record>) -> (res: Result<(), String>)
        requires
            old(self).wf(),
        ensures
            final(self).wf(),
            res is Err <==> records@.len() == 0,
            res is Err ==> *final(self) == *old(self),
            res is Ok ==> {
                let nb = final(self).blocks_m().last();
                &&& final(self).blocks_m() == old(self).blocks_m().push(nb)
                &&& nb.index == old(self).blocks_m().len()
                &&& nb.previous_hash == old(self).blocks_m().last().hash
                &&& nb.data == record_views(records@)
                &&& nb.hash == block_hash_of(nb)
                &&& nb.hash != block_init_hash()
                &&& nb.hash.len() == 64
                &&& final(self).block_hashes_m() == old(self).block_hashes_m().push(nb.hash)
                &&& final(self).record_hashes_m() == old(self).record_hashes_m()
                    + record_hashes(record_views(records@))
                &&& final(self).max_verified == old(self).max_verified
                &&& (chain_linked(old(self).blocks_m()) ==> chain_linked(final(self).blocks_m()))
                &&& (blocks_valid_range(old(self).blocks_m(), 0, old(self).blocks_m().len() as int)
                    && (forall|i: int|
                    0 <= i < records@.len() ==> record_valid(
                        #[trigger] record_views(records@)[i],
                    )) ==> blocks_valid_range(
                    final(self).blocks_m(),
                    0,
                    final(self).blocks_m().len() as int,
                ))
            },
    {
        if records.len() == 0 {
            return Err("no records to append".to_owned());
        }
        let ghost batch_hashes = record_hashes(record_views(records@));
        let previous_hash = self.blocks[self.blocks.len() - 1].hash.clone();
        let mut i: usize = 0;
        while i < records.len()
            invariant
                i <= records@.len(),
                self.blocks == old(self).blocks,
                self.known_block_hashes == old(self).known_block_hashes,
                self.max_verified == old(self).max_verified,
                batch_hashes == record_hashes(record_views(records@)),
                self.record_hashes_m() == old(self).record_hashes_m() + batch_hashes.take(
                    i as int,
                ),
            decreases records@.len() - i,
        {
            let h = records[i].hash.clone();
            let ghost hv = h;
            let ghost krh0 = self.known_record_hashes@;
            self.known_record_hashes.push(h);
            proof {
                lemma_string_views_push(krh0, hv);
                assert(batch_hashes[i as int] == records@[i as int]@.hash);
                assert(self.record_hashes_m() =~= old(self).record_hashes_m()
                    + batch_hashes.take(i + 1));
            }
            i = i + 1;
        }
        proof {
            assert(batch_hashes.take(batch_hashes.len() as int) == batch_hashes);
        }
        let idx = self.blocks.len() as u64;
        let block = Block::new(idx, previous_hash, records);
        let bh = block.hash.clone();
        let ghost bhv = bh;
        let ghost kbh0 = self.known_block_hashes@;
        self.known_block_hashes.push(bh);
        let ghost gblock = block;
        let ghost nb = gblock@;
        let ghost blocks0 = self.blocks@;
        self.blocks.push(block);
        proof {
            lemma_string_views_push(kbh0, bhv);
            lemma_block_views_push(blocks0, gblock);
            assert(self.blocks_m() == old(self).blocks_m().push(nb));
            assert(self.block_hashes_m() == old(self).block_hashes_m().push(nb.hash));
            if chain_linked(old(self).blocks_m()) {
                assert forall|k: int| 0 < k < self.blocks_m().len() implies #[trigger] self
                    .blocks_m()[k].previous_hash == self.blocks_m()[k - 1].hash by {
                    if k < self.blocks_m().len() - 1 {
                        assert(self.blocks_m()[k] == old(self).blocks_m()[k]);
                        assert(self.blocks_m()[k - 1] == old(self).blocks_m()[k - 1]);
                    }
                }
            }
            if blocks_valid_range(old(self).blocks_m(), 0, old(self).blocks_m().len() as int)
                && (forall|i: int|
                0 <= i < records@.len() ==> record_valid(#[trigger] record_views(records@)[i])) {
                assert(block_valid(old(self).blocks_m().last()));
                assert(nb.previous_hash.len() == 64);
                assert(block_valid(nb));
                assert forall|k: int| 0 <= k < self.blocks_m().len() implies block_valid(
                    #[trigger] self.blocks_m()[k]) by {
                    if k < self.blocks_m().len() - 1 {
                        assert(self.blocks_m()[k] == old(self).blocks_m()[k]);
                    }
                }
            }
        }
        Ok(())
    }

    /// Filters out every record whose hash the chain has already seen, then
    /// appends the rest as one new block. After the call every hash of the
    /// batch is known, so repeating the same batch leaves the record-hash
    /// set unchanged.
    pub fn append_new_records(&mut self, records: Vec<Record>) -> (res: Result<(), String>)
        requires
            old(self).wf(),
        ensures
            final(self).wf(),
            res is Err <==> unseen(record_views(records@), old(self).record_hashes_m()).len()
                == 0,
            res is Err ==> *final(self) == *old(self),
            res is Ok ==> {
                let kept = unseen(record_views(records@), old(self).record_hashes_m());
                let nb = final(self).blocks_m().last();
                &&& final(self).blocks_m() == old(self).blocks_m().push(nb)
                &&& nb.index == old(self).blocks_m().len()
                &&& nb.previous_hash == old(self).blocks_m().last().hash
                &&& nb.data == kept
                &&& nb.hash == block_hash_of(nb)
                &&& final(self).record_hashes_m() == old(self).record_hashes_m()
                    + record_hashes(kept)
                &&& final(self).block_hashes_m() == old(self).block_hashes_m().push(nb.hash)
                &&& final(self).max_verified == old(self).max_verified
                &&& (chain_linked(old(self).blocks_m()) ==> chain_linked(final(self).blocks_m()))
                &&& (blocks_valid_range(old(self).blocks_m(), 0, old(self).blocks_m().len() as int)
                    && (forall|i: int|
                    0 <= i < records@.len() ==> record_valid(
                        #[trigger] record_views(records@)[i],
                    )) ==> blocks_valid_range(
                    final(self).blocks_m(),
                    0,
                    final(self).blocks_m().len() as int,
                ))
            },
            forall|i: int|
                0 <= i < records@.len() ==> contains_str(
                    final(self).record_hashes_m(),
                    #[trigger] record_views(records@)[i].hash,
                ),
    {
        let mut kept: Vec<Record> = Vec::new();
        let mut i: usize = 0;
        while i < records.len()
            invariant
                i <= records@.len(),
                *self == *old(self),
                record_views(kept@) == unseen(
                    record_views(records@.take(i as int)),
                    old(self).record_hashes_m(),
                ),
            decreases records@.len() - i,
        {
            let seen = self.record_seen(&records[i].hash);
            proof {
                assert(record_views(records@.take(i + 1)).drop_last() =~= record_views(
                    records@.take(i as int),
                ));
                assert(record_views(records@.take(i + 1)).last() == records@[i as int]@);
            }
            if !seen {
                kept.push(records[i].clone());
                proof {
                    assert(record_views(kept@) =~= unseen(
                        record_views(records@.take(i + 1)),
                        old(self).record_hashes_m(),
                    ));
                }
            }
            i = i + 1;
        }
        proof {
            assert(records@.take(records@.len() as int) == records@);
        }
        proof {
            lemma_unseen_subset(record_views(records@), old(self).record_hashes_m());
        }
        let res = self.append_records(kept);
        proof {
            lemma_unseen_after_append(
                record_views(records@),
                old(self).record_hashes_m(),
                self.record_hashes_m(),
            );
        }
        res
    }

    /// Appends foreign blocks at the end of the chain, recording their
    /// hashes as known; fails with a chain-mismatch error exactly when the
    /// first block does not link to the current head. The blocks are not
    /// re-validated here: the merge path validates before appending.
    pub fn append_blocks(&mut self, blocks: Vec<Block>) -> (res: Result<(), String>)
        requires
            old(self).wf(),
            blocks@.len() > 0,
        ensures
            final(self).wf(),
            res is Err <==> block_views(blocks@)[0].previous_hash != old(
                self,
            ).blocks_m().last().hash,
            res is Err ==> *final(self) == *old(self),
            res is Ok ==> {
                &&& final(self).blocks_m() == old(self).blocks_m() + block_views(blocks@)
                &&& final(self).block_hashes_m() == old(self).block_hashes_m()
                    + block_hashes_of(block_views(blocks@))
                &&& final(self).record_hashes_m() == old(self).record_hashes_m()
                &&& final(self).max_verified == old(self).max_verified
            },
    {
        let head_hash = &self.blocks[self.blocks.len() - 1].hash;
        if !(blocks[0].previous_hash == *head_hash) {
            return Err("blockchain does not match".to_owned());
        }
        let ghost new_hashes = block_hashes_of(block_views(blocks@));
        let ghost new_views = block_views(blocks@);
        let mut i: usize = 0;
        while i < blocks.len()
            invariant
                i <= blocks@.len(),
                self.blocks == old(self).blocks,
                self.known_record_hashes == old(self).known_record_hashes,
                self.max_verified == old(self).max_verified,
                new_hashes == block_hashes_of(block_views(blocks@)),
                self.block_hashes_m() == old(self).block_hashes_m() + new_hashes.take(i as int),
            decreases blocks@.len() - i,
        {
            let h = blocks[i].hash.clone();
            let ghost hv = h;
            let ghost kbh0 = self.known_block_hashes@;
            self.known_block_hashes.push(h);
            proof {
                lemma_string_views_push(kbh0, hv);
                assert(new_hashes[i as int] == blocks@[i as int]@.hash);
                assert(self.block_hashes_m() =~= old(self).block_hashes_m() + new_hashes.take(
                    i + 1,
                ));
            }
            i = i + 1;
        }
        let mut i: usize = 0;
        while i < blocks.len()
            invariant
                i <= blocks@.len(),
                new_hashes == block_hashes_of(block_views(blocks@)),
                new_views == block_views(blocks@),
                self.block_hashes_m() == old(self).block_hashes_m() + new_hashes.take(
                    blocks@.len() as int,
                ),
                self.known_record_hashes == old(self).known_record_hashes,
                self.max_verified == old(self).max_verified,
                self.blocks_m() == old(self).blocks_m() + new_views.take(i as int),
            decreases blocks@.len() - i,
        {
            let b = blocks[i].clone();
            let ghost bv = b;
            let ghost blocks0 = self.blocks@;
            self.blocks.push(b);
            proof {
                lemma_block_views_push(blocks0, bv);
                assert(new_views[i as int] == blocks@[i as int]@);
                assert(self.blocks_m() =~= old(self).blocks_m() + new_views.take(i + 1));
            }
            i = i + 1;
        }
        proof {
            assert(new_views.take(new_views.len() as int) == new_views);
            assert(new_hashes.take(new_hashes.len() as int) == new_hashes);
        }
        Ok(())
    }

    /// Validates every block from the watermark to the end, advancing the
    /// watermark to the head on success.
    pub fn validate(&mut self) -> (res: Result<(), String>)
        requires
            old(self).wf(),
        ensures
            final(self).wf(),
            final(self).blocks_m() == old(self).blocks_m(),
            final(self).block_hashes_m() == old(self).block_hashes_m(),
            final(self).record_hashes_m() == old(self).record_hashes_m(),
            res is Ok <==> blocks_valid_range(
                old(self).blocks_m(),
                old(self).max_verified as int,
                old(self).blocks_m().len() as int,
            ),
            res is Ok ==> final(self).max_verified == old(self).blocks_m().len() - 1,
            res is Err ==> final(self).max_verified == old(self).max_verified,
    {
        let r = self.full_validate();
        match r {
            Ok(_) => {
                self.max_verified = self.blocks.len() as u64 - 1;
                Ok(())
            },
            Err(e) => Err(e),
        }
    }

    /// Validates every block from the watermark to the end without touching
    /// the chain.
    pub fn full_validate(&self) -> (res: Result<(), String>)
        requires
            self.wf(),
        ensures
            res is Ok <==> blocks_valid_range(
                self.blocks_m(),
                self.max_verified as int,
                self.blocks_m().len() as int,
            ),
    {
        let len = self.blocks.len();
        let mut i: usize = self.max_verified as usize;
        while i < len
            invariant
                self.max_verified <= i <= len,
                len == self.blocks@.len(),
                forall|j: int|
                    self.max_verified <= j < i ==> block_valid(#[trigger] self.blocks_m()[j]),
            decreases len - i,
        {
            let r = self.blocks[i].validate();
            if let Err(e) = r {
                proof {
                    assert(!block_valid(self.blocks_m()[i as int]));
                }
                return Err(e);
            }
            i = i + 1;
        }
        Ok(())
    }

    /// Compares a candidate chain against this one: `Invalid` when either
    /// chain is empty or the candidate fails validation, otherwise `Longer`
    /// exactly when the candidate has strictly more blocks.
    pub fn compare_other_chain(&self, candidate: &Blockchain) -> (res: ChainComparison)
        requires
            candidate.wf(),
        ensures
            res@ == compare_spec(
                self.blocks_m().len() as int,
                candidate.blocks_m(),
                candidate.max_verified as int,
            ),
    {
        if self.blocks.len() == 0 {
            return ChainComparison::Invalid("current chain is empty".to_owned());
        }
        if candidate.blocks.len() == 0 {
            return ChainComparison::Invalid("candidate chain is empty".to_owned());
        }
        match candidate.full_validate() {
            Ok(_) => {},
            Err(e) => {
                return ChainComparison::Invalid(
                    "candidate chain is invalid: ".to_owned().concat(e.as_str()),
                );
            },
        }
        if candidate.blocks.len() > self.blocks.len() {
            ChainComparison::Longer
        } else {
            ChainComparison::ShorterOrSame
        }
    }

    /// Rebuilds a chain from a sequence of blocks, as the deserialisation
    /// path does: the hash indices are reset, the watermark starts at zero,
    /// and the whole chain is validated to rebuild trust. Fails when the
    /// declared size disagrees with the blocks carried, when the blocks are
    /// empty, or when any block fails validation.
    pub fn from_blocks(blocks: Vec<Block>, declared_size: u64) -> (res: Result<
        Blockchain,
        String,
    >)
        ensures
            match res {
                Ok(c) => {
                    &&& c.wf()
                    &&& c.blocks_m() == block_views(blocks@)
                    &&& c.block_hashes_m() == Seq::<Seq<char>>::empty()
                    &&& c.record_hashes_m() == Seq::<Seq<char>>::empty()
                    &&& c.max_verified == blocks@.len() - 1
                    &&& blocks_valid_range(block_views(blocks@), 0, blocks@.len() as int)
                    &&& declared_size == blocks@.len()
                },
                Err(_) => blocks@.len() == 0 || declared_size != blocks@.len()
                    || !blocks_valid_range(block_views(blocks@), 0, blocks@.len() as int),
            },
    {
        if blocks.len() == 0 {
            return Err("Blockchain size does not match data size".to_owned());
        }
        if declared_size != blocks.len() as u64 {
            return Err("Blockchain size does not match data size".to_owned());
        }
        let mut chain = Blockchain {
            blocks,
            known_block_hashes: Vec::new(),
            known_record_hashes: Vec::new(),
            max_verified: 0,
        };
        match chain.validate() {
            Ok(_) => {
                proof {
                    assert(chain.block_hashes_m() =~= Seq::<Seq<char>>::empty());
                    assert(chain.record_hashes_m() =~= Seq::<Seq<char>>::empty());
                }
                Ok(chain)
            },
            Err(e) => Err(e),
        }
    }
}

/// Whether `h` occurs among the strings of `v`.
fn contains_string(v: &Vec<String>, h: &String) -> (b: bool)
    ensures
        b == contains_str(string_views(v@), h@),
{
    let mut i: usize = 0;
    while i < v.len()
        invariant
            i <= v@.len(),
            forall|j: int| 0 <= j < i ==> string_views(v@)[j] != h@,
        decreases v@.len() - i,
    {
        if v[i] == *h {
            proof {
                assert(string_views(v@)[i as int] == h@);
            }
            return true;
        }
        i = i + 1;
    }
    false
}

/// After an append has recorded the hashes of the kept records, every hash
/// of the whole batch is known: the seen ones were known before, the unseen
/// ones were just added.
proof fn lemma_unseen_after_append(rs: Seq<RecordM>, before: Seq<Seq<char>>, after: Seq<Seq<char>>)
    requires
        after == before + record_hashes(unseen(rs, before)) || after == before,
        after == before ==> unseen(rs, before).len() == 0,
    ensures
        forall|i: int| 0 <= i < rs.len() ==> contains_str(after, #[trigger] rs[i].hash),
{
    assert forall|i: int| 0 <= i < rs.len() implies contains_str(after, #[trigger] rs[i].hash)
        by {
        lemma_unseen_member(rs, i, before);
        if contains_str(before, rs[i].hash) {
            let w = choose|k: int| 0 <= k < before.len() && before[k] == rs[i].hash;
            if after == before {
                assert(after[w] == rs[i].hash);
            } else {
                assert(after[w] == (before + record_hashes(unseen(rs, before)))[w]);
                assert(after[w] == rs[i].hash);
            }
        } else {
            let kept = unseen(rs, before);
            let w = choose|k: int| 0 <= k < kept.len() && kept[k].hash == rs[i].hash;
            assert(kept.len() > 0);
            assert(after == before + record_hashes(kept));
            assert(after[before.len() + w] == record_hashes(kept)[w]);
            assert(after[before.len() + w] == rs[i].hash);
        }
    }
}

/// A record of the batch is either already known or among the kept records.
proof fn lemma_unseen_member(rs: Seq<RecordM>, i: int, hashes: Seq<Seq<char>>)
    requires
        0 <= i < rs.len(),
    ensures
        contains_str(hashes, rs[i].hash) || exists|k: int|
            0 <= k < unseen(rs, hashes).len() && unseen(rs, hashes)[k].hash == rs[i].hash,
    decreases rs.len(),
{
    if i == rs.len() - 1 {
        if !contains_str(hashes, rs.last().hash) {
            let kept = unseen(rs, hashes);
            assert(kept[kept.len() - 1].hash == rs[i].hash);
        }
    } else {
        lemma_unseen_member(rs.drop_last(), i, hashes);
        let rest = unseen(rs.drop_last(), hashes);
        if !contains_str(hashes, rs[i].hash) {
            let k = choose|k: int| 0 <= k < rest.len() && rest[k].hash == rs[i].hash;
            assert(unseen(rs, hashes)[k].hash == rs[i].hash);
        }
    }
}

/// The comparison outcome is invariant under serialise-then-deserialise of
/// either operand. The wire format carries exactly the blocks and the
/// length; a chain rebuilt from it (`Blockchain::from_blocks`) carries the
/// same blocks and has passed full validation, and only chains that validate
/// from their own watermark serialise at all. The outcome reads nothing but
/// the local length and the candidate's blocks and validity, so it cannot
/// change.
pub proof fn lemma_compare_round_trip(
    self_len: int,
    rebuilt_self_len: int,
    cand: Seq<BlockM>,
    cand_mv: int,
    rebuilt_cand: Seq<BlockM>,
    rebuilt_cand_mv: int,
)
    requires
        rebuilt_self_len == self_len,
        rebuilt_cand == cand,
        blocks_valid_range(cand, cand_mv, cand.len() as int),
        blocks_valid_range(rebuilt_cand, rebuilt_cand_mv, rebuilt_cand.len() as int),
    ensures
        compare_spec(rebuilt_self_len, rebuilt_cand, rebuilt_cand_mv) == compare_spec(
            self_len,
            cand,
            cand_mv,
        ),
{
}

/// Every record the filter keeps comes from the batch.
pub proof fn lemma_unseen_subset(rs: Seq<RecordM>, hashes: Seq<Seq<char>>)
    ensures
        forall|k: int|
            0 <= k < unseen(rs, hashes).len() ==> exists|i: int|
                0 <= i < rs.len() && rs[i] == #[trigger] unseen(rs, hashes)[k],
    decreases rs.len(),
{
    if rs.len() > 0 {
        lemma_unseen_subset(rs.drop_last(), hashes);
        let kept = unseen(rs, hashes);
        let rest = unseen(rs.drop_last(), hashes);
        assert forall|k: int| 0 <= k < kept.len() implies exists|i: int|
            0 <= i < rs.len() && rs[i] == #[trigger] kept[k] by {
            if k < rest.len() {
                let i = choose|i: int| 0 <= i < rs.drop_last().len() && rs.drop_last()[i]
                    == rest[k];
                assert(rs[i] == kept[k]);
            } else {
                assert(kept[k] == rs.last());
                assert(rs[rs.len() - 1] == kept[k]);
            }
        }
    }
}

/// A wholly known batch filters to nothing: appending the same batch twice
/// leaves the record-hash set exactly as the first call left it.
pub proof fn lemma_append_new_records_idempotent(rs: Seq<RecordM>, hashes: Seq<Seq<char>>)
    requires
        forall|i: int| 0 <= i < rs.len() ==> contains_str(hashes, #[trigger] rs[i].hash),
    ensures
        unseen(rs, hashes) == Seq::<RecordM>::empty(),
    decreases rs.len(),
{
    if rs.len() > 0 {
        assert(contains_str(hashes, rs.last().hash));
        assert(forall|i: int|
            0 <= i < rs.drop_last().len() ==> contains_str(
                hashes,
                #[trigger] rs.drop_last()[i].hash,
            ));
        lemma_append_new_records_idempotent(rs.drop_last(), hashes);
    }
}

} // verus!
