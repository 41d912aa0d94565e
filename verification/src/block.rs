//! Blocks: hash-linked batches of records.

use crate::clock;
use crate::hashing::{hex_sha3, hex_sha3_of, push_u64_be, u64_be_bytes};
use crate::record::{genesis_entry, record_valid, record_views, Record, RecordM};
use vstd::prelude::*;
use vstd::string::StrSliceExecFns;
use vstd::utf8::encode_utf8;

verus! {

/// The mathematical content of a block.
pub struct BlockM {
    pub index: u64,
    pub previous_hash: Seq<char>,
    pub timestamp: u64,
    pub data: Seq<RecordM>,
    pub hash: Seq<char>,
}

/// A hash-linked batch of records at a fixed position in the chain.
#[derive(Debug)]
pub struct Block {
    /// Position in the chain; 0 is the genesis block.
    pub index: u64,
    /// The hash of the preceding block; a fixed sentinel for genesis.
    pub previous_hash: String,
    /// Milliseconds since the Unix epoch at sealing.
    pub timestamp: u64,
    /// The records the block carries; never empty in a valid block.
    pub data: Vec<Record>,
    /// Lowercase hex SHA3-256 over timestamp, previous hash and record hashes.
    pub hash: String,
}

impl View for Block {
    type V = BlockM;

    open spec fn view(&self) -> BlockM {
        BlockM {
            index: self.index,
            previous_hash: self.previous_hash@,
            timestamp: self.timestamp,
            data: record_views(self.data@),
            hash: self.hash@,
        }
    }
}

/// The previous-hash sentinel carried by the genesis block.
pub open spec fn genesis_previous_hash() -> Seq<char> {
    "EIN SOF"@
}

/// The sentinel a block's hash holds before sealing.
pub open spec fn block_init_hash() -> Seq<char> {
    "BLOCK_INIT_HASH"@
}

/// The concatenated UTF-8 bytes of the hashes of the records in `data`.
pub open spec fn record_hash_bytes(data: Seq<RecordM>) -> Seq<u8>
    decreases data.len(),
{
    if data.len() == 0 {
        Seq::empty()
    } else {
        record_hash_bytes(data.drop_last()) + encode_utf8(data.last().hash)
    }
}

/// The bytes a block's hash is computed over: the big-endian timestamp, the
/// UTF-8 bytes of the previous hash, then each record's hash bytes in order.
pub open spec fn block_hash_input(b: BlockM) -> Seq<u8> {
    u64_be_bytes(b.timestamp) + encode_utf8(b.previous_hash) + record_hash_bytes(b.data)
}

/// The content hash a sealed block must carry.
pub open spec fn block_hash_of(b: BlockM) -> Seq<char> {
    hex_sha3_of(block_hash_input(b))
}

/// A block is valid when it carries records, its previous-hash field fits
/// its position, it has been sealed, its stored hash matches its recomputed
/// hash, and every record it carries is itself valid.
pub open spec fn block_valid(b: BlockM) -> bool {
    &&& b.data.len() > 0
    &&& b.index == 0 ==> b.previous_hash == genesis_previous_hash()
    &&& b.index > 0 ==> b.previous_hash.len() > 0
    &&& b.hash != block_init_hash()
    &&& b.hash == block_hash_of(b)
    &&& b.hash.len() == 64
    &&& forall|i: int| 0 <= i < b.data.len() ==> record_valid(#[trigger] b.data[i])
}

impl Clone for Block {
    fn clone(&self) -> (res: Block)
        ensures
            res@ == self@,
    {
        let mut data: Vec<Record> = Vec::new();
        let mut i: usize = 0;
        while i < self.data.len()
            invariant
                i <= self.data.len(),
                data@.len() == i,
                record_views(data@) == record_views(self.data@.take(i as int)),
            decreases self.data.len() - i,
        {
            let ghost snapshot = data@;
            data.push(self.data[i].clone());
            proof {
                let pre = self.data@.take(i + 1);
                assert forall|j: int| 0 <= j < data@.len() implies record_views(data@)[j]
                    == record_views(pre)[j] by {
                    assert(pre[j] == self.data@[j]);
                    if j < i {
                        assert(data@[j] == snapshot[j]);
                        assert(record_views(snapshot)[j] == record_views(
                            self.data@.take(i as int),
                        )[j]);
                        assert(snapshot[j]@ == self.data@.take(i as int)[j]@);
                    }
                }
                assert(record_views(data@) =~= record_views(pre));
            }
            i = i + 1;
        }
        proof {
            assert(self.data@.take(self.data@.len() as int) == self.data@);
        }
        Block {
            index: self.index,
            previous_hash: self.previous_hash.clone(),
            timestamp: self.timestamp,
            data,
            hash: self.hash.clone(),
        }
    }
}

impl PartialEq for Block {
    /// Two blocks are equal iff both have been sealed and their hashes match.
    fn eq(&self, other: &Self) -> (r: bool) {
        self.hash == other.hash && !(self.hash == "BLOCK_INIT_HASH".to_owned())
    }
}

impl vstd::std_specs::cmp::PartialEqSpecImpl for Block {
    open spec fn obeys_eq_spec() -> bool {
        true
    }

    open spec fn eq_spec(&self, other: &Self) -> bool {
        self.hash@ == other.hash@ && self.hash@ != block_init_hash()
    }
}

impl Eq for Block {}

impl Block {
    /// The bytes this block's hash is computed over.
    fn hash_input(&self) -> (bytes: Vec<u8>)
        ensures
            bytes@ == block_hash_input(self@),
    {
        let mut bytes: Vec<u8> = Vec::new();
        push_u64_be(&mut bytes, self.timestamp);
        let mut prev_bytes = self.previous_hash.as_str().as_bytes_vec();
        bytes.append(&mut prev_bytes);
        proof {
            assert(bytes@ =~= u64_be_bytes(self@.timestamp) + encode_utf8(self@.previous_hash));
        }
        let mut i: usize = 0;
        while i < self.data.len()
            invariant
                i <= self.data.len(),
                bytes@ == u64_be_bytes(self@.timestamp) + encode_utf8(self@.previous_hash)
                    + record_hash_bytes(self@.data.take(i as int)),
            decreases self.data.len() - i,
        {
            let mut hash_bytes = self.data[i].hash.as_str().as_bytes_vec();
            bytes.append(&mut hash_bytes);
            proof {
                assert(self@.data.take(i + 1).drop_last() =~= self@.data.take(i as int));
                assert(self@.data.take(i + 1).last() == self@.data[i as int]);
                assert(bytes@ =~= u64_be_bytes(self@.timestamp) + encode_utf8(
                    self@.previous_hash,
                ) + record_hash_bytes(self@.data.take(i + 1)));
            }
            i = i + 1;
        }
        proof {
            assert(self@.data.take(self.data@.len() as int) == self@.data);
        }
        bytes
    }

    /// Recomputes the block's content hash from its current fields.
    fn calculate_hash(&self) -> (r: String)
        ensures
            r@ == block_hash_of(self@),
            r@.len() == 64,
    {
        let input = self.hash_input();
        hex_sha3(&input)
    }

    /// The block's previous-hash field.
    pub fn previous_hash(&self) -> (r: &String)
        ensures
            r@ == self@.previous_hash,
    {
        &self.previous_hash
    }

    /// Seals the block if it still carries the pre-seal sentinel; a sealed
    /// block is left untouched.
    pub fn update_hash(&mut self) -> (r: &String)
        ensures
            final(self)@.index == old(self)@.index,
            final(self)@.previous_hash == old(self)@.previous_hash,
            final(self)@.timestamp == old(self)@.timestamp,
            final(self)@.data == old(self)@.data,
            old(self)@.hash == block_init_hash() ==> final(self)@.hash == block_hash_of(
                final(self)@,
            ) && final(self)@.hash.len() == 64,
            old(self)@.hash != block_init_hash() ==> final(self)@.hash == old(self)@.hash,
            r@ == final(self)@.hash,
    {
        if self.hash == "BLOCK_INIT_HASH".to_owned() {
            let result = self.calculate_hash();
            self.hash = result;
        }
        &self.hash
    }

    /// The first ever block: index 0, the genesis sentinel as previous hash,
    /// and the genesis record as its only datum.
    pub fn genesis() -> (b: Block)
        ensures
            b@.index == 0,
            b@.previous_hash == genesis_previous_hash(),
            b@.timestamp == 0,
            b@.data.len() == 1,
            b@.data[0].uuid == Seq::new(16, |i: int| 0u8),
            b@.data[0].timestamp == 0,
            b@.data[0].entry == genesis_entry(),
            b@.hash == block_hash_of(b@),
            b@.hash.len() == 64,
            block_valid(b@),
    {
        let starter = Record::genesis_record();
        let mut block = Block {
            index: 0,
            previous_hash: "EIN SOF".to_owned(),
            timestamp: 0,
            hash: "BLOCK_INIT_HASH".to_owned(),
            data: vec![starter],
        };
        block.update_hash();
        proof {
            reveal_strlit("BLOCK_INIT_HASH");
        }
        block
    }

    /// A sealed block over the given records, stamped with the current time.
    pub fn new(idx: u64, previous: String, records: Vec<Record>) -> (b: Block)
        requires
            records@.len() > 0,
        ensures
            b@.index == idx,
            b@.previous_hash == previous@,
            b@.data == record_views(records@),
            b@.hash == block_hash_of(b@),
            b@.hash != block_init_hash(),
            b@.hash.len() == 64,
    {
        let now = clock::now_millis();
        let mut block = Block {
            index: idx,
            previous_hash: previous,
            timestamp: now,
            hash: "BLOCK_INIT_HASH".to_owned(),
            data: records,
        };
        block.update_hash();
        proof {
            reveal_strlit("BLOCK_INIT_HASH");
        }
        block
    }

    /// Checks every condition of `block_valid`, in order, and names the
    /// first one that fails; succeeds exactly when the block is valid.
    pub fn validate(&self) -> (res: Result<(), String>)
        ensures
            res is Ok <==> block_valid(self@),
    {
        if self.data.len() == 0 {
            return Err("Block has no records".to_owned());
        }
        if self.index == 0 && !(self.previous_hash == "EIN SOF".to_owned()) {
            return Err("Genesis block has invalid previous hash".to_owned());
        }
        if self.index > 0 && self.previous_hash.as_str().is_empty() {
            return Err("Block has no previous hash".to_owned());
        }
        if self.hash == "BLOCK_INIT_HASH".to_owned() {
            return Err("Block is not initialized".to_owned());
        }
        let computed = self.calculate_hash();
        if !(self.hash == computed) {
            return Err("Block hash does not match calculated hash".to_owned());
        }
        let mut i: usize = 0;
        while i < self.data.len()
            invariant
                i <= self.data.len(),
                forall|j: int| 0 <= j < i ==> record_valid(#[trigger] self@.data[j]),
            decreases self.data.len() - i,
        {
            let r = self.data[i].validate();
            if let Err(e) = r {
                proof {
                    assert(!record_valid(self@.data[i as int]));
                }
                return Err(e);
            }
            i = i + 1;
        }
        Ok(())
    }
}

} // verus!
