//! The mempool: a bounded set of pending records, deduplicated by hash.

use crate::record::{record_views, Record, RecordM};
use vstd::prelude::*;

verus! {

#[derive(Debug, PartialEq, Eq, Structural)]
pub enum MemPoolError {
    Full,
}

/// A locally-unique group of records awaiting sealing into a block.
/// Identity is by record hash: duplicates are silently collapsed.
pub struct MemPool {
    pub data: Vec<Record>,
    pub bound: usize,
}

impl View for MemPool {
    type V = Seq<RecordM>;

    open spec fn view(&self) -> Seq<RecordM> {
        record_views(self.data@)
    }
}

/// Whether some record in `s` carries the hash `h`.
pub open spec fn contains_hash(s: Seq<RecordM>, h: Seq<char>) -> bool {
    exists|i: int| 0 <= i < s.len() && s[i].hash == h
}

/// The pool after an attempted insertion: unchanged when the pool is at its
/// bound or already holds the record's hash, extended otherwise.
pub open spec fn put_pool(s: Seq<RecordM>, bound: usize, r: RecordM) -> Seq<RecordM> {
    if s.len() >= bound {
        s
    } else if contains_hash(s, r.hash) {
        s
    } else {
        s.push(r)
    }
}

impl MemPool {
    /// No two records in the pool share a hash.
    pub open spec fn wf(&self) -> bool {
        forall|i: int, j: int|
            0 <= i < j < self@.len() ==> self@[i].hash != self@[j].hash
    }

    /// An empty pool that will hold at most `max_size` records.
    pub fn new(max_size: usize) -> (p: MemPool)
        ensures
            p@.len() == 0,
            p.bound == max_size,
            p.wf(),
    {
        MemPool { data: Vec::new(), bound: max_size }
    }

    /// The number of records currently pending.
    pub fn length(&self) -> (n: usize)
        ensures
            n == self@.len(),
    {
        self.data.len()
    }

    /// Whether a record with this record's hash is already pending.
    pub fn contains(&self, r: &Record) -> (b: bool)
        ensures
            b == contains_hash(self@, r@.hash),
    {
        let mut i: usize = 0;
        while i < self.data.len()
            invariant
                i <= self.data.len(),
                forall|j: int| 0 <= j < i ==> self@[j].hash != r@.hash,
            decreases self.data.len() - i,
        {
            if self.data[i].hash == r.hash {
                proof {
                    assert(self@[i as int].hash == r@.hash);
                }
                return true;
            }
            i = i + 1;
        }
        false
    }

    /// A borrowed view of the pending records, for the notifier.
    pub fn contents(&self) -> (r: &Vec<Record>)
        ensures
            record_views(r@) == self@,
    {
        &self.data
    }

    /// Inserts `r` unless the pool is at its bound; a record whose hash is
    /// already pending is silently collapsed. Fails with `Full` exactly when
    /// the pool already holds `bound` records.
    pub fn put(&mut self, r: Record) -> (res: Result<(), MemPoolError>)
        requires
            old(self).wf(),
        ensures
            final(self).wf(),
            final(self).bound == old(self).bound,
            final(self)@ == put_pool(old(self)@, old(self).bound, r@),
            res matches Err(e) ==> e == MemPoolError::Full,
            res is Err <==> old(self)@.len() >= old(self).bound,
    {
        if self.data.len() >= self.bound {
            return Err(MemPoolError::Full);
        }
        if self.contains(&r) {
            return Ok(());
        }
        self.data.push(r);
        proof {
            assert(record_views(self.data@) =~= record_views(old(self).data@).push(r@));
        }
        Ok(())
    }

    /// Atomically returns all pending records and empties the pool.
    pub fn reset(&mut self) -> (out: Vec<Record>)
        ensures
            record_views(out@) == old(self)@,
            final(self)@.len() == 0,
            final(self).bound == old(self).bound,
            final(self).wf(),
    {
        let mut out: Vec<Record> = Vec::new();
        core::mem::swap(&mut self.data, &mut out);
        out
    }
}

/// Insertion is idempotent: once a record's hash is in the pool, putting the
/// same record again leaves the pool exactly as it was.
pub proof fn lemma_put_deduplicates(s: Seq<RecordM>, bound: usize, r: RecordM)
    ensures
        put_pool(put_pool(s, bound, r), bound, r) == put_pool(s, bound, r),
{
    let once = put_pool(s, bound, r);
    if s.len() >= bound {
    } else if contains_hash(s, r.hash) {
    } else {
        assert(once[s.len() as int].hash == r.hash);
        assert(contains_hash(once, r.hash));
    }
}

} // verus!
