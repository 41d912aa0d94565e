//! Records: the immutable, content-hashed unit of user data.

use crate::clock;
use crate::hashing::{hex_sha3, hex_sha3_of, push_u64_be, u64_be_bytes};
use vstd::prelude::*;
use vstd::string::StrSliceExecFns;
use vstd::utf8::encode_utf8;

verus! {

/// The mathematical content of a record.
pub struct RecordM {
    pub uuid: Seq<u8>,
    pub timestamp: u64,
    pub entry: Seq<char>,
    pub hash: Seq<char>,
}

/// A standalone entry in the log. The entry is opaque UTF-8 text,
/// conventionally JSON; the hash is the lowercase hex SHA3-256 of the
/// record's content.
#[derive(Debug)]
pub struct Record {
    /// Unique per record: the 16 bytes of a version-4 UUID.
    pub uuid: Vec<u8>,
    /// Seconds since the Unix epoch at creation.
    pub timestamp: u64,
    /// The payload.
    pub entry: String,
    /// Lowercase hex SHA3-256 over timestamp, entry and uuid.
    pub hash: String,
}

impl View for Record {
    type V = RecordM;

    open spec fn view(&self) -> RecordM {
        RecordM {
            uuid: self.uuid@,
            timestamp: self.timestamp,
            entry: self.entry@,
            hash: self.hash@,
        }
    }
}

/// The models of a sequence of records.
pub open spec fn record_views(rs: Seq<Record>) -> Seq<RecordM> {
    rs.map_values(|r: Record| r@)
}

/// Pushing a record pushes its model.
pub proof fn lemma_record_views_push(rs: Seq<Record>, x: Record)
    ensures
        record_views(rs.push(x)) == record_views(rs).push(x@),
{
    assert forall|j: int| 0 <= j < rs.len() + 1 implies record_views(rs.push(x))[j]
        == record_views(rs).push(x@)[j] by {
        if j < rs.len() {
            assert(rs.push(x)[j] == rs[j]);
        } else {
            assert(rs.push(x)[j] == x);
        }
    }
    assert(record_views(rs.push(x)) =~= record_views(rs).push(x@));
}

/// The bytes a record's hash is computed over: the big-endian timestamp,
/// then the UTF-8 entry bytes, then the uuid bytes, in that exact order.
pub open spec fn record_hash_input(r: RecordM) -> Seq<u8> {
    u64_be_bytes(r.timestamp) + encode_utf8(r.entry) + r.uuid
}

/// The content hash a record must carry to be valid.
pub open spec fn record_hash_of(r: RecordM) -> Seq<char> {
    hex_sha3_of(record_hash_input(r))
}

/// A record is valid when its stored hash equals its recomputed hash.
pub open spec fn record_valid(r: RecordM) -> bool {
    r.hash == record_hash_of(r)
}

/// Every record that `Record::new` makes validates: it carries exactly the
/// hash recomputed from its timestamp, entry and uuid, which is what
/// `Record::validate` checks.
pub proof fn lemma_made_record_validates(r: RecordM)
    requires
        r.hash == record_hash_of(r),
    ensures
        record_valid(r),
{
}

/// The key/value pairs of a JSON text that is a flat object mapping strings
/// to strings, or `None` where the text is not such an object. The result is
/// a function of the text alone.
pub uninterp spec fn flat_object_of(s: Seq<char>) -> Option<Map<Seq<char>, Seq<char>>>;

/// The map carried by a sequence of key/value pairs; a later pair wins.
pub open spec fn pairs_model(ps: Seq<(String, String)>) -> Map<Seq<char>, Seq<char>>
    decreases ps.len(),
{
    if ps.len() == 0 {
        Map::empty()
    } else {
        pairs_model(ps.drop_last()).insert(ps.last().0@, ps.last().1@)
    }
}

/// No two pairs share a key.
pub open spec fn distinct_keys(ps: Seq<(String, String)>) -> bool {
    forall|i: int, j: int| 0 <= i < j < ps.len() ==> ps[i].0@ != ps[j].0@
}

/// Relies on `serde_json::from_str` deserialising a `BTreeMap<String,
/// String>`: it succeeds exactly when the text is a JSON object whose values
/// are all strings, and yields that object's pairs, keys unique.
#[verifier::external_body]
fn parse_flat_object(s: &str) -> (r: Result<Vec<(String, String)>, String>)
    ensures
        match r {
            Ok(pairs) => {
                &&& flat_object_of(s@) matches Some(m)
                &&& pairs_model(pairs@) == m
                &&& distinct_keys(pairs@)
            },
            Err(_) => flat_object_of(s@) is None,
        },
{
    match serde_json::from_str::<std::collections::BTreeMap<String, String>>(s) {
        Ok(m) => Ok(m.into_iter().collect()),
        Err(e) => Err(e.to_string()),
    }
}

/// A record's entry parsed as a flat string-to-string mapping: a row in a
/// table, as it were.
pub struct KVRecord {
    pub pairs: Vec<(String, String)>,
}

impl View for KVRecord {
    type V = Map<Seq<char>, Seq<char>>;

    open spec fn view(&self) -> Map<Seq<char>, Seq<char>> {
        pairs_model(self.pairs@)
    }
}

impl KVRecord {
    /// The key/value pairs, as new strings.
    pub fn pairs(&self) -> (r: Vec<(String, String)>)
        ensures
            r@ == self.pairs@,
            pairs_model(r@) == self@,
            distinct_keys(r@) <==> distinct_keys(self.pairs@),
    {
        let mut r: Vec<(String, String)> = Vec::new();
        let mut i: usize = 0;
        while i < self.pairs.len()
            invariant
                i <= self.pairs.len(),
                r@ == self.pairs@.take(i as int),
            decreases self.pairs.len() - i,
        {
            let (k, v) = (&self.pairs[i].0, &self.pairs[i].1);
            r.push((k.clone(), v.clone()));
            proof {
                assert(r@ =~= self.pairs@.take(i + 1));
            }
            i = i + 1;
        }
        proof {
            assert(r@ =~= self.pairs@);
        }
        r
    }

    /// Whether no two pairs share a key; true of every value built by
    /// `Record::structured_entry`.
    pub open spec fn wf(&self) -> bool {
        distinct_keys(self.pairs@)
    }
}

/// The entry text of the distinguished genesis record.
pub open spec fn genesis_entry() -> Seq<char> {
    "בְּרֵאשִׁ֖ית בָּרָ֣א"@
}

impl Clone for Record {
    fn clone(&self) -> (res: Record)
        ensures
            res@ == self@,
    {
        let res = Record {
            uuid: copy_bytes(&self.uuid),
            timestamp: self.timestamp,
            entry: self.entry.clone(),
            hash: self.hash.clone(),
        };
        res
    }
}

impl PartialEq for Record {
    /// Two records are equal iff their hashes are equal.
    fn eq(&self, other: &Self) -> (r: bool) {
        self.hash == other.hash
    }
}

impl vstd::std_specs::cmp::PartialEqSpecImpl for Record {
    open spec fn obeys_eq_spec() -> bool {
        true
    }

    open spec fn eq_spec(&self, other: &Self) -> bool {
        self.hash@ == other.hash@
    }
}

impl Eq for Record {}

/// Copies a byte vector element by element.
pub fn copy_bytes(v: &Vec<u8>) -> (r: Vec<u8>)
    ensures
        r@ == v@,
{
    let mut r: Vec<u8> = Vec::new();
    let mut i: usize = 0;
    while i < v.len()
        invariant
            i <= v.len(),
            r@ == v@.take(i as int),
        decreases v.len() - i,
    {
        r.push(v[i]);
        i = i + 1;
    }
    proof {
        assert(r@ =~= v@);
    }
    r
}

/// Relies on `uuid::Uuid::new_v4` and `Uuid::as_bytes`: a freshly drawn
/// random version-4 UUID, as its 16 bytes. The value is random; only the
/// length is promised.
#[verifier::external_body]
fn fresh_uuid_bytes() -> (r: Vec<u8>)
    ensures
        r@.len() == 16,
{
    uuid::Uuid::new_v4().as_bytes().to_vec()
}

impl Record {
    /// The bytes this record's hash is computed over.
    fn hash_input(&self) -> (bytes: Vec<u8>)
        ensures
            bytes@ == record_hash_input(self@),
    {
        let mut bytes: Vec<u8> = Vec::new();
        push_u64_be(&mut bytes, self.timestamp);
        let mut entry_bytes = self.entry.as_str().as_bytes_vec();
        bytes.append(&mut entry_bytes);
        let mut uuid_bytes = copy_bytes(&self.uuid);
        bytes.append(&mut uuid_bytes);
        proof {
            assert(bytes@ =~= record_hash_input(self@));
        }
        bytes
    }

    /// Fills in the content hash if the record still carries the pre-hash
    /// sentinel; an already-hashed record is left untouched.
    fn ensure_hash(&mut self)
        ensures
            final(self)@.uuid == old(self)@.uuid,
            final(self)@.timestamp == old(self)@.timestamp,
            final(self)@.entry == old(self)@.entry,
            old(self)@.hash == "rec-init"@ ==> final(self)@.hash == record_hash_of(final(self)@),
            old(self)@.hash != "rec-init"@ ==> final(self)@.hash == old(self)@.hash,
    {
        if self.hash == "rec-init".to_owned() {
            let input = self.hash_input();
            self.hash = hex_sha3(&input);
        }
    }

    /// The distinguished genesis record: zero uuid, timestamp 0, a fixed
    /// entry, and its hash derived from those fields like any other record.
    pub fn genesis_record() -> (r: Record)
        ensures
            r@.uuid == Seq::new(16, |i: int| 0u8),
            r@.timestamp == 0,
            r@.entry == genesis_entry(),
            r@.hash == record_hash_of(r@),
            record_valid(r@),
    {
        let bereshit = "בְּרֵאשִׁ֖ית בָּרָ֣א".to_owned();
        let mut r = Record {
            uuid: vec![0u8; 16],
            timestamp: 0,
            entry: bereshit,
            hash: "rec-init".to_owned(),
        };
        r.ensure_hash();
        r
    }

    /// A fully hashed record over the given payload, stamped with the
    /// current time and a fresh uuid.
    pub fn new(data: String) -> (r: Record)
        ensures
            r@.entry == data@,
            r@.uuid.len() == 16,
            r@.hash == record_hash_of(r@),
            record_valid(r@),
    {
        let now = clock::now_seconds();
        let mut r = Record {
            uuid: fresh_uuid_bytes(),
            timestamp: now,
            entry: data,
            hash: "rec-init".to_owned(),
        };
        r.ensure_hash();
        r
    }

    /// Recomputes the hash and compares: succeeds exactly when the stored
    /// hash equals the recomputed one.
    pub fn validate(&self) -> (res: Result<(), String>)
        ensures
            res is Ok <==> record_valid(self@),
    {
        let input = self.hash_input();
        let computed = hex_sha3(&input);
        if computed == self.hash {
            Ok(())
        } else {
            Err("record hash mismatch".to_owned())
        }
    }

    /// Parses the entry as a flat JSON object mapping strings to strings;
    /// fails exactly when the entry is not such an object.
    pub fn structured_entry(&self) -> (res: Result<KVRecord, String>)
        ensures
            match res {
                Ok(kv) => {
                    &&& flat_object_of(self@.entry) matches Some(m)
                    &&& kv@ == m
                    &&& kv.wf()
                },
                Err(_) => flat_object_of(self@.entry) is None,
            },
    {
        match parse_flat_object(self.entry.as_str()) {
            Ok(pairs) => Ok(KVRecord { pairs }),
            Err(e) => Err(e),
        }
    }
}

} // verus!
