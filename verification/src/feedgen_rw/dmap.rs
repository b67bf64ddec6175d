//! Accesses to a table in which every bucket has its own lock.
//!
//! An access names the bucket to lock. Whoever holds that bucket's lock performs the access on
//! the entry under it and then releases the lock.
use vstd::prelude::*;

use crate::conf::Conf;
use crate::entry::{GlobalEntry, EMPTY};
use crate::feedgen::dmap::allocatable;

verus! {

/// What is done to an entry while its lock is held.
#[derive(Debug, Clone, Copy)]
pub enum Op {
    Get,
    Put { key: usize, value: [u8; 8] },
}

/// One visit to a bucket.
#[derive(Debug, Clone, Copy)]
pub struct Access {
    pub bucket: usize,
    pub op: Op,
}

/// Creates tables.
pub struct KVStore;

impl KVStore {
    /// The entries of a new table of `bucket_num` buckets, each to be put under a lock of its own.
    pub fn new(bucket_num: usize) -> (store: Vec<GlobalEntry>)
        requires
            allocatable(bucket_num as nat),
        ensures
            store@ == Seq::new(bucket_num as nat, |i: int| GlobalEntry::empty()),
            store@.len() == bucket_num,
            forall|i: int|
                0 <= i < bucket_num ==> #[trigger] store@[i].key == 0 && store@[i].value == EMPTY,
    {
        crate::feedgen::dmap::KVStore::new(bucket_num)
    }
}

impl Op {
    /// The entry once the operation has been done.
    pub open spec fn entry_after(self, entry: GlobalEntry) -> GlobalEntry {
        match self {
            Op::Get => entry,
            Op::Put { key, value } => GlobalEntry { key, value },
        }
    }

    /// What the operation reads.
    pub open spec fn reads(self, entry: GlobalEntry) -> Option<[u8; 8]> {
        match self {
            Op::Get => Some(entry.value),
            Op::Put { .. } => None,
        }
    }
}

impl Access {
    /// The table once the access has been made.
    pub open spec fn table_after(self, entries: Seq<GlobalEntry>) -> Seq<GlobalEntry> {
        entries.update(self.bucket as int, self.op.entry_after(entries[self.bucket as int]))
    }

    /// Performs the access on the entry whose lock is held. Gives the value for a read.
    pub fn perform(&self, entry: &mut GlobalEntry) -> (read: Option<[u8; 8]>)
        ensures
            *final(entry) == self.op.entry_after(*old(entry)),
            read == self.op.reads(*old(entry)),
            match self.op {
                Op::Get => *final(entry) == *old(entry) && read == Some(old(entry).value),
                Op::Put { key, value } => {
                    &&& final(entry).key == key
                    &&& final(entry).value == value
                    &&& read is None
                },
            },
    {
        match self.op {
            Op::Get => Some(entry.value),
            Op::Put { key, value } => {
                entry.key = key;
                entry.value = value;
                None
            },
        }
    }
}

/// Reads the value in the bucket of `key`, whichever key was stored there.
pub fn get<F: Fn(usize) -> usize>(conf: &Conf<F>, key: usize) -> (access: Access)
    requires
        conf.places_keys(),
    ensures
        conf.placed(key),
        access == (Access { bucket: conf.bucket_of(key), op: Op::Get }),
{
    Access { bucket: conf.bucket(key), op: Op::Get }
}

/// Stores `value` in the bucket of `key`.
pub fn put<F: Fn(usize) -> usize>(conf: &Conf<F>, key: usize, value: [u8; 8]) -> (access: Access)
    requires
        conf.places_keys(),
    ensures
        conf.placed(key),
        access == (Access { bucket: conf.bucket_of(key), op: Op::Put { key, value } }),
{
    Access { bucket: conf.bucket(key), op: Op::Put { key, value } }
}

/// The table once some accesses have been made one after another.
pub open spec fn table_after_all(
    entries: Seq<GlobalEntry>,
    accesses: Seq<Access>,
) -> Seq<GlobalEntry>
    decreases accesses.len(),
{
    if accesses.len() == 0 {
        entries
    } else {
        accesses.last().table_after(table_after_all(entries, accesses.drop_last()))
    }
}

/// A read right after a write to the same bucket gives what was written, whichever keys they
/// were made for; a read never changes the table, and a write changes its own bucket only.
pub proof fn law_read_after_write(entries: Seq<GlobalEntry>, put: Access, get: Access)
    requires
        put.bucket < entries.len(),
        put.op is Put,
        get.bucket < entries.len(),
        get.op is Get,
    ensures
        get.bucket == put.bucket ==> get.op.reads(put.table_after(entries)[get.bucket as int])
            == Some(put.op->value),
        get.bucket != put.bucket ==> get.op.reads(put.table_after(entries)[get.bucket as int])
            == get.op.reads(entries[get.bucket as int]),
        get.table_after(entries) == entries,
{
}

/// Where every write stores the same value, a bucket that was written holds it, and so does one
/// that held it before, in whatever order the accesses of different threads come.
pub proof fn law_uniform_writes(
    entries: Seq<GlobalEntry>,
    accesses: Seq<Access>,
    value: [u8; 8],
    bucket: int,
)
    requires
        0 <= bucket < entries.len(),
        forall|i: int|
            0 <= i < accesses.len() ==> {
                &&& (#[trigger] accesses[i]).bucket < entries.len()
                &&& accesses[i].op is Put ==> accesses[i].op->value == value
            },
        entries[bucket].value == value || exists|i: int|
            0 <= i < accesses.len() && (#[trigger] accesses[i]).bucket == bucket
                && accesses[i].op is Put,
    ensures
        table_after_all(entries, accesses).len() == entries.len(),
        table_after_all(entries, accesses)[bucket].value == value,
    decreases accesses.len(),
{
    if accesses.len() > 0 {
        let rest = accesses.drop_last();
        let last = accesses.last();
        lemma_table_len(entries, rest);
        assert(last == accesses[accesses.len() - 1]);
        assert(forall|i: int| 0 <= i < rest.len() ==> rest[i] == #[trigger] accesses[i]);
        if !(last.bucket == bucket && last.op is Put) {
            if entries[bucket].value != value {
                let i = choose|i: int|
                    0 <= i < accesses.len() && (#[trigger] accesses[i]).bucket == bucket
                        && accesses[i].op is Put;
                assert(rest[i] == accesses[i]);
            }
            law_uniform_writes(entries, rest, value, bucket);
        }
    }
}

/// A bucket that nothing was written to is as it was.
pub proof fn lemma_unwritten_bucket(
    entries: Seq<GlobalEntry>,
    accesses: Seq<Access>,
    bucket: int,
)
    requires
        0 <= bucket < entries.len(),
        forall|i: int|
            0 <= i < accesses.len() ==> {
                &&& (#[trigger] accesses[i]).bucket < entries.len()
                &&& accesses[i].op is Put ==> accesses[i].bucket != bucket
            },
    ensures
        table_after_all(entries, accesses)[bucket] == entries[bucket],
    decreases accesses.len(),
{
    if accesses.len() > 0 {
        let rest = accesses.drop_last();
        assert(accesses.last() == accesses[accesses.len() - 1]);
        assert(forall|i: int| 0 <= i < rest.len() ==> rest[i] == #[trigger] accesses[i]);
        lemma_table_len(entries, rest);
        lemma_unwritten_bucket(entries, rest, bucket);
    }
}

/// Accesses leave the number of buckets alone.
pub proof fn lemma_table_len(entries: Seq<GlobalEntry>, accesses: Seq<Access>)
    requires
        forall|i: int|
            0 <= i < accesses.len() ==> (#[trigger] accesses[i]).bucket < entries.len(),
    ensures
        table_after_all(entries, accesses).len() == entries.len(),
    decreases accesses.len(),
{
    if accesses.len() > 0 {
        lemma_table_len(entries, accesses.drop_last());
        assert(accesses[accesses.len() - 1].bucket < entries.len());
    }
}

/// A read leaves its entry and gives the entry's value. A write leaves its own key and value,
/// whatever the entry was, and gives nothing.
pub proof fn law_operations(entry: GlobalEntry, key: usize, value: [u8; 8])
    ensures
        Op::Get.entry_after(entry) == entry,
        Op::Get.reads(entry) == Some(entry.value),
        (Op::Put { key, value }).entry_after(entry).key == key,
        (Op::Put { key, value }).entry_after(entry).value == value,
        (Op::Put { key, value }).reads(entry) is None,
{
}

/// One more access changes its own bucket, as its operation does, and no other.
pub proof fn law_one_more_access(
    entries: Seq<GlobalEntry>,
    accesses: Seq<Access>,
    access: Access,
    bucket: int,
)
    requires
        forall|i: int|
            0 <= i < accesses.len() ==> (#[trigger] accesses[i]).bucket < entries.len(),
        access.bucket < entries.len(),
        0 <= bucket < entries.len(),
    ensures
        table_after_all(entries, Seq::<Access>::empty()) == entries,
        ({
            let before = table_after_all(entries, accesses);
            let after = table_after_all(entries, accesses.push(access));
            &&& after.len() == entries.len()
            &&& bucket != access.bucket ==> after[bucket] == before[bucket]
            &&& access.op is Get ==> after[bucket] == before[bucket]
            &&& access.op is Put ==> after[access.bucket as int].key == access.op->key
            &&& access.op is Put ==> after[access.bucket as int].value == access.op->value
        }),
{
    lemma_table_len(entries, accesses);
    assert(accesses.push(access).drop_last() =~= accesses);
    assert(accesses.push(access).last() == access);
}

} // verus!
