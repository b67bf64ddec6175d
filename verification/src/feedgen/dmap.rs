//! The shared table: creation, reads, single writes and bulk writes.
use vstd::prelude::*;

use crate::conf::Conf;
use crate::entry::{GlobalEntry, EMPTY};

verus! {

/// Where an address lives, seen from the server that asks.
#[derive(Debug, Clone, Copy, PartialEq, Eq, Structural)]
pub enum Destination {
    Local,
    Remote,
}

/// A table as one server sees it: the address of its first bucket on the global heap, and the
/// buckets.
///
/// On the server that the table lives on, `entries` is the table itself. On any other server it
/// is that server's copy, and writes go out as a [`Transfer`].
#[derive(Debug)]
pub struct MapRef {
    pub base: usize,
    pub entries: Vec<GlobalEntry>,
}

/// Entries that have to be written to the global heap, `offset` bytes from its start.
#[derive(Debug)]
pub struct Transfer {
    pub offset: usize,
    pub len: usize,
    pub entries: Vec<GlobalEntry>,
}

/// The address of bucket `bucket` of a table that starts at `base`.
pub open spec fn address_of(base: usize, bucket: int) -> int {
    base + bucket * vstd::layout::size_of::<GlobalEntry>()
}

/// A vector can hold `n` entries.
pub open spec fn allocatable(n: nat) -> bool {
    n * vstd::layout::size_of::<GlobalEntry>() <= isize::MAX
}

/// What a bucket holds once the keys have been stored one after another: the last key that
/// belongs there, or `before` where none does.
pub open spec fn overlay(
    before: GlobalEntry,
    keys: Seq<usize>,
    placement: spec_fn(usize) -> usize,
    bucket: int,
    value: [u8; 8],
) -> GlobalEntry
    decreases keys.len(),
{
    if keys.len() == 0 {
        before
    } else if placement(keys.last()) == bucket {
        GlobalEntry { key: keys.last(), value }
    } else {
        overlay(before, keys.drop_last(), placement, bucket, value)
    }
}

/// A bucket that was cleared before the keys were stored.
pub open spec fn populated(
    keys: Seq<usize>,
    placement: spec_fn(usize) -> usize,
    bucket: int,
    value: [u8; 8],
) -> GlobalEntry {
    overlay(GlobalEntry::empty(), keys, placement, bucket, value)
}

/// The buckets `[start, end)` after a bulk write of `keys`.
pub open spec fn populated_range(
    keys: Seq<usize>,
    placement: spec_fn(usize) -> usize,
    start: int,
    end: int,
    value: [u8; 8],
) -> Seq<GlobalEntry> {
    Seq::new((end - start) as nat, |i: int| populated(keys, placement, start + i, value))
}

/// `contents` with `entries` written over the buckets from `at` on.
pub open spec fn splice(
    contents: Seq<GlobalEntry>,
    at: int,
    entries: Seq<GlobalEntry>,
) -> Seq<GlobalEntry> {
    Seq::new(
        contents.len(),
        |i: int|
            if at <= i < at + entries.len() {
                entries[i - at]
            } else {
                contents[i]
            },
    )
}

impl MapRef {
    /// The whole table lies in the address space.
    pub open spec fn fits(&self) -> bool {
        &&& allocatable(self.entries@.len())
        &&& address_of(self.base, self.entries@.len() as int) <= usize::MAX
    }

    /// The address of a bucket.
    pub fn bucket_addr(&self, bucket: usize) -> (addr: usize)
        requires
            self.fits(),
            bucket <= self.entries@.len(),
        ensures
            addr == address_of(self.base, bucket as int),
            addr == self.base + bucket * vstd::layout::size_of::<GlobalEntry>(),
    {
        let size = core::mem::size_of::<GlobalEntry>();
        assert(bucket * size <= self.entries@.len() * size) by (nonlinear_arith)
            requires
                bucket <= self.entries@.len(),
                size >= 0,
        ;
        self.base + bucket * size
    }
}

impl Transfer {
    /// The transfer writes to the buckets from `bucket` on of a table that starts at `base`.
    pub open spec fn lands_on(&self, heap_start: usize, base: usize, bucket: int) -> bool {
        &&& heap_start + self.offset == address_of(base, bucket)
        &&& self.len == self.entries@.len() * vstd::layout::size_of::<GlobalEntry>()
    }
}

/// Creates tables.
pub struct KVStore;

impl KVStore {
    /// A table of `bucket_num` empty buckets.
    pub fn new(bucket_num: usize) -> (store: Vec<GlobalEntry>)
        requires
            allocatable(bucket_num as nat),
        ensures
            store@ == Seq::new(bucket_num as nat, |i: int| GlobalEntry::empty()),
            store@.len() == bucket_num,
            forall|i: int|
                0 <= i < bucket_num ==> #[trigger] store@[i].key == 0 && store@[i].value == EMPTY,
    {
        let mut store: Vec<GlobalEntry> = Vec::with_capacity(bucket_num);
        let mut i: usize = 0;
        while i < bucket_num
            invariant
                i <= bucket_num,
                store@ == Seq::new(i as nat, |j: int| GlobalEntry::empty()),
            decreases bucket_num - i,
        {
            store.push(GlobalEntry { key: 0, value: EMPTY });
            i = i + 1;
        }
        store
    }
}

/// The value in the bucket of `key`, whichever key was stored there.
pub fn get<F: Fn(usize) -> usize>(conf: &Conf<F>, map: &MapRef, key: usize) -> (value: [u8; 8])
    requires
        conf.places_keys(),
        conf.within(key, map.entries@.len()),
    ensures
        conf.placed(key),
        value == map.entries@[conf.bucket_of(key) as int].value,
{
    let bucket_id = conf.bucket(key);
    map.entries[bucket_id].value
}

/// Stores `value` in the bucket of `key`.
///
/// `place` is where [`MapRef::bucket_addr`] of that bucket lives. A local bucket is written at
/// once; for a remote one the write is handed back.
pub fn put<F: Fn(usize) -> usize>(
    conf: &Conf<F>,
    map: &mut MapRef,
    place: Destination,
    key: usize,
    value: [u8; 8],
) -> (transfer: Option<Transfer>)
    requires
        conf.places_keys(),
        conf.within(key, old(map).entries@.len()),
        old(map).fits(),
        place == Destination::Remote ==> conf.global_heap_start <= old(map).base,
    ensures
        conf.placed(key),
        final(map).base == old(map).base,
        place == Destination::Local ==> {
            &&& transfer is None
            &&& final(map).entries@ == old(map).entries@.update(
                conf.bucket_of(key) as int,
                GlobalEntry { key, value },
            )
        },
        place == Destination::Remote ==> {
            &&& final(map).entries@ == old(map).entries@
            &&& transfer matches Some(t)
            &&& t.entries@ == seq![GlobalEntry { key, value }]
            &&& t.lands_on(conf.global_heap_start, old(map).base, conf.bucket_of(key) as int)
            &&& conf.global_heap_start + t.offset == old(map).base + conf.bucket_of(key)
                * vstd::layout::size_of::<GlobalEntry>()
            &&& t.len == vstd::layout::size_of::<GlobalEntry>()
            &&& conf.global_heap_start + t.offset + t.len <= old(map).base
                + old(map).entries@.len() * vstd::layout::size_of::<GlobalEntry>()
        },
{
    let bucket_id = conf.bucket(key);
    let entry_addr = map.bucket_addr(bucket_id);
    let entry = GlobalEntry { key, value };
    if place == Destination::Local {
        map.entries[bucket_id] = entry;
        None
    } else {
        assert(bucket_id * vstd::layout::size_of::<GlobalEntry>() >= 0) by (nonlinear_arith);
        proof {
            law_bucket_addresses(map.base, bucket_id as int, map.entries@.len() as int);
        }
        let mut entries: Vec<GlobalEntry> = Vec::new();
        entries.push(entry);
        assert(entries@.len() * vstd::layout::size_of::<GlobalEntry>()
            == vstd::layout::size_of::<GlobalEntry>()) by (nonlinear_arith)
            requires
                entries@.len() == 1,
        ;
        Some(
            Transfer {
                offset: entry_addr - conf.global_heap_start,
                len: core::mem::size_of::<GlobalEntry>(),
                entries,
            },
        )
    }
}

/// Stores the keys that belong to `[start_bucket, end_bucket)` into `buf`, in which the first of
/// those buckets is at index `at`.
fn set_keys<F: Fn(usize) -> usize>(
    conf: &Conf<F>,
    buf: &mut Vec<GlobalEntry>,
    at: usize,
    start_bucket: usize,
    end_bucket: usize,
    keys: &[usize],
    value: [u8; 8],
)
    requires
        conf.places_keys(),
        start_bucket <= end_bucket,
        at + (end_bucket - start_bucket) <= old(buf)@.len(),
    ensures
        final(buf)@ == splice(
            old(buf)@,
            at as int,
            Seq::new(
                (end_bucket - start_bucket) as nat,
                |i: int|
                    overlay(
                        old(buf)@[at + i],
                        keys@,
                        conf.placement(),
                        start_bucket + i,
                        value,
                    ),
            ),
        ),
{
    let ghost placement = conf.placement();
    let total = buf.len();
    let mut k: usize = 0;
    assert(keys@.take(0) =~= Seq::<usize>::empty());
    while k < keys.len()
        invariant
            conf.places_keys(),
            placement == conf.placement(),
            start_bucket <= end_bucket,
            at + (end_bucket - start_bucket) <= old(buf)@.len(),
            buf@.len() == old(buf)@.len() == total,
            k <= keys@.len(),
            forall|i: int|
                0 <= i < buf@.len() && !(at <= i < at + (end_bucket - start_bucket)) ==> buf@[i]
                    == old(buf)@[i],
            forall|i: int|
                at <= i < at + (end_bucket - start_bucket) ==> buf@[i] == overlay(
                    old(buf)@[i],
                    keys@.take(k as int),
                    placement,
                    start_bucket + (i - at),
                    value,
                ),
        decreases keys@.len() - k,
    {
        let key = keys[k];
        let b = conf.bucket(key);
        proof {
            assert(keys@.take(k + 1).drop_last() =~= keys@.take(k as int));
            assert(keys@.take(k + 1).last() == key);
        }
        if b >= start_bucket && b < end_bucket {
            buf[at + (b - start_bucket)] = GlobalEntry { key, value };
        }
        k = k + 1;
    }
    assert(keys@.take(keys@.len() as int) =~= keys@);
}

/// Bulk write of the buckets `[start_bucket, end_bucket)`: those that `keys` belong to hold the
/// last such key with `value`, all others in the range are empty.
///
/// `place` is where the address of `start_bucket` lives. On the table's home server the range is
/// written in place; elsewhere it is staged in a buffer and handed back as one transfer.
pub fn populate_range<F: Fn(usize) -> usize>(
    conf: &Conf<F>,
    map: &mut MapRef,
    place: Destination,
    start_bucket: usize,
    end_bucket: usize,
    keys: &[usize],
    value: [u8; 8],
) -> (transfer: Option<Transfer>)
    requires
        conf.places_keys(),
        start_bucket <= end_bucket <= old(map).entries@.len(),
        old(map).fits(),
        place == Destination::Remote ==> conf.global_heap_start <= old(map).base,
    ensures
        final(map).base == old(map).base,
        place == Destination::Local ==> {
            &&& transfer is None
            &&& final(map).entries@ == splice(
                old(map).entries@,
                start_bucket as int,
                populated_range(
                    keys@,
                    conf.placement(),
                    start_bucket as int,
                    end_bucket as int,
                    value,
                ),
            )
        },
        place == Destination::Remote ==> {
            &&& final(map).entries@ == old(map).entries@
            &&& transfer matches Some(t)
            &&& t.entries@ == populated_range(
                keys@,
                conf.placement(),
                start_bucket as int,
                end_bucket as int,
                value,
            )
            &&& t.lands_on(conf.global_heap_start, old(map).base, start_bucket as int)
            &&& conf.global_heap_start + t.offset == old(map).base + start_bucket
                * vstd::layout::size_of::<GlobalEntry>()
            &&& t.len == (end_bucket - start_bucket) * vstd::layout::size_of::<GlobalEntry>()
            &&& conf.global_heap_start + t.offset + t.len == old(map).base + end_bucket
                * vstd::layout::size_of::<GlobalEntry>()
        },
{
    let n = end_bucket - start_bucket;
    let dst_addr = map.bucket_addr(start_bucket);
    if place == Destination::Local {
        let ghost before = map.entries@;
        let mut i: usize = start_bucket;
        while i < end_bucket
            invariant
                start_bucket <= i <= end_bucket <= map.entries@.len(),
                map.base == old(map).base,
                map.entries@.len() == before.len(),
                forall|j: int|
                    0 <= j < before.len() ==> #[trigger] map.entries@[j] == (if start_bucket <= j
                        < i {
                        GlobalEntry::empty()
                    } else {
                        before[j]
                    }),
            decreases end_bucket - i,
        {
            map.entries[i] = GlobalEntry { key: 0, value: EMPTY };
            i = i + 1;
        }
        set_keys(conf, &mut map.entries, start_bucket, start_bucket, end_bucket, keys, value);
        return None;
    }
    let size = core::mem::size_of::<GlobalEntry>();
    proof {
        let total = old(map).entries@.len();
        assert(start_bucket * size >= 0) by (nonlinear_arith);
        assert(n * size <= total * size) by (nonlinear_arith)
            requires
                n <= total,
                size >= 0,
        ;
        assert(start_bucket * size + n * size == end_bucket * size) by (nonlinear_arith)
            requires
                start_bucket + n == end_bucket,
        ;
    }
    let mut buf = KVStore::new(n);
    set_keys(conf, &mut buf, 0, start_bucket, end_bucket, keys, value);
    Some(Transfer { offset: dst_addr - conf.global_heap_start, len: n * size, entries: buf })
}

/// A bucket that no key belongs to is as it was.
pub proof fn lemma_overlay_miss(
    before: GlobalEntry,
    keys: Seq<usize>,
    placement: spec_fn(usize) -> usize,
    bucket: int,
    value: [u8; 8],
)
    requires
        forall|i: int| 0 <= i < keys.len() ==> placement(#[trigger] keys[i]) != bucket,
    ensures
        overlay(before, keys, placement, bucket, value) == before,
    decreases keys.len(),
{
    if keys.len() > 0 {
        let rest = keys.drop_last();
        assert(keys.last() == keys[keys.len() - 1]);
        assert(forall|i: int| 0 <= i < rest.len() ==> #[trigger] rest[i] == keys[i]);
        lemma_overlay_miss(before, rest, placement, bucket, value);
    }
}

/// Storing the same keys again changes nothing.
pub proof fn lemma_overlay_twice(
    before: GlobalEntry,
    keys: Seq<usize>,
    placement: spec_fn(usize) -> usize,
    bucket: int,
    value: [u8; 8],
)
    ensures
        overlay(overlay(before, keys, placement, bucket, value), keys, placement, bucket, value)
            == overlay(before, keys, placement, bucket, value),
    decreases keys.len(),
{
    if keys.len() > 0 {
        lemma_overlay_twice(before, keys.drop_last(), placement, bucket, value);
    }
}

/// A read right after a write gives what was written to every key of that bucket, and what was
/// there before to every other key.
pub proof fn law_get_after_put<F: Fn(usize) -> usize>(
    conf: &Conf<F>,
    entries: Seq<GlobalEntry>,
    key: usize,
    value: [u8; 8],
    other: usize,
)
    requires
        conf.bucket_of(key) < entries.len(),
        conf.bucket_of(other) < entries.len(),
    ensures
        ({
            let after = entries.update(
                conf.bucket_of(key) as int,
                GlobalEntry { key, value },
            );
            &&& after[conf.bucket_of(key) as int].value == value
            &&& after[conf.bucket_of(other) as int].value == (if conf.bucket_of(other)
                == conf.bucket_of(key) {
                value
            } else {
                entries[conf.bucket_of(other) as int].value
            })
        }),
{
}

/// A remote write, carried out where it lands, leaves the table as a local one would.
pub proof fn law_remote_put_is_local_put(
    entries: Seq<GlobalEntry>,
    transfer: Transfer,
    bucket: int,
    entry: GlobalEntry,
)
    requires
        0 <= bucket < entries.len(),
        transfer.entries@ == seq![entry],
    ensures
        splice(entries, bucket, transfer.entries@) == entries.update(bucket, entry),
{
    assert(splice(entries, bucket, transfer.entries@) =~= entries.update(bucket, entry));
}

/// A remote bulk write, carried out where it lands, leaves the table as a local one would.
pub proof fn law_remote_populate_is_local_populate(
    entries: Seq<GlobalEntry>,
    transfer: Transfer,
    keys: Seq<usize>,
    placement: spec_fn(usize) -> usize,
    start: int,
    end: int,
    value: [u8; 8],
)
    requires
        0 <= start <= end <= entries.len(),
        transfer.entries@ == populated_range(keys, placement, start, end, value),
    ensures
        forall|i: int|
            0 <= i < entries.len() ==> #[trigger] splice(entries, start, transfer.entries@)[i] == (
            if start <= i < end {
                populated(keys, placement, i, value)
            } else {
                entries[i]
            }),
{
}

/// A transfer that lands on a bucket covers exactly the bytes of as many buckets as it has
/// entries: each entry goes to the address of its own bucket, and the last byte is the last of
/// the last bucket.
pub proof fn law_transfer_covers_buckets(
    transfer: Transfer,
    heap_start: usize,
    base: usize,
    bucket: int,
    i: int,
)
    requires
        transfer.lands_on(heap_start, base, bucket),
        0 <= i <= transfer.entries@.len(),
    ensures
        heap_start + transfer.offset + i * vstd::layout::size_of::<GlobalEntry>() == address_of(
            base,
            bucket + i,
        ),
        heap_start + transfer.offset + transfer.len == address_of(
            base,
            bucket + transfer.entries@.len(),
        ),
{
    let size = vstd::layout::size_of::<GlobalEntry>() as int;
    let n = transfer.entries@.len() as int;
    vstd::arithmetic::mul::lemma_mul_is_distributive_add_other_way(size, bucket, i);
    vstd::arithmetic::mul::lemma_mul_is_distributive_add_other_way(size, bucket, n);
}

/// Two neighbouring bulk writes of the same keys are one bulk write of both ranges.
pub proof fn law_populate_in_parts(
    entries: Seq<GlobalEntry>,
    keys: Seq<usize>,
    placement: spec_fn(usize) -> usize,
    start: int,
    middle: int,
    end: int,
    value: [u8; 8],
)
    requires
        0 <= start <= middle <= end <= entries.len(),
    ensures
        splice(
            splice(entries, start, populated_range(keys, placement, start, middle, value)),
            middle,
            populated_range(keys, placement, middle, end, value),
        ) == splice(entries, start, populated_range(keys, placement, start, end, value)),
{
    assert(splice(
        splice(entries, start, populated_range(keys, placement, start, middle, value)),
        middle,
        populated_range(keys, placement, middle, end, value),
    ) =~= splice(entries, start, populated_range(keys, placement, start, end, value)));
}

/// A bulk write leaves nothing of what its range held before.
pub proof fn law_populate_replaces(
    first: Seq<GlobalEntry>,
    second: Seq<GlobalEntry>,
    keys: Seq<usize>,
    placement: spec_fn(usize) -> usize,
    start: int,
    end: int,
    value: [u8; 8],
)
    requires
        0 <= start <= end <= first.len(),
        first.len() == second.len(),
        forall|i: int| 0 <= i < first.len() && !(start <= i < end) ==> first[i] == second[i],
    ensures
        splice(first, start, populated_range(keys, placement, start, end, value)) == splice(
            second,
            start,
            populated_range(keys, placement, start, end, value),
        ),
{
    assert(splice(first, start, populated_range(keys, placement, start, end, value)) =~= splice(
        second,
        start,
        populated_range(keys, placement, start, end, value),
    ));
}

/// The entry that a bulk write leaves in a bucket: where keys belong there, the last of them
/// with the value; where none does, the empty entry.
pub proof fn law_populated_bucket(
    keys: Seq<usize>,
    placement: spec_fn(usize) -> usize,
    bucket: int,
    value: [u8; 8],
)
    ensures
        forall|i: int|
            0 <= i < keys.len() && placement(#[trigger] keys[i]) == bucket && (forall|j: int|
                i < j < keys.len() ==> placement(#[trigger] keys[j]) != bucket) ==> populated(
                keys,
                placement,
                bucket,
                value,
            ) == (GlobalEntry { key: keys[i], value }),
        (forall|i: int| 0 <= i < keys.len() ==> placement(#[trigger] keys[i]) != bucket)
            ==> populated(keys, placement, bucket, value) == GlobalEntry::empty(),
    decreases keys.len(),
{
    if keys.len() > 0 {
        let rest = keys.drop_last();
        law_populated_bucket(rest, placement, bucket, value);
        assert(forall|i: int| 0 <= i < rest.len() ==> #[trigger] rest[i] == keys[i]);
        assert(keys.last() == keys[keys.len() - 1]);
        if placement(keys.last()) != bucket {
            assert forall|i: int|
                0 <= i < keys.len() && placement(#[trigger] keys[i]) == bucket && (forall|j: int|
                    i < j < keys.len() ==> placement(#[trigger] keys[j]) != bucket)
                implies populated(keys, placement, bucket, value) == (GlobalEntry {
                key: keys[i],
                value,
            }) by {
                assert(rest[i] == keys[i]);
                assert(forall|j: int|
                    i < j < rest.len() ==> placement(#[trigger] rest[j]) == placement(keys[j]));
            }
            if forall|i: int| 0 <= i < keys.len() ==> placement(#[trigger] keys[i]) != bucket {
                assert(forall|i: int|
                    0 <= i < rest.len() ==> placement(#[trigger] rest[i]) == placement(keys[i]));
            }
        }
    }
}

/// The first bucket of a table lies where the table starts, and each bucket one entry after the
/// one before it. So the buckets lie side by side, in order, up to the end of the table.
pub proof fn law_bucket_addresses(base: usize, bucket: int, total: int)
    ensures
        address_of(base, 0) == base,
        address_of(base, bucket + 1) == address_of(base, bucket) + vstd::layout::size_of::<
            GlobalEntry,
        >(),
        bucket < total ==> address_of(base, bucket) + vstd::layout::size_of::<GlobalEntry>()
            <= address_of(base, total),
        address_of(base, total) == base + total * vstd::layout::size_of::<GlobalEntry>(),
{
    let size = vstd::layout::size_of::<GlobalEntry>() as int;
    assert((bucket + 1) * size == bucket * size + size) by (nonlinear_arith);
    assert(0 * size == 0);
    if bucket < total {
        assert((bucket + 1) * size <= total * size) by (nonlinear_arith)
            requires
                bucket < total,
                size >= 0,
        ;
    }
}

/// Moving a table moves all of its buckets by as much.
pub proof fn law_addresses_move_with_base(base: usize, other: usize, bucket: int)
    ensures
        address_of(other, bucket) - address_of(base, bucket) == other - base,
{
}

/// A table fits where as many entries as it has can be allocated and its end can be addressed.
pub proof fn law_fits(map: MapRef, n: nat)
    ensures
        allocatable(n) <==> n * vstd::layout::size_of::<GlobalEntry>() <= isize::MAX,
        map.fits() <==> {
            &&& map.entries@.len() * vstd::layout::size_of::<GlobalEntry>() <= isize::MAX
            &&& map.base + map.entries@.len() * vstd::layout::size_of::<GlobalEntry>() <= usize::MAX
        },
{
}

/// A transfer lands on a bucket where it starts at the bucket's address and is as long as its
/// entries are together.
pub proof fn law_lands_on(transfer: Transfer, heap_start: usize, base: usize, bucket: int)
    ensures
        transfer.lands_on(heap_start, base, bucket) <==> {
            &&& heap_start + transfer.offset == base + bucket * vstd::layout::size_of::<
                GlobalEntry,
            >()
            &&& transfer.len == transfer.entries@.len() * vstd::layout::size_of::<GlobalEntry>()
        },
{
}

/// Storing keys one after another: each key takes its own bucket over and leaves every other
/// alone, and storing no keys changes nothing.
pub proof fn law_store_one_more(
    before: GlobalEntry,
    keys: Seq<usize>,
    key: usize,
    placement: spec_fn(usize) -> usize,
    bucket: int,
    value: [u8; 8],
)
    ensures
        overlay(before, Seq::<usize>::empty(), placement, bucket, value) == before,
        placement(key) == bucket ==> overlay(
            before,
            keys.push(key),
            placement,
            bucket,
            value,
        ).key == key,
        placement(key) == bucket ==> overlay(
            before,
            keys.push(key),
            placement,
            bucket,
            value,
        ).value == value,
        placement(key) != bucket ==> overlay(before, keys.push(key), placement, bucket, value)
            == overlay(before, keys, placement, bucket, value),
{
    assert(keys.push(key).drop_last() =~= keys);
    assert(keys.push(key).last() == key);
}

/// Writing entries over a table keeps its length; the entries stand from the first bucket written
/// on, one in each, and all other buckets are as they were.
pub proof fn law_splice(
    contents: Seq<GlobalEntry>,
    at: int,
    entries: Seq<GlobalEntry>,
    i: int,
    bucket: int,
)
    requires
        0 <= at,
        at + entries.len() <= contents.len(),
        0 <= i < entries.len(),
        0 <= bucket < contents.len(),
        bucket < at || at + entries.len() <= bucket,
    ensures
        splice(contents, at, entries).len() == contents.len(),
        splice(contents, at, entries)[at + i] == entries[i],
        splice(contents, at, entries)[bucket] == contents[bucket],
{
}

/// What a bulk write does to one bucket of a table, by where `hash` sends the keys. Outside the
/// range nothing changes. Inside it, a bucket holds the last key that belongs there, with the
/// value; where no key does, key and value are zero. What is staged for a remote table is the same
/// part of it.
pub proof fn law_bulk_write<F: Fn(usize) -> usize>(
    conf: &Conf<F>,
    entries: Seq<GlobalEntry>,
    keys: Seq<usize>,
    start: int,
    end: int,
    value: [u8; 8],
    bucket: int,
    last: int,
)
    requires
        0 <= start <= end <= entries.len(),
        0 <= bucket < entries.len(),
    ensures
        ({
            let staged = populated_range(keys, conf.placement(), start, end, value);
            let after = splice(entries, start, staged);
            &&& staged.len() == end - start
            &&& after.len() == entries.len()
            &&& !(start <= bucket < end) ==> after[bucket] == entries[bucket]
            &&& start <= bucket < end ==> after[bucket] == staged[bucket - start]
            &&& start <= bucket < end && (forall|i: int|
                0 <= i < keys.len() ==> conf.bucket_of(#[trigger] keys[i]) != bucket)
                ==> after[bucket].key == 0 && after[bucket].value == EMPTY
            &&& start <= bucket < end && 0 <= last < keys.len() && conf.bucket_of(keys[last])
                == bucket && (forall|j: int|
                last < j < keys.len() ==> conf.bucket_of(#[trigger] keys[j]) != bucket)
                ==> after[bucket].key == keys[last] && after[bucket].value == value
        }),
{
    let placement = conf.placement();
    let staged = populated_range(keys, placement, start, end, value);
    if start <= bucket < end {
        assert(staged[bucket - start] == populated(keys, placement, bucket, value));
        lemma_populated_bucket(conf, keys, bucket, value, last);
    }
}

/// The entry that a bulk write leaves in a bucket, by where `hash` sends the keys.
proof fn lemma_populated_bucket<F: Fn(usize) -> usize>(
    conf: &Conf<F>,
    keys: Seq<usize>,
    bucket: int,
    value: [u8; 8],
    last: int,
)
    ensures
        (forall|i: int| 0 <= i < keys.len() ==> conf.bucket_of(#[trigger] keys[i]) != bucket)
            ==> populated(keys, conf.placement(), bucket, value) == GlobalEntry::empty(),
        0 <= last < keys.len() && conf.bucket_of(keys[last]) == bucket && (forall|j: int|
            last < j < keys.len() ==> conf.bucket_of(#[trigger] keys[j]) != bucket) ==> populated(
            keys,
            conf.placement(),
            bucket,
            value,
        ) == (GlobalEntry { key: keys[last], value }),
    decreases keys.len(),
{
    let placement = conf.placement();
    if keys.len() > 0 {
        let rest = keys.drop_last();
        assert(keys.last() == keys[keys.len() - 1]);
        assert(placement(keys.last()) == conf.bucket_of(keys[keys.len() - 1]));
        assert(forall|i: int| 0 <= i < rest.len() ==> #[trigger] rest[i] == keys[i]);
        lemma_populated_bucket(conf, rest, bucket, value, last);
    }
}

} // verus!
