//! Filling the table from a trace, and reading it back.
use rand::rngs::StdRng;
use vstd::prelude::*;

use crate::conf::Conf;
use crate::dataset::{lemma_partition_owner, load_keys, partition, trace_keys, LoadError};
use crate::entry::{law_stored_and_empty_values, same_value, GlobalEntry, EMPTY, VALUE};
use crate::feedgen::dmap::{
    get, lemma_overlay_miss, overlay, populate_range, populated_range, splice, Destination, MapRef,
    Transfer,
};
use crate::graph::{
    lemma_walks_in_parts, picks_from, walkable, walks_among, words_after_walks, GraphNode, Walks,
    TRAVERSAL_INTERVAL,
};
use crate::random::{seed_from_u64, seeded_words, uniform_u32, words_left};

verus! {

/// How often each thread reads its keys.
pub const NUM_ITERATIONS: usize = 10;

/// The seed of the walks.
pub const WALK_SEED: u64 = 1;

/// A read that did not give [`VALUE`].
#[derive(Debug, Clone, Copy)]
pub struct WrongValue {
    pub server: usize,
    pub thread: usize,
    pub key: usize,
    pub bucket: usize,
    /// The buckets `[start_bucket, end_bucket)` of the thread.
    pub start_bucket: usize,
    pub end_bucket: usize,
    /// Whether the bucket is one of them.
    pub in_range: bool,
    pub got: [u8; 8],
    pub expected: [u8; 8],
}

/// The bucket of `key` holds [`VALUE`].
pub open spec fn reads_value<F: Fn(usize) -> usize>(
    conf: &Conf<F>,
    entries: Seq<GlobalEntry>,
    key: usize,
) -> bool {
    entries[conf.bucket_of(key) as int].value == VALUE
}

/// The buckets of all of `keys` hold [`VALUE`].
pub open spec fn all_read_value<F: Fn(usize) -> usize>(
    conf: &Conf<F>,
    entries: Seq<GlobalEntry>,
    keys: Seq<usize>,
) -> bool {
    forall|i: int| 0 <= i < keys.len() ==> reads_value(conf, entries, #[trigger] keys[i])
}

/// `i` is the first of `keys` whose bucket does not hold [`VALUE`].
pub open spec fn first_wrong<F: Fn(usize) -> usize>(
    conf: &Conf<F>,
    entries: Seq<GlobalEntry>,
    keys: Seq<usize>,
    i: int,
) -> bool {
    &&& 0 <= i < keys.len()
    &&& !reads_value(conf, entries, keys[i])
    &&& forall|j: int| 0 <= j < i ==> reads_value(conf, entries, #[trigger] keys[j])
}

impl WrongValue {
    /// What a thread reports of a key.
    pub open spec fn describes<F: Fn(usize) -> usize>(
        self,
        conf: &Conf<F>,
        entries: Seq<GlobalEntry>,
        server: usize,
        thread: usize,
        key: usize,
    ) -> bool {
        &&& self.server == server
        &&& self.thread == thread
        &&& self.key == key
        &&& self.bucket == conf.bucket_of(key)
        &&& self.start_bucket == conf.range_start(server as int, thread as int)
        &&& self.end_bucket == conf.range_end(server as int, thread as int)
        &&& self.in_range == (self.start_bucket <= self.bucket < self.end_bucket)
        &&& self.got == entries[conf.bucket_of(key) as int].value
        &&& self.expected == VALUE
    }
}

/// Fills the whole table with the keys of a trace.
///
/// `place` is where the table's first bucket lives.
pub fn populate_all<F: Fn(usize) -> usize>(
    conf: &Conf<F>,
    map: &mut MapRef,
    place: Destination,
    data: &[u8],
) -> (transfer: Result<Option<Transfer>, LoadError>)
    requires
        conf.places_keys(),
        conf.bucket_num <= old(map).entries@.len(),
        old(map).fits(),
        place == Destination::Remote ==> conf.global_heap_start <= old(map).base,
    ensures
        final(map).base == old(map).base,
        match (transfer, trace_keys(data@)) {
            (Ok(transfer), Ok(keys)) => {
                let filled = populated_range(
                    keys,
                    conf.placement(),
                    0,
                    conf.bucket_num as int,
                    VALUE,
                );
                match place {
                    Destination::Local => {
                        &&& transfer is None
                        &&& final(map).entries@ == splice(old(map).entries@, 0, filled)
                    },
                    Destination::Remote => {
                        &&& final(map).entries@ == old(map).entries@
                        &&& transfer matches Some(t)
                        &&& t.entries@ == filled
                        &&& t.lands_on(conf.global_heap_start, old(map).base, 0)
                        &&& conf.global_heap_start + t.offset == old(map).base
                        &&& t.len == conf.bucket_num * vstd::layout::size_of::<GlobalEntry>()
                    },
                }
            },
            (Err(error), Err(reason)) => {
                &&& error == reason
                &&& final(map).entries@ == old(map).entries@
            },
            _ => false,
        },
{
    match load_keys(data) {
        Ok(keys) => Ok(populate_range(conf, map, place, 0, conf.bucket_num, &keys, VALUE)),
        Err(error) => Err(error),
    }
}

/// Reads every key once and walks the graph after every [`TRAVERSAL_INTERVAL`]-th read, the first
/// included, adding to `walks`. Fails at the first key that does not read [`VALUE`].
pub fn read_pass<F: Fn(usize) -> usize>(
    conf: &Conf<F>,
    map: &MapRef,
    keys: &[usize],
    server: usize,
    thread: usize,
    graph: &[GraphNode],
    rng: &mut StdRng,
    walks: &mut Walks,
) -> (checked: Result<(), WrongValue>)
    requires
        conf.places_keys(),
        conf.range_fits(server, thread),
        forall|i: int|
            0 <= i < keys@.len() ==> conf.within(#[trigger] keys@[i], map.entries@.len()),
        keys@.len() > 0 ==> graph@.len() > 0,
        forall|i: int| 0 <= i < graph@.len() ==> walkable(#[trigger] graph@[i]),
        old(walks).counts(graph@),
    ensures
        final(walks).counts(graph@),
        checked is Ok <==> (forall|i: int|
            0 <= i < keys@.len() ==> map.entries@[conf.bucket_of(#[trigger] keys@[i]) as int].value
                == VALUE),
        match checked {
            Ok(_) => {
                let more = walks_among(keys@.len() as int) as nat;
                &&& all_read_value(conf, map.entries@, keys@)
                &&& final(walks).picks@ == old(walks).picks@ + picks_from(
                    words_left(*old(rng)),
                    more,
                )
                &&& words_left(*final(rng)) == words_after_walks(words_left(*old(rng)), more)
            },
            Err(wrong) => exists|i: int|
                {
                    let more = walks_among(i) as nat;
                    &&& #[trigger] first_wrong(conf, map.entries@, keys@, i)
                    &&& wrong.describes(conf, map.entries@, server, thread, keys@[i])
                    &&& final(walks).picks@ == old(walks).picks@ + picks_from(
                        words_left(*old(rng)),
                        more,
                    )
                    &&& words_left(*final(rng)) == words_after_walks(words_left(*old(rng)), more)
                },
        },
{
    let ghost words = words_left(*rng);
    let mut op_idx: usize = 0;
    assert(walks.picks@ =~= walks.picks@ + picks_from(words, 0));
    while op_idx < keys.len()
        invariant
            op_idx <= keys@.len(),
            words == words_left(*old(rng)),
            conf.places_keys(),
            conf.range_fits(server, thread),
            forall|i: int|
                0 <= i < keys@.len() ==> conf.within(#[trigger] keys@[i], map.entries@.len()),
            keys@.len() > 0 ==> graph@.len() > 0,
            forall|i: int| 0 <= i < graph@.len() ==> walkable(#[trigger] graph@[i]),
            forall|j: int|
                0 <= j < op_idx ==> reads_value(conf, map.entries@, #[trigger] keys@[j]),
            walks.counts(graph@),
            walks.picks@ == old(walks).picks@ + picks_from(
                words,
                walks_among(op_idx as int) as nat,
            ),
            words_left(*rng) == words_after_walks(words, walks_among(op_idx as int) as nat),
        decreases keys@.len() - op_idx,
    {
        let key = keys[op_idx];
        let getv = get(conf, map, key);
        if !same_value(&getv, &VALUE) {
            let bucket = conf.bucket(key);
            let (start_bucket, end_bucket) = conf.thread_range(server, thread);
            let in_range = bucket >= start_bucket && bucket < end_bucket;
            assert(first_wrong(conf, map.entries@, keys@, op_idx as int));
            return Err(
                WrongValue {
                    server,
                    thread,
                    key,
                    bucket,
                    start_bucket,
                    end_bucket,
                    in_range,
                    got: getv,
                    expected: VALUE,
                },
            );
        }
        if op_idx % TRAVERSAL_INTERVAL == 0 {
            let ghost n = walks_among(op_idx as int) as nat;
            walks.walk(graph, rng);
            assert(walks_among(op_idx + 1) == n + 1);
            assert(picks_from(words, n + 1) =~= picks_from(words, n).push(
                uniform_u32(0, u32::MAX, words_after_walks(words, n)).0,
            ));
        }
        op_idx = op_idx + 1;
    }
    Ok(())
}

/// Reads every key [`NUM_ITERATIONS`] times, drawing the walks from `rng`. Gives the walks, or the
/// first key that did not read [`VALUE`].
pub fn read_passes<F: Fn(usize) -> usize>(
    conf: &Conf<F>,
    map: &MapRef,
    keys: &[usize],
    server: usize,
    thread: usize,
    graph: &[GraphNode],
    rng: &mut StdRng,
) -> (walks: Result<Walks, WrongValue>)
    requires
        conf.places_keys(),
        conf.range_fits(server, thread),
        forall|i: int|
            0 <= i < keys@.len() ==> conf.within(#[trigger] keys@[i], map.entries@.len()),
        keys@.len() > 0 ==> graph@.len() > 0,
        forall|i: int| 0 <= i < graph@.len() ==> walkable(#[trigger] graph@[i]),
    ensures
        walks is Ok <==> (forall|i: int|
            0 <= i < keys@.len() ==> map.entries@[conf.bucket_of(#[trigger] keys@[i]) as int].value
                == VALUE),
        walks matches Err(wrong) ==> {
            let start = server * conf.unit_bucket_num + thread * conf.unit_thread_bucket_num;
            &&& keys@.contains(wrong.key)
            &&& wrong.bucket == conf.bucket_of(wrong.key)
            &&& wrong.got == map.entries@[wrong.bucket as int].value
            &&& wrong.got != VALUE
            &&& wrong.expected == VALUE
            &&& wrong.server == server
            &&& wrong.thread == thread
            &&& wrong.start_bucket == start
            &&& wrong.end_bucket <= start + conf.unit_thread_bucket_num
            &&& wrong.end_bucket <= conf.bucket_num
            &&& wrong.end_bucket == start + conf.unit_thread_bucket_num || wrong.end_bucket
                == conf.bucket_num
            &&& wrong.in_range <==> wrong.start_bucket <= wrong.bucket < wrong.end_bucket
        },
        match walks {
            Ok(walks) => {
                let total = (NUM_ITERATIONS * walks_among(keys@.len() as int)) as nat;
                &&& all_read_value(conf, map.entries@, keys@)
                &&& walks.picks@ == picks_from(words_left(*old(rng)), total)
                &&& walks.counts(graph@)
                &&& words_left(*final(rng)) == words_after_walks(words_left(*old(rng)), total)
            },
            Err(wrong) => exists|i: int|
                {
                    &&& #[trigger] first_wrong(conf, map.entries@, keys@, i)
                    &&& wrong.describes(conf, map.entries@, server, thread, keys@[i])
                    &&& words_left(*final(rng)) == words_after_walks(
                        words_left(*old(rng)),
                        walks_among(i) as nat,
                    )
                },
        },
{
    let ghost words = words_left(*rng);
    let ghost each = walks_among(keys@.len() as int);
    let mut walks = Walks::new();
    let mut pass: usize = 0;
    assert(walks.picks@ =~= picks_from(words, 0));
    while pass < NUM_ITERATIONS
        invariant
            pass <= NUM_ITERATIONS,
            words == words_left(*old(rng)),
            each == walks_among(keys@.len() as int),
            conf.places_keys(),
            conf.range_fits(server, thread),
            forall|i: int|
                0 <= i < keys@.len() ==> conf.within(#[trigger] keys@[i], map.entries@.len()),
            keys@.len() > 0 ==> graph@.len() > 0,
            forall|i: int| 0 <= i < graph@.len() ==> walkable(#[trigger] graph@[i]),
            pass > 0 ==> all_read_value(conf, map.entries@, keys@),
            walks.counts(graph@),
            walks.picks@ == picks_from(words, (pass * each) as nat),
            words_left(*rng) == words_after_walks(words, (pass * each) as nat),
        decreases NUM_ITERATIONS - pass,
    {
        proof {
            assert((pass + 1) * each == pass * each + each) by (nonlinear_arith);
            assert(pass * each >= 0) by (nonlinear_arith)
                requires
                    each >= 0,
            ;
            lemma_walks_in_parts(words, (pass * each) as nat, each as nat);
        }
        if let Err(wrong) = read_pass(
            conf,
            map,
            keys,
            server,
            thread,
            graph,
            rng,
            &mut walks,
        ) {
            return Err(wrong);
        }
        pass = pass + 1;
    }
    Ok(walks)
}

/// Reads every key [`NUM_ITERATIONS`] times. Gives the walks, or the first key that did not read
/// [`VALUE`].
pub fn benchmark<F: Fn(usize) -> usize>(
    conf: &Conf<F>,
    map: &MapRef,
    keys: &[usize],
    server: usize,
    thread: usize,
    graph: &[GraphNode],
) -> (walks: Result<Walks, WrongValue>)
    requires
        conf.places_keys(),
        conf.range_fits(server, thread),
        forall|i: int|
            0 <= i < keys@.len() ==> conf.within(#[trigger] keys@[i], map.entries@.len()),
        keys@.len() > 0 ==> graph@.len() > 0,
        forall|i: int| 0 <= i < graph@.len() ==> walkable(#[trigger] graph@[i]),
    ensures
        walks is Ok <==> (forall|i: int|
            0 <= i < keys@.len() ==> map.entries@[conf.bucket_of(#[trigger] keys@[i]) as int].value
                == VALUE),
        walks matches Err(wrong) ==> {
            let start = server * conf.unit_bucket_num + thread * conf.unit_thread_bucket_num;
            &&& keys@.contains(wrong.key)
            &&& wrong.bucket == conf.bucket_of(wrong.key)
            &&& wrong.got == map.entries@[wrong.bucket as int].value
            &&& wrong.got != VALUE
            &&& wrong.expected == VALUE
            &&& wrong.server == server
            &&& wrong.thread == thread
            &&& wrong.start_bucket == start
            &&& wrong.end_bucket <= start + conf.unit_thread_bucket_num
            &&& wrong.end_bucket <= conf.bucket_num
            &&& wrong.end_bucket == start + conf.unit_thread_bucket_num || wrong.end_bucket
                == conf.bucket_num
            &&& wrong.in_range <==> wrong.start_bucket <= wrong.bucket < wrong.end_bucket
        },
        match walks {
            Ok(walks) => {
                &&& all_read_value(conf, map.entries@, keys@)
                &&& walks.picks@ == picks_from(
                    seeded_words(WALK_SEED),
                    (NUM_ITERATIONS * walks_among(keys@.len() as int)) as nat,
                )
                &&& walks.picks@.len() == 10 * ((keys@.len() + 31) / 32)
                &&& forall|j: int|
                    0 <= j < walks.picks@.len() ==> #[trigger] walks.picks@[j] == uniform_u32(
                        0,
                        0xffff_ffff,
                        words_after_walks(seeded_words(1), j as nat),
                    ).0
                &&& walks.counts(graph@)
            },
            Err(wrong) => exists|i: int|
                {
                    &&& #[trigger] first_wrong(conf, map.entries@, keys@, i)
                    &&& wrong.describes(conf, map.entries@, server, thread, keys@[i])
                },
        },
{
    let mut rng = seed_from_u64(WALK_SEED);
    read_passes(conf, map, keys, server, thread, graph, &mut rng)
}

/// A bucket that a key belongs to holds the value that was stored with the keys.
proof fn lemma_overlay_hit(
    before: GlobalEntry,
    keys: Seq<usize>,
    placement: spec_fn(usize) -> usize,
    key: usize,
    value: [u8; 8],
)
    requires
        keys.contains(key),
    ensures
        overlay(before, keys, placement, placement(key) as int, value).value == value,
    decreases keys.len(),
{
    let bucket = placement(key);
    if placement(keys.last()) != bucket {
        let i = choose|i: int| 0 <= i < keys.len() && keys[i] == key;
        assert(keys.drop_last()[i] == key);
        lemma_overlay_hit(before, keys.drop_last(), placement, key, value);
    }
}

/// Once the table has been filled with the keys of a trace, every thread reads [`VALUE`] for
/// every key of its partition.
pub proof fn law_populated_table_reads_value<F: Fn(usize) -> usize>(
    conf: &Conf<F>,
    before: Seq<GlobalEntry>,
    keys: Seq<usize>,
    server: int,
    thread: int,
)
    requires
        conf.bucket_num <= before.len(),
        forall|i: int|
            0 <= i < keys.len() ==> conf.bucket_of(#[trigger] keys[i]) < conf.bucket_num,
    ensures
        ({
            let filled = populated_range(
                keys,
                conf.placement(),
                0,
                conf.bucket_num as int,
                VALUE,
            );
            let after = splice(before, 0, filled);
            let mine = partition(conf, keys, server, thread);
            &&& all_read_value(conf, after, mine)
            &&& forall|i: int| !#[trigger] first_wrong(conf, after, mine, i)
        }),
{
    let filled = populated_range(keys, conf.placement(), 0, conf.bucket_num as int, VALUE);
    let after = splice(before, 0, filled);
    let mine = partition(conf, keys, server, thread);
    assert forall|i: int| 0 <= i < mine.len() implies reads_value(
        conf,
        after,
        #[trigger] mine[i],
    ) by {
        let key = mine[i];
        lemma_partition_owner(conf, keys, server, thread, key);
        lemma_overlay_hit(GlobalEntry::empty(), keys, conf.placement(), key, VALUE);
    }
}

/// A key reads right exactly where the entry of its bucket holds eight times the letter x.
pub proof fn law_reads_value<F: Fn(usize) -> usize>(
    conf: &Conf<F>,
    entries: Seq<GlobalEntry>,
    key: usize,
)
    ensures
        reads_value(conf, entries, key) <==> entries[conf.bucket_of(key) as int].value == VALUE,
        reads_value(conf, entries, key) <==> (forall|i: int|
            0 <= i < 8 ==> #[trigger] entries[conf.bucket_of(key) as int].value@[i] == 120),
{
    let value = entries[conf.bucket_of(key) as int].value;
    if forall|i: int| 0 <= i < 8 ==> #[trigger] value@[i] == 120 {
        assert(value =~= VALUE);
    }
}

/// Keys read right together exactly where each of them does. The first wrong one, where there is
/// one, is the only first one.
pub proof fn law_first_wrong<F: Fn(usize) -> usize>(
    conf: &Conf<F>,
    entries: Seq<GlobalEntry>,
    keys: Seq<usize>,
    i: int,
)
    ensures
        all_read_value(conf, entries, keys) <==> (forall|j: int|
            0 <= j < keys.len() ==> entries[conf.bucket_of(#[trigger] keys[j]) as int].value
                == VALUE),
        first_wrong(conf, entries, keys, i) <==> {
            &&& 0 <= i < keys.len()
            &&& entries[conf.bucket_of(keys[i]) as int].value != VALUE
            &&& forall|j: int|
                0 <= j < i ==> entries[conf.bucket_of(#[trigger] keys[j]) as int].value == VALUE
        },
        all_read_value(conf, entries, keys) <==> !(exists|j: int|
            #[trigger] first_wrong(conf, entries, keys, j)),
{
    assert(forall|j: int|
        0 <= j < keys.len() ==> (reads_value(conf, entries, #[trigger] keys[j])
            <==> entries[conf.bucket_of(keys[j]) as int].value == VALUE));
    if !all_read_value(conf, entries, keys) {
        lemma_some_first_wrong(conf, entries, keys, keys.len() as int);
    }
}

/// Where one of the first `n` keys reads wrong, one of them is the first to do so.
proof fn lemma_some_first_wrong<F: Fn(usize) -> usize>(
    conf: &Conf<F>,
    entries: Seq<GlobalEntry>,
    keys: Seq<usize>,
    n: int,
)
    requires
        0 <= n <= keys.len(),
        exists|j: int| 0 <= j < n && !reads_value(conf, entries, #[trigger] keys[j]),
    ensures
        exists|j: int| #[trigger] first_wrong(conf, entries, keys, j),
    decreases n,
{
    if exists|j: int| 0 <= j < n - 1 && !reads_value(conf, entries, #[trigger] keys[j]) {
        lemma_some_first_wrong(conf, entries, keys, n - 1);
    } else {
        assert(first_wrong(conf, entries, keys, n - 1));
    }
}

/// Of a table in which nothing was stored, no key reads right.
pub proof fn law_empty_table_reads_wrong<F: Fn(usize) -> usize>(
    conf: &Conf<F>,
    entries: Seq<GlobalEntry>,
    keys: Seq<usize>,
)
    requires
        keys.len() > 0,
        forall|i: int|
            0 <= i < entries.len() ==> (#[trigger] entries[i]).key == 0 && entries[i].value
                == EMPTY,
        forall|i: int| 0 <= i < keys.len() ==> conf.bucket_of(#[trigger] keys[i]) < entries.len(),
    ensures
        forall|i: int|
            0 <= i < keys.len() ==> !reads_value(conf, entries, #[trigger] keys[i]),
        !all_read_value(conf, entries, keys),
        first_wrong(conf, entries, keys, 0),
{
    law_stored_and_empty_values();
    assert(!reads_value(conf, entries, keys[0]));
}

/// Of a table that was filled with some keys, another key reads right exactly where it shares its
/// bucket with one of them.
pub proof fn law_filled_table_reads<F: Fn(usize) -> usize>(
    conf: &Conf<F>,
    before: Seq<GlobalEntry>,
    keys: Seq<usize>,
    key: usize,
)
    requires
        conf.bucket_num <= before.len(),
        conf.bucket_of(key) < conf.bucket_num,
    ensures
        ({
            let filled = populated_range(
                keys,
                conf.placement(),
                0,
                conf.bucket_num as int,
                VALUE,
            );
            reads_value(conf, splice(before, 0, filled), key) <==> exists|i: int|
                0 <= i < keys.len() && conf.bucket_of(#[trigger] keys[i]) == conf.bucket_of(key)
        }),
{
    let bucket = conf.bucket_of(key) as int;
    let placement = conf.placement();
    law_stored_and_empty_values();
    if exists|i: int| 0 <= i < keys.len() && conf.bucket_of(#[trigger] keys[i]) == bucket {
        let i = choose|i: int| 0 <= i < keys.len() && conf.bucket_of(#[trigger] keys[i]) == bucket;
        assert(keys.contains(keys[i]));
        assert(placement(keys[i]) == bucket);
        lemma_overlay_hit(GlobalEntry::empty(), keys, placement, keys[i], VALUE);
    } else {
        assert(forall|i: int|
            0 <= i < keys.len() ==> placement(#[trigger] keys[i]) == conf.bucket_of(keys[i]));
        lemma_overlay_miss(GlobalEntry::empty(), keys, placement, bucket, VALUE);
    }
}

/// A report names the thread and the key, where the key's bucket and the thread's range lie, and
/// what was read in place of what.
pub proof fn law_report<F: Fn(usize) -> usize>(
    wrong: WrongValue,
    conf: &Conf<F>,
    entries: Seq<GlobalEntry>,
    server: usize,
    thread: usize,
    key: usize,
)
    ensures
        wrong.describes(conf, entries, server, thread, key) <==> {
            let start = server * conf.unit_bucket_num + thread * conf.unit_thread_bucket_num;
            let end = start + conf.unit_thread_bucket_num;
            &&& wrong.server == server
            &&& wrong.thread == thread
            &&& wrong.key == key
            &&& wrong.bucket == conf.bucket_of(key)
            &&& wrong.start_bucket == start
            &&& wrong.end_bucket == (if end <= conf.bucket_num {
                end
            } else {
                conf.bucket_num as int
            })
            &&& wrong.in_range <==> start <= conf.bucket_of(key) < wrong.end_bucket
            &&& wrong.got == entries[conf.bucket_of(key) as int].value
            &&& wrong.expected == VALUE
        },
{
}

} // verus!
