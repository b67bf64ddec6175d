//! Filling the table from a trace, and the mix of reads and writes on it.
use rand::rngs::StdRng;
use vstd::prelude::*;

use crate::conf::Conf;
use crate::dataset::{lemma_partition_owner, load_partition_keys, partition, trace_keys, LoadError};
use crate::entry::{same_value, GlobalEntry, VALUE};
use crate::feedgen::dmap::{lemma_overlay_miss, lemma_overlay_twice, overlay};
use crate::feedgen_rw::dmap::{
    get, law_uniform_writes, lemma_table_len, lemma_unwritten_bucket, put, table_after_all, Access,
    Op,
};
use crate::graph::{
    marks, picked, walk, walkable, walks_among, words_after_walks, GraphNode, GRAPH_HOPS,
    TRAVERSAL_INTERVAL,
};
use crate::random::{
    sample_i32, seed_from_u64, seeded_words, skip_words, uniform_i32, uniform_u32,
    words_left,
};
use crate::schedule::law_partitions_share_no_bucket;

verus! {

/// The seed of the walks.
pub const WALK_SEED: u64 = 1;

/// The seed of the choice between reads and writes.
pub const MIX_SEED: u64 = 2;

/// The operations that a read ratio counts in.
pub const MIX_TOTAL: i32 = 10;

/// A read that did not give [`VALUE`].
#[derive(Debug, Clone, Copy, PartialEq, Eq, Structural)]
pub struct WrongValue;

/// The write of [`VALUE`] for a key.
pub open spec fn value_put<F: Fn(usize) -> usize>(conf: &Conf<F>, key: usize) -> Access {
    Access { bucket: conf.bucket_of(key), op: Op::Put { key, value: VALUE } }
}

/// The access for a key, given the number that was drawn for it.
pub open spec fn access_for<F: Fn(usize) -> usize>(
    conf: &Conf<F>,
    key: usize,
    drawn: i32,
) -> Access {
    if drawn < conf.read_ratio {
        Access { bucket: conf.bucket_of(key), op: Op::Get }
    } else {
        value_put(conf, key)
    }
}

/// The writes of [`VALUE`] for some keys, in order.
pub open spec fn fills<F: Fn(usize) -> usize>(conf: &Conf<F>, keys: Seq<usize>) -> Seq<Access> {
    Seq::new(keys.len(), |i: int| value_put(conf, keys[i]))
}

/// The writes with which one thread fills its part of the table, in order.
pub fn populate<F: Fn(usize) -> usize>(
    conf: &Conf<F>,
    data: &[u8],
    server: usize,
    thread: usize,
) -> (writes: Result<Vec<Access>, LoadError>)
    requires
        conf.places_keys(),
        conf.has_units(),
    ensures
        match (writes, trace_keys(data@)) {
            (Ok(writes), Ok(all)) => {
                let keys = partition(conf, all, server as int, thread as int);
                &&& writes@ == fills(conf, keys)
                &&& writes@.len() == keys.len()
                &&& forall|i: int|
                    #![trigger writes@[i]]
                    0 <= i < keys.len() ==> writes@[i].bucket == conf.bucket_of(keys[i])
                        && writes@[i].op == (Op::Put { key: keys[i], value: VALUE })
            },
            (Err(error), Err(reason)) => error == reason,
            _ => false,
        },
{
    let keys = match load_partition_keys(conf, data, server, thread) {
        Ok(keys) => keys,
        Err(error) => {
            return Err(error);
        },
    };
    let mut writes: Vec<Access> = Vec::with_capacity(keys.len());
    let mut i: usize = 0;
    while i < keys.len()
        invariant
            i <= keys@.len(),
            conf.places_keys(),
            writes@ == fills(conf, keys@.take(i as int)),
        decreases keys@.len() - i,
    {
        writes.push(put(conf, keys[i], VALUE));
        i = i + 1;
    }
    assert(keys@.take(keys@.len() as int) =~= keys@);
    Ok(writes)
}

/// Chooses the access for a key, given the number that was drawn for it.
pub fn choose_access<F: Fn(usize) -> usize>(conf: &Conf<F>, key: usize, drawn: i32) -> (access:
    Access)
    requires
        conf.places_keys(),
    ensures
        access == access_for(conf, key, drawn),
        access.bucket == conf.bucket_of(key),
        access.op is Get <==> drawn < conf.read_ratio,
        access.op is Put ==> access.op == (Op::Put { key, value: VALUE }),
{
    if drawn < conf.read_ratio {
        get(conf, key)
    } else {
        put(conf, key, VALUE)
    }
}

/// One thread's run over its keys: it hands out one access after another and takes back what
/// each of them read.
pub struct Session {
    keys: Vec<usize>,
    op_idx: usize,
    pending: Option<Access>,
    rng: StdRng,
    wr_rng: StdRng,
}

/// A [`Session`] as a mathematical value.
pub struct SessionView {
    /// The keys of the run.
    pub keys: Seq<usize>,
    /// How many of them are done.
    pub done: nat,
    /// The access that was handed out and not taken back.
    pub pending: Option<Access>,
    /// The words left for the walks.
    pub walk_words: Map<nat, u32>,
    /// The words left for the choice between reads and writes.
    pub mix_words: Map<nat, u32>,
}

impl View for Session {
    type V = SessionView;

    closed spec fn view(&self) -> SessionView {
        SessionView {
            keys: self.keys@,
            done: self.op_idx as nat,
            pending: self.pending,
            walk_words: words_left(self.rng),
            mix_words: words_left(self.wr_rng),
        }
    }
}

impl SessionView {
    /// A session that has not begun.
    pub open spec fn start(keys: Seq<usize>) -> SessionView {
        SessionView {
            keys,
            done: 0,
            pending: None,
            walk_words: seeded_words(WALK_SEED),
            mix_words: seeded_words(MIX_SEED),
        }
    }

    /// An access is out for a key that is not done.
    pub open spec fn wf(self) -> bool {
        &&& self.done <= self.keys.len()
        &&& self.pending is Some ==> self.done < self.keys.len()
    }

    /// The number that is drawn next for the choice between a read and a write.
    pub open spec fn draw(self) -> i32 {
        uniform_i32(0, MIX_TOTAL, self.mix_words).0
    }

    /// A walk follows the access that is next or out.
    pub open spec fn walk_is_due(self) -> bool {
        self.done % TRAVERSAL_INTERVAL as nat == 0
    }

    /// The number that is drawn next to pick the node of a walk.
    pub open spec fn pick(self) -> u32 {
        uniform_u32(0, u32::MAX, self.walk_words).0
    }

    /// The session once it has handed out its next access.
    pub open spec fn handed_out<F: Fn(usize) -> usize>(self, conf: &Conf<F>) -> SessionView {
        SessionView {
            pending: Some(access_for(conf, self.keys[self.done as int], self.draw())),
            mix_words: skip_words(self.mix_words, uniform_i32(0, MIX_TOTAL, self.mix_words).1),
            ..self
        }
    }

    /// The session once the access that is out has been taken back.
    pub open spec fn taken_back(self) -> SessionView {
        SessionView {
            done: self.done + 1,
            pending: None,
            walk_words: if self.walk_is_due() {
                skip_words(self.walk_words, uniform_u32(0, u32::MAX, self.walk_words).1)
            } else {
                self.walk_words
            },
            ..self
        }
    }

    /// The session once it has handed out and taken back `n` more accesses.
    pub open spec fn after_ops<F: Fn(usize) -> usize>(self, conf: &Conf<F>, n: nat) -> SessionView
        decreases n,
    {
        if n == 0 {
            self
        } else {
            self.after_ops(conf, (n - 1) as nat).handed_out(conf).taken_back()
        }
    }
}

/// The words that are left once `n` choices between a read and a write have been drawn.
pub open spec fn words_after_choices(words: Map<nat, u32>, n: nat) -> Map<nat, u32>
    decreases n,
{
    if n == 0 {
        words
    } else {
        let left = words_after_choices(words, (n - 1) as nat);
        skip_words(left, uniform_i32(0, MIX_TOTAL, left).1)
    }
}

impl Session {
    /// A run over `keys` that has not begun.
    pub fn new(keys: Vec<usize>) -> (session: Session)
        ensures
            session@.wf(),
            session@ == SessionView::start(keys@),
            session@.keys == keys@,
            session@.done == 0,
            session@.pending is None,
            session@.walk_words == seeded_words(1),
            session@.mix_words == seeded_words(2),
    {
        Session {
            keys,
            op_idx: 0,
            pending: None,
            rng: seed_from_u64(WALK_SEED),
            wr_rng: seed_from_u64(MIX_SEED),
        }
    }

    /// Whether an access is out.
    pub fn is_pending(&self) -> (pending: bool)
        ensures
            pending == (self@.pending is Some),
    {
        self.pending.is_some()
    }

    /// The next access to make, or nothing once all keys are done.
    pub fn next_access<F: Fn(usize) -> usize>(&mut self, conf: &Conf<F>) -> (access: Option<
        Access,
    >)
        requires
            conf.places_keys(),
            old(self)@.wf(),
            old(self)@.pending is None,
        ensures
            final(self)@.wf(),
            access == final(self)@.pending,
            final(self)@ == (if old(self)@.done < old(self)@.keys.len() {
                old(self)@.handed_out(conf)
            } else {
                old(self)@
            }),
            access is Some ==> 0 <= old(self)@.draw() < MIX_TOTAL,
            access is Some <==> old(self)@.done < old(self)@.keys.len(),
            access matches Some(access) ==> {
                let key = old(self)@.keys[old(self)@.done as int];
                let drawn = uniform_i32(0, 10, old(self)@.mix_words);
                &&& access.bucket == conf.bucket_of(key)
                &&& access.op is Get <==> drawn.0 < conf.read_ratio
                &&& access.op is Put ==> access.op == (Op::Put { key, value: VALUE })
                &&& final(self)@.mix_words == skip_words(old(self)@.mix_words, drawn.1)
            },
            access is None ==> final(self)@.mix_words == old(self)@.mix_words,
            final(self)@.keys == old(self)@.keys,
            final(self)@.done == old(self)@.done,
            final(self)@.walk_words == old(self)@.walk_words,
    {
        if self.op_idx == self.keys.len() {
            return None;
        }
        let key = self.keys[self.op_idx];
        let r = sample_i32(0, MIX_TOTAL, &mut self.wr_rng);
        let access = choose_access(conf, key, r);
        self.pending = Some(access);
        Some(access)
    }

    /// Takes back the access that is out, with what it read, and walks the graph if a walk is
    /// due. Gives the positions that the walk passed. Fails, with nothing changed, where the read
    /// did not give [`VALUE`].
    pub fn complete(&mut self, graph: &[GraphNode], read: Option<[u8; 8]>) -> (visited: Result<
        Option<[u8; GRAPH_HOPS]>,
        WrongValue,
    >)
        requires
            old(self)@.wf(),
            old(self)@.pending is Some,
            read is Some <==> old(self)@.pending->0.op is Get,
            graph@.len() > 0,
            forall|i: int| 0 <= i < graph@.len() ==> walkable(#[trigger] graph@[i]),
        ensures
            final(self)@.wf(),
            visited is Err <==> (read is Some && read->0 != VALUE),
            match visited {
                Ok(visited) => {
                    &&& final(self)@ == old(self)@.taken_back()
                    &&& visited is Some <==> old(self)@.walk_is_due()
                    &&& visited matches Some(visited) ==> marks(
                        picked(graph@, old(self)@.pick()),
                        visited,
                    )
                },
                Err(_) => final(self)@ == old(self)@,
            },
            final(self)@.keys == old(self)@.keys,
            final(self)@.mix_words == old(self)@.mix_words,
            visited matches Ok(visited) ==> {
                let drawn = uniform_u32(0, 0xffff_ffff, old(self)@.walk_words);
                &&& final(self)@.done == old(self)@.done + 1
                &&& final(self)@.pending is None
                &&& visited is Some <==> old(self)@.done % 32 == 0
                &&& visited matches Some(visited) ==> marks(picked(graph@, drawn.0), visited)
                &&& final(self)@.walk_words == (if old(self)@.done % 32 == 0 {
                    skip_words(old(self)@.walk_words, drawn.1)
                } else {
                    old(self)@.walk_words
                })
            },
    {
        if let Some(getv) = read {
            if !same_value(&getv, &VALUE) {
                return Err(WrongValue);
            }
        }
        let visited = if self.op_idx % TRAVERSAL_INTERVAL == 0 {
            Some(walk(graph, &mut self.rng).1)
        } else {
            None
        };
        assert(self.op_idx < self.keys.len());
        self.op_idx = self.op_idx + 1;
        self.pending = None;
        Ok(visited)
    }
}

/// A session goes through its keys in order, one access each. The choice for each key is the next
/// that its seed gives, and walks are as frequent as in the read-only benchmark.
pub proof fn law_session_follows_keys<F: Fn(usize) -> usize>(
    conf: &Conf<F>,
    keys: Seq<usize>,
    n: nat,
)
    requires
        n <= keys.len(),
    ensures
        ({
            let session = SessionView::start(keys).after_ops(conf, n);
            let mix_words = words_after_choices(seeded_words(MIX_SEED), n);
            &&& session.wf()
            &&& session.keys == keys
            &&& session.done == n
            &&& session.pending is None
            &&& session.mix_words == mix_words
            &&& session.walk_words == words_after_walks(
                seeded_words(WALK_SEED),
                walks_among(n as int) as nat,
            )
            &&& n < keys.len() ==> session.handed_out(conf).pending == Some(
                access_for(conf, keys[n as int], uniform_i32(0, MIX_TOTAL, mix_words).0),
            )
        }),
    decreases n,
{
    if n > 0 {
        law_session_follows_keys(conf, keys, (n - 1) as nat);
        let k = n - 1;
        if k % TRAVERSAL_INTERVAL as int == 0 {
            assert(walks_among(n as int) == walks_among(k) + 1);
        } else {
            assert(walks_among(n as int) == walks_among(k));
        }
    }
}

/// With a read ratio of ten or more nothing is written, and with one of zero or less nothing is
/// read.
pub proof fn law_extreme_ratios<F: Fn(usize) -> usize>(conf: &Conf<F>, key: usize, drawn: i32)
    requires
        0 <= drawn < MIX_TOTAL,
    ensures
        conf.read_ratio >= MIX_TOTAL ==> access_for(conf, key, drawn).op is Get,
        conf.read_ratio <= 0 ==> access_for(conf, key, drawn) == value_put(conf, key),
{
}

/// `access` is one that filling the table or a session makes.
pub open spec fn is_ours<F: Fn(usize) -> usize>(conf: &Conf<F>, access: Access) -> bool {
    ||| exists|key: usize| access == #[trigger] value_put(conf, key)
    ||| exists|key: usize, drawn: i32| access == #[trigger] access_for(conf, key, drawn)
}

/// After all threads have filled the table, every read for one of their keys gives [`VALUE`], in
/// whatever order the writes came and whatever accesses any session has made since.
pub proof fn law_mixed_run_reads_value<F: Fn(usize) -> usize>(
    conf: &Conf<F>,
    entries: Seq<GlobalEntry>,
    filled: Seq<Access>,
    mixed: Seq<Access>,
    key: usize,
)
    requires
        filled.contains(value_put(conf, key)),
        forall|i: int|
            0 <= i < filled.len() ==> (#[trigger] filled[i]).bucket < entries.len() && is_ours(
                conf,
                filled[i],
            ),
        forall|i: int|
            0 <= i < mixed.len() ==> (#[trigger] mixed[i]).bucket < entries.len() && is_ours(
                conf,
                mixed[i],
            ),
    ensures
        Op::Get.reads(
            table_after_all(table_after_all(entries, filled), mixed)[conf.bucket_of(key) as int],
        ) == Some(VALUE),
{
    let bucket = conf.bucket_of(key) as int;
    let at = choose|i: int| 0 <= i < filled.len() && filled[i] == value_put(conf, key);
    assert(filled[at].bucket == bucket && filled[at].op is Put);
    law_uniform_writes(entries, filled, VALUE, bucket);
    law_uniform_writes(table_after_all(entries, filled), mixed, VALUE, bucket);
}

/// Filling a table leaves in every bucket the last key that belongs there, with [`VALUE`], and
/// every other bucket as it was.
pub proof fn law_fills_overlay<F: Fn(usize) -> usize>(
    conf: &Conf<F>,
    entries: Seq<GlobalEntry>,
    keys: Seq<usize>,
)
    requires
        forall|i: int|
            0 <= i < keys.len() ==> conf.bucket_of(#[trigger] keys[i]) < entries.len(),
    ensures
        table_after_all(entries, fills(conf, keys)).len() == entries.len(),
        forall|b: int|
            0 <= b < entries.len() ==> #[trigger] table_after_all(entries, fills(conf, keys))[b]
                == overlay(entries[b], keys, conf.placement(), b, VALUE),
    decreases keys.len(),
{
    if keys.len() > 0 {
        let rest = keys.drop_last();
        assert(forall|i: int| 0 <= i < rest.len() ==> rest[i] == #[trigger] keys[i]);
        assert(fills(conf, keys).drop_last() =~= fills(conf, rest));
        assert(fills(conf, keys).last() == value_put(conf, keys.last()));
        assert(conf.bucket_of(keys[keys.len() - 1]) < entries.len());
        law_fills_overlay(conf, entries, rest);
    }
}

/// Two threads leave the same table, whichever of them fills its part first.
pub proof fn law_fills_commute<F: Fn(usize) -> usize>(
    conf: &Conf<F>,
    entries: Seq<GlobalEntry>,
    keys: Seq<usize>,
    first: (int, int),
    second: (int, int),
)
    requires
        first != second,
        forall|i: int|
            0 <= i < keys.len() ==> conf.bucket_of(#[trigger] keys[i]) < entries.len(),
    ensures
        ({
            let a = fills(conf, partition(conf, keys, first.0, first.1));
            let b = fills(conf, partition(conf, keys, second.0, second.1));
            table_after_all(table_after_all(entries, a), b) == table_after_all(
                table_after_all(entries, b),
                a,
            )
        }),
{
    let p = partition(conf, keys, first.0, first.1);
    let q = partition(conf, keys, second.0, second.1);
    let a = fills(conf, p);
    let b = fills(conf, q);
    let placement = conf.placement();
    lemma_partition_in_table(conf, entries, keys, first);
    lemma_partition_in_table(conf, entries, keys, second);
    law_fills_overlay(conf, entries, p);
    law_fills_overlay(conf, entries, q);
    let after_a = table_after_all(entries, a);
    let after_b = table_after_all(entries, b);
    law_fills_overlay(conf, after_a, q);
    law_fills_overlay(conf, after_b, p);
    assert forall|i: int| 0 <= i < entries.len() implies table_after_all(after_a, b)[i]
        == table_after_all(after_b, a)[i] by {
        law_partitions_share_no_bucket(conf, keys, first, second);
        if exists|k: int| 0 <= k < p.len() && placement(#[trigger] p[k]) == i {
            let k = choose|k: int| 0 <= k < p.len() && placement(#[trigger] p[k]) == i;
            assert(p.contains(p[k]));
            assert forall|m: int| 0 <= m < q.len() implies placement(#[trigger] q[m]) != i by {
                assert(q.contains(q[m]));
            }
            lemma_overlay_miss(after_a[i], q, placement, i, VALUE);
            lemma_overlay_miss(entries[i], q, placement, i, VALUE);
        } else {
            lemma_overlay_miss(after_b[i], p, placement, i, VALUE);
            lemma_overlay_miss(entries[i], p, placement, i, VALUE);
        }
    }
    assert(table_after_all(after_a, b) =~= table_after_all(after_b, a));
}

/// Filling a part of the table again changes nothing.
pub proof fn law_fill_again<F: Fn(usize) -> usize>(
    conf: &Conf<F>,
    entries: Seq<GlobalEntry>,
    keys: Seq<usize>,
)
    requires
        forall|i: int|
            0 <= i < keys.len() ==> conf.bucket_of(#[trigger] keys[i]) < entries.len(),
    ensures
        table_after_all(table_after_all(entries, fills(conf, keys)), fills(conf, keys))
            == table_after_all(entries, fills(conf, keys)),
{
    let once = table_after_all(entries, fills(conf, keys));
    law_fills_overlay(conf, entries, keys);
    law_fills_overlay(conf, once, keys);
    let twice = table_after_all(once, fills(conf, keys));
    assert forall|i: int| 0 <= i < entries.len() implies twice[i] == once[i] by {
        lemma_overlay_twice(entries[i], keys, conf.placement(), i, VALUE);
    }
    assert(twice =~= once);
}

/// The keys of a partition have their buckets in the table where all keys do.
proof fn lemma_partition_in_table<F: Fn(usize) -> usize>(
    conf: &Conf<F>,
    entries: Seq<GlobalEntry>,
    keys: Seq<usize>,
    owner: (int, int),
)
    requires
        forall|i: int|
            0 <= i < keys.len() ==> conf.bucket_of(#[trigger] keys[i]) < entries.len(),
    ensures
        ({
            let mine = partition(conf, keys, owner.0, owner.1);
            forall|i: int|
                0 <= i < mine.len() ==> conf.bucket_of(#[trigger] mine[i]) < entries.len()
        }),
{
    let mine = partition(conf, keys, owner.0, owner.1);
    assert forall|i: int| 0 <= i < mine.len() implies conf.bucket_of(#[trigger] mine[i])
        < entries.len() by {
        lemma_partition_owner(conf, keys, owner.0, owner.1, mine[i]);
    }
}

/// In a run of any sessions, a read is wrong exactly where its bucket did not hold [`VALUE`] at
/// the start and no earlier access wrote to it.
pub proof fn law_wrong_read<F: Fn(usize) -> usize>(
    conf: &Conf<F>,
    entries: Seq<GlobalEntry>,
    accesses: Seq<Access>,
    i: int,
)
    requires
        forall|j: int|
            0 <= j < accesses.len() ==> (#[trigger] accesses[j]).bucket < entries.len() && is_ours(
                conf,
                accesses[j],
            ),
        0 <= i < accesses.len(),
    ensures
        ({
            let bucket = accesses[i].bucket as int;
            let now = table_after_all(entries, accesses.take(i))[bucket];
            let read = accesses[i].op.reads(now);
            (read is Some && read->0 != VALUE) <==> {
                &&& accesses[i].op is Get
                &&& entries[bucket].value != VALUE
                &&& forall|j: int|
                    0 <= j < i && (#[trigger] accesses[j]).bucket == bucket ==> accesses[j].op
                        is Get
            }
        }),
{
    let bucket = accesses[i].bucket as int;
    let earlier = accesses.take(i);
    assert(forall|j: int| 0 <= j < i ==> #[trigger] earlier[j] == accesses[j]);
    if entries[bucket].value != VALUE && forall|j: int|
        0 <= j < i && (#[trigger] accesses[j]).bucket == bucket ==> accesses[j].op is Get {
        lemma_unwritten_bucket(entries, earlier, bucket);
    } else {
        if entries[bucket].value != VALUE {
            let j = choose|j: int|
                0 <= j < i && (#[trigger] accesses[j]).bucket == bucket && !(accesses[j].op is Get);
            assert(earlier[j].bucket == bucket && earlier[j].op is Put);
        }
        law_uniform_writes(entries, earlier, VALUE, bucket);
    }
}

/// Where every bucket that the sessions touch holds [`VALUE`] at the start, no value changes.
pub proof fn law_mixed_run_keeps_values<F: Fn(usize) -> usize>(
    conf: &Conf<F>,
    entries: Seq<GlobalEntry>,
    accesses: Seq<Access>,
    bucket: int,
)
    requires
        0 <= bucket < entries.len(),
        forall|j: int|
            0 <= j < accesses.len() ==> {
                &&& (#[trigger] accesses[j]).bucket < entries.len()
                &&& is_ours(conf, accesses[j])
                &&& entries[accesses[j].bucket as int].value == VALUE
            },
    ensures
        table_after_all(entries, accesses).len() == entries.len(),
        table_after_all(entries, accesses)[bucket].value == entries[bucket].value,
{
    lemma_table_len(entries, accesses);
    if entries[bucket].value == VALUE {
        law_uniform_writes(entries, accesses, VALUE, bucket);
    } else {
        lemma_unwritten_bucket(entries, accesses, bucket);
    }
}

/// A key is read where the number drawn for it is less than the read ratio; otherwise the key is
/// written with [`VALUE`]. Either way the access goes to the key's bucket.
pub proof fn law_access<F: Fn(usize) -> usize>(conf: &Conf<F>, key: usize, drawn: i32)
    ensures
        access_for(conf, key, drawn).bucket == conf.bucket_of(key),
        access_for(conf, key, drawn).op is Get <==> drawn < conf.read_ratio,
        drawn >= conf.read_ratio ==> access_for(conf, key, drawn).op == (Op::Put {
            key,
            value: VALUE,
        }),
        value_put(conf, key).bucket == conf.bucket_of(key),
        value_put(conf, key).op == (Op::Put { key, value: VALUE }),
{
}

/// A number that gives a read under one ratio gives one under every higher ratio, and so does
/// every lower number under the same ratio.
pub proof fn law_reads_grow_with_ratio<F: Fn(usize) -> usize>(
    conf: &Conf<F>,
    higher: &Conf<F>,
    key: usize,
    drawn: i32,
    lower: i32,
)
    requires
        conf.read_ratio <= higher.read_ratio,
        lower <= drawn,
        access_for(conf, key, drawn).op is Get,
    ensures
        access_for(higher, key, drawn).op is Get,
        access_for(conf, key, lower).op is Get,
{
}

/// How many of the numbers from 0 up to `n` give a read.
pub open spec fn reads_below<F: Fn(usize) -> usize>(conf: &Conf<F>, key: usize, n: nat) -> nat
    decreases n,
{
    if n == 0 {
        0
    } else {
        reads_below(conf, key, (n - 1) as nat) + (if access_for(conf, key, (n - 1) as i32).op
            is Get {
            1nat
        } else {
            0nat
        })
    }
}

/// Of the ten numbers that can be drawn, as many give a read as the read ratio says; a ratio of
/// less than zero or more than ten counts as zero or ten.
pub proof fn law_ratio_counts_reads<F: Fn(usize) -> usize>(conf: &Conf<F>, key: usize)
    ensures
        conf.read_ratio <= 0 ==> reads_below(conf, key, 10) == 0,
        0 <= conf.read_ratio <= 10 ==> reads_below(conf, key, 10) == conf.read_ratio,
        conf.read_ratio >= 10 ==> reads_below(conf, key, 10) == 10,
        MIX_TOTAL == 10,
{
    lemma_reads_below(conf, key, 10);
}

/// Of the numbers below `n`, those below the ratio give a read.
proof fn lemma_reads_below<F: Fn(usize) -> usize>(conf: &Conf<F>, key: usize, n: nat)
    requires
        n <= 10,
    ensures
        reads_below(conf, key, n) == (if conf.read_ratio <= 0 {
            0int
        } else if conf.read_ratio < n {
            conf.read_ratio as int
        } else {
            n as int
        }),
    decreases n,
{
    if n > 0 {
        lemma_reads_below(conf, key, (n - 1) as nat);
    }
}

/// Filling writes once for every key, in order, each time the key itself with [`VALUE`] to its
/// own bucket.
pub proof fn law_fills<F: Fn(usize) -> usize>(conf: &Conf<F>, keys: Seq<usize>, i: int)
    requires
        0 <= i < keys.len(),
    ensures
        fills(conf, keys).len() == keys.len(),
        fills(conf, keys)[i].bucket == conf.bucket_of(keys[i]),
        fills(conf, keys)[i].op == (Op::Put { key: keys[i], value: VALUE }),
{
}

/// A session starts with all of its keys to do and the words of two different seeds.
pub proof fn law_session_start(keys: Seq<usize>)
    ensures
        SessionView::start(keys).keys == keys,
        SessionView::start(keys).done == 0,
        SessionView::start(keys).pending is None,
        SessionView::start(keys).walk_words == seeded_words(1),
        SessionView::start(keys).mix_words == seeded_words(2),
{
}

/// Handing an access out draws once for the choice between a read and a write and changes nothing
/// else; taking it back moves on to the next key and draws a walk at every 32nd, the first
/// included.
pub proof fn law_session_step<F: Fn(usize) -> usize>(conf: &Conf<F>, session: SessionView)
    ensures
        session.draw() == uniform_i32(0, 10, session.mix_words).0,
        session.pick() == uniform_u32(0, 0xffff_ffff, session.walk_words).0,
        session.walk_is_due() <==> session.done % 32 == 0,
        session.wf() <==> session.done <= session.keys.len() && (session.pending is Some
            ==> session.done < session.keys.len()),
        ({
            let out = session.handed_out(conf);
            let key = session.keys[session.done as int];
            let drawn = uniform_i32(0, 10, session.mix_words);
            &&& out.keys == session.keys
            &&& out.done == session.done
            &&& out.walk_words == session.walk_words
            &&& out.mix_words == skip_words(session.mix_words, drawn.1)
            &&& out.pending matches Some(access)
            &&& access.bucket == conf.bucket_of(key)
            &&& access.op is Get <==> drawn.0 < conf.read_ratio
            &&& access.op is Put ==> access.op == (Op::Put { key, value: VALUE })
        }),
        ({
            let back = session.taken_back();
            let drawn = uniform_u32(0, 0xffff_ffff, session.walk_words);
            &&& back.keys == session.keys
            &&& back.done == session.done + 1
            &&& back.pending is None
            &&& back.mix_words == session.mix_words
            &&& session.done % 32 == 0 ==> back.walk_words == skip_words(
                session.walk_words,
                drawn.1,
            )
            &&& session.done % 32 != 0 ==> back.walk_words == session.walk_words
        }),
{
}

/// Accesses follow one another: `n` accesses and one more are `n + 1`, and none leave the session
/// as it is.
pub proof fn law_session_goes_on<F: Fn(usize) -> usize>(
    conf: &Conf<F>,
    session: SessionView,
    n: nat,
)
    ensures
        session.after_ops(conf, 0) == session,
        session.after_ops(conf, n + 1) == session.after_ops(conf, n).handed_out(
            conf,
        ).taken_back(),
{
}

/// Each choice takes its number from the words that the choices before it left.
pub proof fn law_choice_draws(words: Map<nat, u32>, n: nat)
    ensures
        words_after_choices(words, 0) == words,
        words_after_choices(words, n + 1) == skip_words(
            words_after_choices(words, n),
            uniform_i32(0, 10, words_after_choices(words, n)).1,
        ),
{
}

} // verus!
