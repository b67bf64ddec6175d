//! The shape of a deployment: table size, servers, threads, and where keys go.
use vstd::prelude::*;

verus! {

/// The sizes that a run is set up with, and the function that places keys in buckets.
pub struct Conf<F> {
    /// The bucket of a key.
    pub hash: F,
    /// Number of buckets in the table.
    pub bucket_num: usize,
    /// Number of servers.
    pub num_servers: usize,
    /// Number of benchmark threads on each server.
    pub thread_num: usize,
    /// Number of consecutive buckets whose keys one server works on.
    pub unit_bucket_num: usize,
    /// Number of consecutive buckets whose keys one thread works on.
    pub unit_thread_bucket_num: usize,
    /// How many of ten operations are reads in the mixed benchmark.
    pub read_ratio: i32,
    /// Address at which the global heap starts.
    pub global_heap_start: usize,
    /// Size of the part of the global heap that one server owns.
    pub worker_unit_size: usize,
}

impl<F: Fn(usize) -> usize> Conf<F> {
    /// Whether `hash` may send `key` to `bucket`.
    pub open spec fn lands(&self, key: usize, bucket: usize) -> bool {
        call_ensures(self.hash, (key,), bucket)
    }

    /// The bucket of `key`.
    pub open spec fn bucket_of(&self, key: usize) -> usize {
        choose|bucket: usize| self.lands(key, bucket)
    }

    /// The placement of keys as a mathematical function.
    pub open spec fn placement(&self) -> spec_fn(usize) -> usize {
        |key: usize| self.bucket_of(key)
    }

    /// `hash` accepts every key and always sends the same key to the same bucket.
    pub open spec fn places_keys(&self) -> bool {
        &&& forall|key: usize| #[trigger] call_requires(self.hash, (key,))
        &&& forall|key: usize, a: usize, b: usize|
            #[trigger] self.lands(key, a) && #[trigger] self.lands(key, b) ==> a == b
    }

    /// `hash` does send `key` to the bucket that [`Conf::bucket_of`] names.
    pub open spec fn placed(&self, key: usize) -> bool {
        self.lands(key, self.bucket_of(key))
    }

    /// The bucket of `key` is one of the first `n`.
    pub open spec fn within(&self, key: usize, n: nat) -> bool {
        forall|bucket: usize| #[trigger] self.lands(key, bucket) ==> bucket < n
    }

    /// The bucket of `key`.
    pub fn bucket(&self, key: usize) -> (bucket: usize)
        requires
            self.places_keys(),
        ensures
            bucket == self.bucket_of(key),
            bucket == (self.placement())(key),
            self.placed(key),
            call_ensures(self.hash, (key,), bucket),
    {
        let bucket = (self.hash)(key);
        assert(self.lands(key, bucket));
        bucket
    }

    /// Servers and threads have buckets to work on.
    pub open spec fn has_units(&self) -> bool {
        &&& self.unit_bucket_num > 0
        &&& self.unit_thread_bucket_num > 0
    }

    /// The server and the thread that work on the keys of `bucket`.
    pub open spec fn owner_of(&self, bucket: int) -> (int, int) {
        (
            bucket / self.unit_bucket_num as int,
            (bucket % self.unit_bucket_num as int) / self.unit_thread_bucket_num as int,
        )
    }

    /// The server and the thread that work on the keys of `bucket`.
    pub fn owner(&self, bucket: usize) -> (owner: (usize, usize))
        requires
            self.has_units(),
        ensures
            (owner.0 as int, owner.1 as int) == self.owner_of(bucket as int),
            owner.0 == bucket / self.unit_bucket_num,
            owner.1 == (bucket % self.unit_bucket_num) / self.unit_thread_bucket_num,
    {
        (
            bucket / self.unit_bucket_num,
            (bucket % self.unit_bucket_num) / self.unit_thread_bucket_num,
        )
    }

    /// The first bucket of a thread's range.
    pub open spec fn range_start(&self, server: int, thread: int) -> int {
        server * self.unit_bucket_num + thread * self.unit_thread_bucket_num
    }

    /// The bucket after a thread's range.
    pub open spec fn range_end(&self, server: int, thread: int) -> int {
        let end = self.range_start(server, thread) + self.unit_thread_bucket_num;
        if end < self.bucket_num {
            end
        } else {
            self.bucket_num as int
        }
    }

    /// The end of a thread's range, before it is cut off at the end of the table, is a bucket
    /// number.
    pub open spec fn range_fits(&self, server: usize, thread: usize) -> bool {
        self.range_start(server as int, thread as int) + self.unit_thread_bucket_num <= usize::MAX
    }

    /// The buckets `[start, end)` of a thread.
    pub fn thread_range(&self, server: usize, thread: usize) -> (range: (usize, usize))
        requires
            self.range_fits(server, thread),
        ensures
            range.0 == self.range_start(server as int, thread as int),
            range.1 == self.range_end(server as int, thread as int),
            range.0 == server * self.unit_bucket_num + thread * self.unit_thread_bucket_num,
            range.1 <= self.bucket_num,
            range.1 <= range.0 + self.unit_thread_bucket_num,
            range.1 == self.bucket_num || range.1 == range.0 + self.unit_thread_bucket_num,
    {
        proof {
            let unit = self.unit_bucket_num;
            let thread_unit = self.unit_thread_bucket_num;
            assert(server * unit >= 0 && thread * thread_unit >= 0) by (nonlinear_arith);
        }
        let start_bucket = server * self.unit_bucket_num + thread * self.unit_thread_bucket_num;
        let end = start_bucket + self.unit_thread_bucket_num;
        let end_bucket = if end < self.bucket_num {
            end
        } else {
            self.bucket_num
        };
        (start_bucket, end_bucket)
    }
}

/// A bucket of the table lies in the range of the thread that owns it.
pub proof fn law_owner_range<F: Fn(usize) -> usize>(conf: &Conf<F>, bucket: int)
    requires
        conf.has_units(),
        0 <= bucket < conf.bucket_num,
    ensures
        ({
            let (server, thread) = conf.owner_of(bucket);
            conf.range_start(server, thread) <= bucket < conf.range_end(server, thread)
        }),
{
    let unit = conf.unit_bucket_num as int;
    let thread_unit = conf.unit_thread_bucket_num as int;
    vstd::arithmetic::div_mod::lemma_fundamental_div_mod(bucket, unit);
    vstd::arithmetic::div_mod::lemma_fundamental_div_mod(bucket % unit, thread_unit);
    vstd::arithmetic::mul::lemma_mul_is_commutative(unit, bucket / unit);
    vstd::arithmetic::mul::lemma_mul_is_commutative(thread_unit, (bucket % unit) / thread_unit);
    vstd::arithmetic::div_mod::lemma_mod_bound(bucket % unit, thread_unit);
}

/// A thread whose range does not run over into the next server's buckets owns every bucket of its
/// range.
pub proof fn law_range_owner<F: Fn(usize) -> usize>(
    conf: &Conf<F>,
    server: int,
    thread: int,
    bucket: int,
)
    requires
        conf.has_units(),
        0 <= server,
        0 <= thread,
        (thread + 1) * conf.unit_thread_bucket_num <= conf.unit_bucket_num,
        conf.range_start(server, thread) <= bucket < conf.range_end(server, thread),
    ensures
        conf.owner_of(bucket) == (server, thread),
{
    let unit = conf.unit_bucket_num as int;
    let thread_unit = conf.unit_thread_bucket_num as int;
    let within_server = bucket - server * unit;
    assert((thread + 1) * thread_unit == thread * thread_unit + thread_unit) by (nonlinear_arith);
    assert(thread * thread_unit >= 0) by (nonlinear_arith)
        requires
            thread >= 0,
            thread_unit > 0,
    ;
    vstd::arithmetic::div_mod::lemma_fundamental_div_mod_converse(
        bucket,
        unit,
        server,
        within_server,
    );
    vstd::arithmetic::div_mod::lemma_fundamental_div_mod_converse(
        within_server,
        thread_unit,
        thread,
        within_server - thread * thread_unit,
    );
}

/// The bucket of a key is what `hash` gives for it, under every name that it has here.
pub proof fn law_bucket_is_hash<F: Fn(usize) -> usize>(conf: &Conf<F>, key: usize, bucket: usize)
    requires
        conf.places_keys(),
        call_ensures(conf.hash, (key,), bucket),
    ensures
        conf.bucket_of(key) == bucket,
        (conf.placement())(key) == bucket,
        conf.placed(key),
        forall|n: nat| #[trigger] conf.within(key, n) <==> bucket < n,
{
    assert(conf.lands(key, bucket));
}

/// Every function of keys that takes all of them and gives each one bucket can place them.
pub proof fn law_any_function_places_keys<F: Fn(usize) -> usize>(conf: &Conf<F>)
    requires
        forall|key: usize| #[trigger] call_requires(conf.hash, (key,)),
        forall|key: usize, a: usize, b: usize|
            #[trigger] call_ensures(conf.hash, (key,), a) && #[trigger] call_ensures(
                conf.hash,
                (key,),
                b,
            ) ==> a == b,
    ensures
        conf.places_keys(),
{
}

/// A key that `hash` can only send below `n` is within `n`.
pub proof fn law_within<F: Fn(usize) -> usize>(conf: &Conf<F>, key: usize, n: nat)
    ensures
        conf.within(key, n) <==> (forall|bucket: usize|
            #[trigger] call_ensures(conf.hash, (key,), bucket) ==> bucket < n),
{
    if forall|bucket: usize| #[trigger] call_ensures(conf.hash, (key,), bucket) ==> bucket < n {
        assert(forall|bucket: usize| #[trigger] conf.lands(key, bucket) ==> bucket < n);
    }
    if conf.within(key, n) {
        assert forall|bucket: usize| #[trigger] call_ensures(
            conf.hash,
            (key,),
            bucket,
        ) implies bucket < n by {
            assert(conf.lands(key, bucket));
        }
    }
}

/// The table is cut into units of `unit_bucket_num` buckets, one after another for the servers,
/// and each of those into units of `unit_thread_bucket_num` buckets, one after another for the
/// threads. A thread owns a bucket exactly where the bucket lies in its unit.
pub proof fn law_owner_is_unit<F: Fn(usize) -> usize>(
    conf: &Conf<F>,
    bucket: int,
    server: int,
    thread: int,
)
    requires
        conf.unit_bucket_num > 0,
        conf.unit_thread_bucket_num > 0,
        0 <= bucket,
    ensures
        conf.has_units(),
        conf.owner_of(bucket) == (server, thread) <==> {
            let within_server = bucket - server * conf.unit_bucket_num;
            let within_thread = within_server - thread * conf.unit_thread_bucket_num;
            &&& 0 <= within_server < conf.unit_bucket_num
            &&& 0 <= within_thread < conf.unit_thread_bucket_num
        },
{
    let unit = conf.unit_bucket_num as int;
    let thread_unit = conf.unit_thread_bucket_num as int;
    let within_server = bucket - server * unit;
    let within_thread = within_server - thread * thread_unit;
    vstd::arithmetic::div_mod::lemma_fundamental_div_mod(bucket, unit);
    vstd::arithmetic::div_mod::lemma_mod_bound(bucket, unit);
    vstd::arithmetic::div_mod::lemma_fundamental_div_mod(bucket % unit, thread_unit);
    vstd::arithmetic::div_mod::lemma_mod_bound(bucket % unit, thread_unit);
    vstd::arithmetic::mul::lemma_mul_is_commutative(unit, bucket / unit);
    vstd::arithmetic::mul::lemma_mul_is_commutative(thread_unit, (bucket % unit) / thread_unit);
    if 0 <= within_server < unit && 0 <= within_thread < thread_unit {
        vstd::arithmetic::div_mod::lemma_fundamental_div_mod_converse(
            bucket,
            unit,
            server,
            within_server,
        );
        vstd::arithmetic::div_mod::lemma_fundamental_div_mod_converse(
            within_server,
            thread_unit,
            thread,
            within_thread,
        );
    }
}

/// The ranges of a server's threads follow one another without a gap from the server's first
/// bucket on, each a unit long unless the table ends before.
pub proof fn law_ranges_follow<F: Fn(usize) -> usize>(conf: &Conf<F>, server: int, thread: int)
    ensures
        conf.range_start(0, 0) == 0,
        conf.range_start(server + 1, thread) == conf.range_start(server, thread)
            + conf.unit_bucket_num,
        conf.range_start(server, thread + 1) == conf.range_start(server, thread)
            + conf.unit_thread_bucket_num,
        conf.range_start(server, thread + 1) <= conf.bucket_num ==> conf.range_end(server, thread)
            == conf.range_start(server, thread + 1),
        conf.range_start(server, thread + 1) >= conf.bucket_num ==> conf.range_end(server, thread)
            == conf.bucket_num,
{
    let unit = conf.unit_bucket_num as int;
    let thread_unit = conf.unit_thread_bucket_num as int;
    assert((server + 1) * unit == server * unit + unit) by (nonlinear_arith);
    assert((thread + 1) * thread_unit == thread * thread_unit + thread_unit) by (nonlinear_arith);
}

/// Every range whose end, before the table cuts it off, is a machine integer can be asked for.
pub proof fn law_range_fits<F: Fn(usize) -> usize>(conf: &Conf<F>, server: usize, thread: usize)
    ensures
        conf.range_fits(server, thread) <==> server * conf.unit_bucket_num + (thread + 1)
            * conf.unit_thread_bucket_num <= usize::MAX,
{
    let thread_unit = conf.unit_thread_bucket_num as int;
    assert((thread + 1) * thread_unit == thread * thread_unit + thread_unit) by (nonlinear_arith);
}

} // verus!
