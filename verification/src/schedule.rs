//! Which thread of which server does what.
use vstd::multiset::Multiset;
use vstd::prelude::*;

use crate::conf::Conf;
use crate::dataset::{lemma_partition_owner, partition};
use crate::graph::NUM_ARRAY_ENTRIES;

verus! {

/// One benchmark thread, and an address that its server owns.
#[derive(Debug, Clone, Copy, PartialEq, Eq, Structural)]
pub struct Task {
    pub server: usize,
    pub thread: usize,
    pub home: usize,
}

/// The `i`-th task: servers in order, and on each of them threads in order.
pub open spec fn task_at<F>(conf: &Conf<F>, i: int) -> (int, int) {
    (i / conf.thread_num as int, i % conf.thread_num as int)
}

/// The address of a server's part of the global heap.
pub open spec fn home_of<F>(conf: &Conf<F>, server: int) -> int {
    conf.global_heap_start + server * conf.worker_unit_size
}

/// The number of threads, and the address of every server that has one, are machine integers.
pub open spec fn schedulable<F>(conf: &Conf<F>) -> bool {
    &&& conf.num_servers * conf.thread_num <= usize::MAX
    &&& conf.num_servers > 0 && conf.thread_num > 0 ==> home_of(conf, conf.num_servers - 1)
        <= usize::MAX
}

/// The number of threads over all servers.
pub fn compute_slots<F>(conf: &Conf<F>) -> (slots: usize)
    requires
        conf.num_servers * conf.thread_num <= usize::MAX,
    ensures
        slots == conf.num_servers * conf.thread_num,
{
    conf.num_servers * conf.thread_num
}

/// The number of graph nodes on each server.
pub fn entries_per_server<F>(conf: &Conf<F>) -> (entries: usize)
    requires
        conf.num_servers > 0,
    ensures
        entries == NUM_ARRAY_ENTRIES as int / conf.num_servers as int,
        entries * conf.num_servers <= 2 * 1024 * 1024 < (entries + 1) * conf.num_servers,
{
    proof {
        let servers = conf.num_servers as int;
        let all = NUM_ARRAY_ENTRIES as int;
        let each = all / servers;
        vstd::arithmetic::div_mod::lemma_fundamental_div_mod(all, servers);
        vstd::arithmetic::div_mod::lemma_mod_bound(all, servers);
        assert(each * servers <= all < (each + 1) * servers) by (nonlinear_arith)
            requires
                all == servers * each + all % servers,
                0 <= all % servers < servers,
        ;
    }
    NUM_ARRAY_ENTRIES / conf.num_servers
}

/// All tasks, in the order in which they are started.
pub fn tasks<F>(conf: &Conf<F>) -> (tasks: Vec<Task>)
    requires
        schedulable(conf),
    ensures
        tasks@.len() == conf.num_servers * conf.thread_num,
        forall|i: int|
            0 <= i < tasks@.len() ==> {
                let task = #[trigger] tasks@[i];
                &&& (task.server as int, task.thread as int) == task_at(conf, i)
                &&& task.home == home_of(conf, task.server as int)
            },
        forall|i: int|
            0 <= i < tasks@.len() ==> {
                let task = #[trigger] tasks@[i];
                &&& task.server < conf.num_servers
                &&& task.thread < conf.thread_num
                &&& task.server * conf.thread_num + task.thread == i
                &&& task.home == conf.global_heap_start + task.server * conf.worker_unit_size
            },
{
    let mut tasks: Vec<Task> = Vec::new();
    let ghost threads = conf.thread_num as int;
    let mut server: usize = 0;
    while server < conf.num_servers
        invariant
            schedulable(conf),
            threads == conf.thread_num,
            server <= conf.num_servers,
            tasks@.len() == server * threads,
            forall|i: int|
                0 <= i < tasks@.len() ==> {
                    let task = #[trigger] tasks@[i];
                    &&& (task.server as int, task.thread as int) == task_at(conf, i)
                    &&& task.home == home_of(conf, task.server as int)
                },
        decreases conf.num_servers - server,
    {
        let mut thread: usize = 0;
        while thread < conf.thread_num
            invariant
                schedulable(conf),
                threads == conf.thread_num,
                server < conf.num_servers,
                thread <= conf.thread_num,
                tasks@.len() == server * threads + thread,
                forall|i: int|
                    0 <= i < tasks@.len() ==> {
                        let task = #[trigger] tasks@[i];
                        &&& (task.server as int, task.thread as int) == task_at(conf, i)
                        &&& task.home == home_of(conf, task.server as int)
                    },
            decreases conf.thread_num - thread,
        {
            proof {
                vstd::arithmetic::div_mod::lemma_fundamental_div_mod_converse(
                    tasks@.len() as int,
                    threads,
                    server as int,
                    thread as int,
                );
            }
            proof {
                let last = conf.num_servers - 1;
                let size = conf.worker_unit_size as int;
                assert(0 <= server * size <= last * size) by (nonlinear_arith)
                    requires
                        0 <= server <= last,
                        size >= 0,
                ;
            }
            let home = conf.global_heap_start + server * conf.worker_unit_size;
            tasks.push(Task { server, thread, home });
            thread = thread + 1;
        }
        assert((server + 1) * threads == server * threads + threads) by (nonlinear_arith);
        server = server + 1;
    }
    assert forall|i: int| 0 <= i < tasks@.len() implies {
        let task = #[trigger] tasks@[i];
        &&& task.server < conf.num_servers
        &&& task.thread < conf.thread_num
        &&& task.server * conf.thread_num + task.thread == i
        &&& task.home == conf.global_heap_start + task.server * conf.worker_unit_size
    } by {
        let task = tasks@[i];
        law_task_order(conf, i);
    }
    tasks
}

/// Every thread of every server has exactly one task.
pub proof fn law_each_thread_once<F>(conf: &Conf<F>, server: int, thread: int)
    requires
        0 <= server < conf.num_servers,
        0 <= thread < conf.thread_num,
    ensures
        ({
            let at = server * conf.thread_num + thread;
            &&& 0 <= at < conf.num_servers * conf.thread_num
            &&& task_at(conf, at) == (server, thread)
            &&& forall|i: int|
                0 <= i < conf.num_servers * conf.thread_num && #[trigger] task_at(conf, i) == (
                server,
                thread,
                ) ==> i == at
        }),
{
    let threads = conf.thread_num as int;
    let servers = conf.num_servers as int;
    let at = server * threads + thread;
    assert(0 <= at < servers * threads) by (nonlinear_arith)
        requires
            0 <= server < servers,
            0 <= thread < threads,
            at == server * threads + thread,
    ;
    vstd::arithmetic::div_mod::lemma_fundamental_div_mod_converse(at, threads, server, thread);
    assert forall|i: int|
        0 <= i < servers * threads && #[trigger] task_at(conf, i) == (server, thread) implies i
        == at by {
        vstd::arithmetic::div_mod::lemma_fundamental_div_mod(i, threads);
        vstd::arithmetic::mul::lemma_mul_is_commutative(threads, server);
    }
}

/// The units of servers and threads cover the whole table.
pub open spec fn covers_table<F: Fn(usize) -> usize>(conf: &Conf<F>) -> bool {
    &&& conf.has_units()
    &&& conf.bucket_num <= conf.num_servers * conf.unit_bucket_num
    &&& conf.unit_bucket_num <= conf.thread_num * conf.unit_thread_bucket_num
}

/// Where the units cover the table, every bucket is owned by a thread that has a task.
pub proof fn law_owner_has_task<F: Fn(usize) -> usize>(conf: &Conf<F>, bucket: int)
    requires
        covers_table(conf),
        0 <= bucket < conf.bucket_num,
    ensures
        0 <= conf.owner_of(bucket).0 < conf.num_servers,
        0 <= conf.owner_of(bucket).1 < conf.thread_num,
{
    let unit = conf.unit_bucket_num as int;
    let thread_unit = conf.unit_thread_bucket_num as int;
    vstd::arithmetic::div_mod::lemma_div_pos_is_pos(bucket, unit);
    vstd::arithmetic::div_mod::lemma_mod_bound(bucket, unit);
    vstd::arithmetic::div_mod::lemma_div_pos_is_pos(bucket % unit, thread_unit);
    vstd::arithmetic::div_mod::lemma_fundamental_div_mod(bucket, unit);
    vstd::arithmetic::div_mod::lemma_fundamental_div_mod(bucket % unit, thread_unit);
    vstd::arithmetic::div_mod::lemma_mod_bound(bucket % unit, thread_unit);
    let server = bucket / unit;
    let thread = (bucket % unit) / thread_unit;
    assert(server < conf.num_servers) by (nonlinear_arith)
        requires
            unit * server <= bucket,
            bucket < conf.num_servers * unit,
            unit > 0,
    ;
    assert(thread < conf.thread_num) by (nonlinear_arith)
        requires
            thread_unit * thread < unit,
            unit <= conf.thread_num * thread_unit,
            thread_unit > 0,
    ;
}

/// How many of `keys` the first `n` tasks work on.
pub open spec fn ops_of_tasks<F: Fn(usize) -> usize>(
    conf: &Conf<F>,
    keys: Seq<usize>,
    n: nat,
) -> nat
    decreases n,
{
    if n == 0 {
        0
    } else {
        let (server, thread) = task_at(conf, n - 1);
        ops_of_tasks(conf, keys, (n - 1) as nat) + partition(conf, keys, server, thread).len()
    }
}

/// The keys of two different threads never share a bucket.
pub proof fn law_partitions_share_no_bucket<F: Fn(usize) -> usize>(
    conf: &Conf<F>,
    keys: Seq<usize>,
    first: (int, int),
    second: (int, int),
)
    requires
        first != second,
    ensures
        forall|a: usize, b: usize|
            #[trigger] partition(conf, keys, first.0, first.1).contains(a)
                && #[trigger] partition(conf, keys, second.0, second.1).contains(b)
                ==> conf.bucket_of(a) != conf.bucket_of(b),
{
    assert forall|a: usize, b: usize|
        #[trigger] partition(conf, keys, first.0, first.1).contains(a) && #[trigger] partition(
            conf,
            keys,
            second.0,
            second.1,
        ).contains(b) implies conf.bucket_of(a) != conf.bucket_of(b) by {
        lemma_partition_owner(conf, keys, first.0, first.1, a);
        lemma_partition_owner(conf, keys, second.0, second.1, b);
    }
}

/// The keys of all of the first `n` tasks together.
pub open spec fn keys_of_tasks<F: Fn(usize) -> usize>(
    conf: &Conf<F>,
    keys: Seq<usize>,
    n: nat,
) -> Multiset<usize>
    decreases n,
{
    if n == 0 {
        Multiset::empty()
    } else {
        let (server, thread) = task_at(conf, n - 1);
        keys_of_tasks(conf, keys, (n - 1) as nat).add(
            partition(conf, keys, server, thread).to_multiset(),
        )
    }
}

/// One more key goes to the task that owns it, and to no other.
proof fn lemma_one_more_key_shared<F: Fn(usize) -> usize>(
    conf: &Conf<F>,
    keys: Seq<usize>,
    n: nat,
    at: int,
)
    requires
        keys.len() > 0,
        forall|i: int|
            0 <= i < n ==> (#[trigger] task_at(conf, i) == conf.owner_of(
                conf.bucket_of(keys.last()) as int,
            ) <==> i == at),
    ensures
        keys_of_tasks(conf, keys, n) == (if 0 <= at < n {
            keys_of_tasks(conf, keys.drop_last(), n).insert(keys.last())
        } else {
            keys_of_tasks(conf, keys.drop_last(), n)
        }),
    decreases n,
{
    if n > 0 {
        lemma_one_more_key_shared(conf, keys, (n - 1) as nat, at);
        reveal(Seq::filter);
        let (server, thread) = task_at(conf, n - 1);
        let before = partition(conf, keys.drop_last(), server, thread);
        if n - 1 == at {
            assert(partition(conf, keys, server, thread) == before.push(keys.last()));
            vstd::seq_lib::to_multiset_build(before, keys.last());
            assert(keys_of_tasks(conf, keys, n) =~= keys_of_tasks(
                conf,
                keys.drop_last(),
                n,
            ).insert(keys.last()));
        } else {
            assert(partition(conf, keys, server, thread) == before);
            assert(keys_of_tasks(conf, keys, n) =~= (if 0 <= at < n {
                keys_of_tasks(conf, keys.drop_last(), n).insert(keys.last())
            } else {
                keys_of_tasks(conf, keys.drop_last(), n)
            }));
        }
    }
}

/// Where the units cover the table, the tasks share out the keys of the trace: every occurrence
/// of a key goes to exactly one task.
pub proof fn law_tasks_share_keys<F: Fn(usize) -> usize>(conf: &Conf<F>, keys: Seq<usize>)
    requires
        covers_table(conf),
        forall|i: int|
            0 <= i < keys.len() ==> conf.bucket_of(#[trigger] keys[i]) < conf.bucket_num,
    ensures
        keys_of_tasks(conf, keys, (conf.num_servers * conf.thread_num) as nat)
            == keys.to_multiset(),
    decreases keys.len(),
{
    let n = (conf.num_servers * conf.thread_num) as nat;
    broadcast use vstd::seq_lib::group_to_multiset_ensures;

    if keys.len() == 0 {
        lemma_no_keys_shared(conf, keys, n);
        assert(keys.to_multiset() =~= Multiset::empty());
    } else {
        assert(conf.bucket_of(keys[keys.len() - 1]) < conf.bucket_num);
        let bucket = conf.bucket_of(keys.last()) as int;
        let (server, thread) = conf.owner_of(bucket);
        law_owner_has_task(conf, bucket);
        law_each_thread_once(conf, server, thread);
        assert forall|i: int| 0 <= i < keys.drop_last().len() implies conf.bucket_of(
            #[trigger] keys.drop_last()[i],
        ) < conf.bucket_num by {
            assert(keys[i] == keys.drop_last()[i]);
        }
        law_tasks_share_keys(conf, keys.drop_last());
        lemma_one_more_key_shared(conf, keys, n, server * conf.thread_num + thread);
        assert(keys =~= keys.drop_last().push(keys.last()));
        vstd::seq_lib::to_multiset_build(keys.drop_last(), keys.last());
    }
}

/// Without keys no task has any.
proof fn lemma_no_keys_shared<F: Fn(usize) -> usize>(conf: &Conf<F>, keys: Seq<usize>, n: nat)
    requires
        keys.len() == 0,
    ensures
        keys_of_tasks(conf, keys, n) == Multiset::<usize>::empty(),
    decreases n,
{
    broadcast use vstd::seq_lib::group_to_multiset_ensures;

    if n > 0 {
        lemma_no_keys_shared(conf, keys, (n - 1) as nat);
        reveal(Seq::filter);
        assert(keys_of_tasks(conf, keys, n) =~= Multiset::<usize>::empty());
    }
}

/// The operations of some tasks are as many as their keys.
proof fn lemma_one_op_per_key<F: Fn(usize) -> usize>(conf: &Conf<F>, keys: Seq<usize>, n: nat)
    ensures
        ops_of_tasks(conf, keys, n) == keys_of_tasks(conf, keys, n).len(),
    decreases n,
{
    broadcast use vstd::seq_lib::group_to_multiset_ensures;

    if n > 0 {
        lemma_one_op_per_key(conf, keys, (n - 1) as nat);
    }
}

/// Where the units cover the table, the operations of all tasks together are as many as those of
/// the trace.
pub proof fn law_tasks_share_trace<F: Fn(usize) -> usize>(conf: &Conf<F>, keys: Seq<usize>)
    requires
        covers_table(conf),
        forall|i: int|
            0 <= i < keys.len() ==> conf.bucket_of(#[trigger] keys[i]) < conf.bucket_num,
    ensures
        ops_of_tasks(conf, keys, (conf.num_servers * conf.thread_num) as nat) == keys.len(),
{
    broadcast use vstd::seq_lib::group_to_multiset_ensures;

    law_tasks_share_keys(conf, keys);
    lemma_one_op_per_key(conf, keys, (conf.num_servers * conf.thread_num) as nat);
}

/// The tasks stand server by server and, on each server, thread by thread, and each is a thread
/// that the deployment has.
pub proof fn law_task_order<F>(conf: &Conf<F>, i: int)
    requires
        0 <= i < conf.num_servers * conf.thread_num,
    ensures
        0 <= task_at(conf, i).0 < conf.num_servers,
        0 <= task_at(conf, i).1 < conf.thread_num,
        task_at(conf, i).0 * conf.thread_num + task_at(conf, i).1 == i,
        task_at(conf, i).1 + 1 < conf.thread_num ==> task_at(conf, i + 1) == (
            task_at(conf, i).0,
            task_at(conf, i).1 + 1,
        ),
        task_at(conf, i).1 + 1 == conf.thread_num ==> task_at(conf, i + 1) == (
            task_at(conf, i).0 + 1,
            0int,
        ),
{
    let threads = conf.thread_num as int;
    let servers = conf.num_servers as int;
    assert(threads > 0) by (nonlinear_arith)
        requires
            0 <= i < servers * threads,
            threads >= 0,
    ;
    let (server, thread) = task_at(conf, i);
    vstd::arithmetic::div_mod::lemma_fundamental_div_mod(i, threads);
    vstd::arithmetic::div_mod::lemma_mod_bound(i, threads);
    vstd::arithmetic::div_mod::lemma_div_pos_is_pos(i, threads);
    vstd::arithmetic::mul::lemma_mul_is_commutative(threads, server);
    assert(server < servers) by (nonlinear_arith)
        requires
            threads * server <= i,
            i < servers * threads,
            threads > 0,
    ;
    if thread + 1 < threads {
        vstd::arithmetic::div_mod::lemma_fundamental_div_mod_converse(
            i + 1,
            threads,
            server,
            thread + 1,
        );
    } else {
        assert((server + 1) * threads == server * threads + threads) by (nonlinear_arith);
        vstd::arithmetic::div_mod::lemma_fundamental_div_mod_converse(
            i + 1,
            threads,
            server + 1,
            0,
        );
    }
}

/// The heap is shared out in equal parts: the first server's starts where the heap does, and each
/// other one where the part before it ends. So no two servers share an address.
pub proof fn law_homes<F>(conf: &Conf<F>, server: int, other: int)
    ensures
        home_of(conf, 0) == conf.global_heap_start,
        home_of(conf, server + 1) == home_of(conf, server) + conf.worker_unit_size,
        home_of(conf, server) == conf.global_heap_start + server * conf.worker_unit_size,
        server < other ==> home_of(conf, server) + conf.worker_unit_size <= home_of(conf, other),
        conf.worker_unit_size > 0 && home_of(conf, server) == home_of(conf, other) ==> server
            == other,
{
    let size = conf.worker_unit_size as int;
    assert((server + 1) * size == server * size + size) by (nonlinear_arith);
    if server < other {
        assert((server + 1) * size <= other * size) by (nonlinear_arith)
            requires
                server < other,
                size >= 0,
        ;
    }
    if size > 0 && server * size == other * size {
        assert(server == other) by (nonlinear_arith)
            requires
                size > 0,
                server * size == other * size,
        ;
    }
}

/// A deployment can be scheduled where its threads can be counted and, if it has any, the address
/// of the last server can be told.
pub proof fn law_schedulable<F>(conf: &Conf<F>)
    ensures
        schedulable(conf) <==> {
            &&& conf.num_servers * conf.thread_num <= usize::MAX
            &&& conf.num_servers == 0 || conf.thread_num == 0 || conf.global_heap_start + (
            conf.num_servers - 1) * conf.worker_unit_size <= usize::MAX
        },
{
}

} // verus!
