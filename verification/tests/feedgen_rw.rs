use drust_apps::conf::Conf;
use drust_apps::dataset::{load_partition_keys, LoadError};
use drust_apps::entry::{GlobalEntry, EMPTY, VALUE};
use drust_apps::feedgen_rw::benchmark::{choose_access, populate, Session, WrongValue};
use drust_apps::feedgen_rw::dmap::{get, put, Access, KVStore, Op};
use drust_apps::graph::build_graph;
use rand::distributions::{Distribution, Uniform};
use rand::rngs::StdRng;
use rand::SeedableRng;

fn spread(key: usize) -> usize {
    key.wrapping_mul(7) % 16
}

fn conf(read_ratio: i32) -> Conf<fn(usize) -> usize> {
    Conf {
        hash: spread,
        bucket_num: 16,
        num_servers: 2,
        thread_num: 2,
        unit_bucket_num: 8,
        unit_thread_bucket_num: 4,
        read_ratio,
        global_heap_start: 0,
        worker_unit_size: 100,
    }
}

fn is_get(access: &Access) -> bool {
    matches!(access.op, Op::Get)
}

const TRACE: &[u8] = b"key\n1\n2\n3\n100\n17\n5\n2\n";

#[test]
fn new_table_is_empty_too() {
    let store = KVStore::new(4);
    assert_eq!(store.len(), 4);
    assert!(store.iter().all(|entry| entry.key == 0 && entry.value == EMPTY));
}

#[test]
fn get_under_lock() {
    let access = get(&conf(5), 3);
    assert_eq!(access.bucket, 5);
    let mut entry = GlobalEntry { key: 8, value: [4; 8] };
    assert_eq!(access.perform(&mut entry), Some([4; 8]));
    assert_eq!((entry.key, entry.value), (8, [4; 8]));
}

#[test]
fn put_under_lock_and_read_back() {
    let access = put(&conf(5), 3, [6; 8]);
    assert_eq!(access.bucket, 5);
    let mut entry = GlobalEntry { key: 8, value: [4; 8] };
    assert_eq!(access.perform(&mut entry), None);
    assert_eq!((entry.key, entry.value), (3, [6; 8]));
    assert_eq!(get(&conf(5), 19).perform(&mut entry), Some([6; 8]));
}

#[test]
fn populate_writes_the_partition() {
    let conf = conf(5);
    for server in 0..2 {
        for thread in 0..2 {
            let keys = load_partition_keys(&conf, TRACE, server, thread).unwrap();
            let writes = populate(&conf, TRACE, server, thread).unwrap();
            assert_eq!(writes.len(), keys.len());
            for (write, key) in writes.iter().zip(keys) {
                assert_eq!(write.bucket, spread(key));
                let mut entry = GlobalEntry::default();
                write.perform(&mut entry);
                assert_eq!((entry.key, entry.value), (key, VALUE));
            }
        }
    }
}

#[test]
fn populate_passes_errors_on() {
    assert_eq!(populate(&conf(5), b"k\n?\n", 0, 0).err(), Some(LoadError::NotAKey { record: 0 }));
    assert_eq!(populate(&conf(5), b"k\n\xff\n", 0, 0).err(), Some(LoadError::Malformed));
}

#[test]
fn ratio_decides_between_read_and_write() {
    assert!(is_get(&choose_access(&conf(5), 3, 4)));
    assert!(!is_get(&choose_access(&conf(5), 3, 5)));
    for drawn in 0..10 {
        assert!(is_get(&choose_access(&conf(10), 3, drawn)));
        assert!(!is_get(&choose_access(&conf(0), 3, drawn)));
    }
}

#[test]
fn session_draws_reads_and_writes_from_its_seed() {
    let conf = conf(5);
    let graph = build_graph(1);
    let keys: Vec<usize> = (0..200).collect();
    let mut session = Session::new(keys.clone());
    let dist = Uniform::from(0..10i32);
    let mut rng = StdRng::seed_from_u64(2);
    for (op_idx, key) in keys.into_iter().enumerate() {
        let access = session.next_access(&conf).unwrap();
        assert!(session.is_pending());
        assert_eq!(access.bucket, spread(key));
        assert_eq!(is_get(&access), dist.sample(&mut rng) < 5);
        let mut entry = GlobalEntry { key: 0, value: VALUE };
        let read = access.perform(&mut entry);
        let visited = session.complete(&graph, read).unwrap();
        assert_eq!(visited, if op_idx % 32 == 0 { Some([1; 128]) } else { None });
        assert!(!session.is_pending());
    }
    assert!(session.next_access(&conf).is_none());
    assert!(session.next_access(&conf).is_none());
}

#[test]
fn session_walks_the_node_it_picks() {
    let conf = conf(0);
    let mut short = [0u8; 8192];
    short[0] = 5;
    short[5 * 64] = 5;
    let graph = [short, [0u8; 8192]];
    let dist = Uniform::from(0u32..u32::MAX);
    let mut rng = StdRng::seed_from_u64(1);
    let mut session = Session::new(vec![1; 500]);
    let mut op_idx = 0;
    while session.next_access(&conf).is_some() {
        let visited = session.complete(&graph, None).unwrap();
        if op_idx % 32 == 0 {
            let mut expected = [0u8; 128];
            expected[0] = 1;
            if dist.sample(&mut rng) % 2 == 0 {
                expected[5] = 1;
            }
            assert_eq!(visited, Some(expected));
        } else {
            assert_eq!(visited, None);
        }
        op_idx += 1;
    }
    assert_eq!(op_idx, 500);
}

#[test]
fn fills_of_two_threads_commute_and_repeat() {
    let conf = conf(5);
    let runs = [vec![(0, 0), (1, 1)], vec![(1, 1), (0, 0)], vec![(0, 0), (1, 1), (1, 1), (0, 0)]];
    let mut tables = vec![];
    for run in runs {
        let mut table = KVStore::new(16);
        for (server, thread) in run {
            for write in populate(&conf, TRACE, server, thread).unwrap() {
                write.perform(&mut table[write.bucket]);
            }
        }
        tables.push(table.iter().map(|e| (e.key, e.value)).collect::<Vec<_>>());
    }
    assert!(tables[0].iter().any(|(_, value)| *value == VALUE));
    assert_eq!(tables[0], tables[1]);
    assert_eq!(tables[0], tables[2]);
}

#[test]
fn read_is_wrong_until_its_bucket_is_written() {
    let conf = conf(5);
    let mut table = KVStore::new(16);
    let early = get(&conf, 3);
    assert_eq!(early.perform(&mut table[early.bucket]), Some(EMPTY));
    let write = choose_access(&conf, 19, 9);
    assert_eq!(write.bucket, early.bucket);
    write.perform(&mut table[write.bucket]);
    assert_eq!(early.perform(&mut table[early.bucket]), Some(VALUE));
}

#[test]
fn wrong_read_stops_the_session() {
    let conf = conf(10);
    let graph = build_graph(1);
    let mut session = Session::new(vec![1, 2]);
    let access = session.next_access(&conf).unwrap();
    let mut entry = GlobalEntry::default();
    let read = access.perform(&mut entry);
    assert_eq!(session.complete(&graph, read), Err(WrongValue));
    assert!(session.is_pending());
}

#[test]
fn filled_table_never_reads_wrong_under_interleaving() {
    let conf = conf(5);
    let graph = build_graph(1);
    let mut table = KVStore::new(16);
    let mut sessions = vec![];
    for server in (0..2).rev() {
        for thread in 0..2 {
            for write in populate(&conf, TRACE, server, thread).unwrap() {
                write.perform(&mut table[write.bucket]);
            }
            sessions.push(Session::new(load_partition_keys(&conf, TRACE, server, thread).unwrap()));
        }
    }
    let mut made = 0;
    let mut busy = true;
    while busy {
        busy = false;
        let mut out = vec![];
        for session in sessions.iter_mut() {
            out.push(session.next_access(&conf));
        }
        for (session, access) in sessions.iter_mut().zip(out).rev() {
            if let Some(access) = access {
                busy = true;
                made += 1;
                let read = access.perform(&mut table[access.bucket]);
                assert!(session.complete(&graph, read).is_ok());
            }
        }
    }
    assert_eq!(made, 7);
}
