use drust_apps::conf::Conf;
use drust_apps::dataset::{load_partition_keys, LoadError};
use drust_apps::entry::{EMPTY, VALUE};
use drust_apps::feedgen::benchmark::{
    benchmark, populate_all, read_pass, read_passes, NUM_ITERATIONS,
};
use drust_apps::feedgen::dmap::{get, put, Destination, KVStore, MapRef};
use drust_apps::graph::{build_graph, Walks};
use rand::distributions::{Distribution, Uniform};
use rand::rngs::StdRng;
use rand::SeedableRng;

fn spread(key: usize) -> usize {
    key.wrapping_mul(7) % 16
}

fn conf() -> Conf<fn(usize) -> usize> {
    Conf {
        hash: spread,
        bucket_num: 16,
        num_servers: 2,
        thread_num: 2,
        unit_bucket_num: 8,
        unit_thread_bucket_num: 4,
        read_ratio: 9,
        global_heap_start: 0,
        worker_unit_size: 100,
    }
}

fn table() -> MapRef {
    MapRef { base: 4096, entries: KVStore::new(16) }
}

const TRACE: &[u8] = b"key\n1\n2\n3\n100\n17\n5\n2\n";

#[test]
fn populated_table_reads_value_everywhere() {
    let conf = conf();
    let graph = build_graph(2);
    let mut map = table();
    assert!(matches!(populate_all(&conf, &mut map, Destination::Local, TRACE), Ok(None)));
    for key in [1, 2, 3, 100, 17, 5] {
        assert_eq!(get(&conf, &map, key), VALUE);
    }
    assert_eq!(get(&conf, &map, 0), EMPTY);
    for server in 0..2 {
        for thread in 0..2 {
            let keys = load_partition_keys(&conf, TRACE, server, thread).unwrap();
            let walks = if keys.is_empty() { 0 } else { NUM_ITERATIONS };
            let made = benchmark(&conf, &map, &keys, server, thread, &graph);
            assert_eq!(made.ok().map(|made| made.picks.len()), Some(walks));
        }
    }
}

#[test]
fn remote_populate_is_one_transfer() {
    let conf = conf();
    let mut home = table();
    populate_all(&conf, &mut home, Destination::Local, TRACE).unwrap();
    let mut away = table();
    let transfer = populate_all(&conf, &mut away, Destination::Remote, TRACE).unwrap().unwrap();
    assert_eq!(transfer.offset, 4096);
    assert_eq!(transfer.len, 256);
    assert_eq!(transfer.entries.len(), 16);
    for bucket in 0..16 {
        assert_eq!(transfer.entries[bucket].key, home.entries[bucket].key);
        assert_eq!(transfer.entries[bucket].value, home.entries[bucket].value);
        assert_eq!(away.entries[bucket].value, EMPTY);
    }
}

#[test]
fn bad_trace_populates_nothing() {
    let conf = conf();
    let mut map = table();
    put(&conf, &mut map, Destination::Local, 1, [3; 8]);
    let failed = populate_all(&conf, &mut map, Destination::Local, b"key\nx\n");
    assert_eq!(failed.err(), Some(LoadError::NotAKey { record: 0 }));
    let failed = populate_all(&conf, &mut map, Destination::Local, b"key\n\xfe\n");
    assert_eq!(failed.err(), Some(LoadError::Malformed));
    assert_eq!(get(&conf, &map, 1), [3; 8]);
}

#[test]
fn wrong_value_is_reported() {
    let conf = conf();
    let graph = build_graph(2);
    let mut map = table();
    populate_all(&conf, &mut map, Destination::Local, TRACE).unwrap();
    put(&conf, &mut map, Destination::Local, 3, [9; 8]);
    // Bucket 5 is in the range [4, 8) of server 0, thread 1.
    let wrong = benchmark(&conf, &map, &[2, 1, 3, 0], 0, 1, &graph).err().unwrap();
    assert_eq!(wrong.server, 0);
    assert_eq!(wrong.thread, 1);
    assert_eq!(wrong.key, 3);
    assert_eq!(wrong.bucket, 5);
    assert_eq!((wrong.start_bucket, wrong.end_bucket), (4, 8));
    assert!(wrong.in_range);
    assert_eq!(wrong.got, [9; 8]);
    assert_eq!(wrong.expected, VALUE);
    let elsewhere = benchmark(&conf, &map, &[3], 1, 1, &graph).err().unwrap();
    assert_eq!((elsewhere.start_bucket, elsewhere.end_bucket), (12, 16));
    assert!(!elsewhere.in_range);
}

#[test]
fn every_thirty_second_read_is_followed_by_a_walk() {
    let conf = conf();
    let graph = build_graph(3);
    let mut map = table();
    populate_all(&conf, &mut map, Destination::Local, TRACE).unwrap();
    for (reads, walks) in [(0, 0), (1, 1), (32, 1), (33, 2), (64, 2), (100, 4)] {
        let keys = vec![5; reads];
        let mut rng = StdRng::seed_from_u64(1);
        let mut made = Walks::new();
        assert!(read_pass(&conf, &map, &keys, 0, 0, &graph, &mut rng, &mut made).is_ok());
        let (picks, expected) = draws(walks);
        assert_eq!(made.picks, picks);
        assert_eq!(made.visits[..], [walks; 128][..]);
        assert!(rng == expected);
    }
}

fn draws(walks: usize) -> (Vec<u32>, StdRng) {
    let dist = Uniform::from(0u32..u32::MAX);
    let mut rng = StdRng::seed_from_u64(1);
    let picks = (0..walks).map(|_| dist.sample(&mut rng)).collect();
    (picks, rng)
}

#[test]
fn passes_go_on_with_the_same_generator() {
    let conf = conf();
    let graph = build_graph(3);
    let mut map = table();
    populate_all(&conf, &mut map, Destination::Local, TRACE).unwrap();
    let keys = vec![5; 33];
    let (picks, expected) = draws(20);
    let mut rng = StdRng::seed_from_u64(1);
    let made = read_passes(&conf, &map, &keys, 0, 0, &graph, &mut rng).ok().unwrap();
    assert_eq!(made.picks, picks);
    assert!(rng == expected);
    let made = benchmark(&conf, &map, &keys, 0, 0, &graph).ok().unwrap();
    assert_eq!(made.picks, picks);
    assert_eq!(made.visits[..], [20; 128][..]);
}

#[test]
fn visits_follow_the_nodes_picked() {
    let conf = conf();
    let mut short = [0u8; 8192];
    short[0] = 5;
    short[5 * 64] = 5;
    let graph = [short, [0u8; 8192]];
    let mut map = table();
    populate_all(&conf, &mut map, Destination::Local, TRACE).unwrap();
    let (picks, _) = draws(NUM_ITERATIONS);
    let even = picks.iter().filter(|pick| *pick % 2 == 0).count();
    let made = benchmark(&conf, &map, &[5], 0, 0, &graph).ok().unwrap();
    assert_eq!(made.visits[0], NUM_ITERATIONS);
    assert_eq!(made.visits[5], even);
    assert_eq!(made.visits.iter().sum::<usize>(), NUM_ITERATIONS + even);
}

#[test]
fn failing_pass_stops_before_its_walk() {
    let conf = conf();
    let graph = build_graph(1);
    let map = table();
    let mut rng = StdRng::seed_from_u64(1);
    let mut made = Walks::new();
    assert!(read_pass(&conf, &map, &[5], 0, 0, &graph, &mut rng, &mut made).is_err());
    assert!(made.picks.is_empty());
    assert!(rng == StdRng::seed_from_u64(1));
}

#[test]
fn thread_without_keys_needs_no_graph() {
    let made = benchmark(&conf(), &table(), &[], 0, 0, &[]).ok().unwrap();
    assert!(made.picks.is_empty());
    assert_eq!(made.visits[..], [0; 128][..]);
}
