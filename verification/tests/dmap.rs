use drust_apps::conf::Conf;
use drust_apps::entry::{same_value, GlobalEntry, EMPTY, VALUE};
use drust_apps::feedgen::dmap::{get, populate_range, put, Destination, KVStore, MapRef};

const HEAP: usize = 1000;

fn eight(key: usize) -> usize {
    key % 8
}

fn conf() -> Conf<fn(usize) -> usize> {
    Conf {
        hash: eight,
        bucket_num: 8,
        num_servers: 2,
        thread_num: 2,
        unit_bucket_num: 4,
        unit_thread_bucket_num: 2,
        read_ratio: 9,
        global_heap_start: HEAP,
        worker_unit_size: 100,
    }
}

fn table() -> MapRef {
    MapRef { base: 2000, entries: KVStore::new(8) }
}

fn keys_of(map: &[GlobalEntry]) -> Vec<usize> {
    map.iter().map(|entry| entry.key).collect()
}

fn values_of(map: &[GlobalEntry]) -> Vec<[u8; 8]> {
    map.iter().map(|entry| entry.value).collect()
}

#[test]
fn new_table_is_empty() {
    let store = KVStore::new(5);
    assert_eq!(store.len(), 5);
    assert_eq!(keys_of(&store), vec![0; 5]);
    assert_eq!(values_of(&store), vec![[0u8; 8]; 5]);
    assert_eq!(KVStore::new(0).len(), 0);
}

#[test]
fn default_entry_is_empty() {
    let entry = GlobalEntry::default();
    assert_eq!(entry.key, 0);
    assert_eq!(entry.value, [0u8; 8]);
    assert_eq!(EMPTY, [0u8; 8]);
}

#[test]
fn value_is_eight_x() {
    assert_eq!(VALUE, [b'x'; 8]);
}

#[test]
fn values_compare_by_bytes() {
    assert!(same_value(&VALUE, &[b'x'; 8]));
    assert!(!same_value(&VALUE, &EMPTY));
    assert!(!same_value(&[1, 2, 3, 4, 5, 6, 7, 8], &[1, 2, 3, 4, 5, 6, 7, 9]));
}

#[test]
fn entry_takes_sixteen_bytes() {
    assert_eq!(std::mem::size_of::<GlobalEntry>(), 16);
    assert_eq!(table().bucket_addr(3), 2048);
}

#[test]
fn get_after_local_put() {
    let conf = conf();
    let mut map = table();
    assert!(put(&conf, &mut map, Destination::Local, 11, [7; 8]).is_none());
    assert_eq!(get(&conf, &map, 11), [7; 8]);
    assert_eq!(get(&conf, &map, 3), [7; 8]);
    assert_eq!(get(&conf, &map, 4), [0; 8]);
    assert_eq!(map.entries[3].key, 11);
    assert!(put(&conf, &mut map, Destination::Local, 3, [9; 8]).is_none());
    assert_eq!(get(&conf, &map, 11), [9; 8]);
    assert_eq!(map.entries[3].key, 3);
}

#[test]
fn remote_put_hands_the_write_back() {
    let conf = conf();
    let mut map = table();
    let transfer = put(&conf, &mut map, Destination::Remote, 11, [7; 8]).unwrap();
    assert_eq!(transfer.offset, 2048 - HEAP);
    assert_eq!(transfer.len, 16);
    assert_eq!(keys_of(&transfer.entries), vec![11]);
    assert_eq!(values_of(&transfer.entries), vec![[7; 8]]);
    assert_eq!(get(&conf, &map, 11), [0; 8]);
}

#[test]
fn local_populate_clears_and_fills_the_range() {
    let conf = conf();
    let mut map = table();
    for key in 0..8 {
        put(&conf, &mut map, Destination::Local, key + 80, [1; 8]);
    }
    let none = populate_range(&conf, &mut map, Destination::Local, 2, 6, &[3, 11, 5, 7, 1], VALUE);
    assert!(none.is_none());
    assert_eq!(keys_of(&map.entries), vec![80, 81, 0, 11, 0, 5, 86, 87]);
    assert_eq!(
        values_of(&map.entries),
        vec![[1; 8], [1; 8], EMPTY, VALUE, EMPTY, VALUE, [1; 8], [1; 8]]
    );
}

#[test]
fn remote_populate_sends_what_local_populate_writes() {
    let conf = conf();
    let keys = [3, 11, 5, 7, 1];
    let mut home = table();
    populate_range(&conf, &mut home, Destination::Local, 2, 6, &keys, VALUE);
    let mut away = table();
    let transfer = populate_range(&conf, &mut away, Destination::Remote, 2, 6, &keys, VALUE).unwrap();
    assert_eq!(transfer.offset, 2032 - HEAP);
    assert_eq!(transfer.len, 64);
    assert_eq!(keys_of(&transfer.entries), keys_of(&home.entries[2..6]));
    assert_eq!(values_of(&transfer.entries), values_of(&home.entries[2..6]));
    assert_eq!(keys_of(&away.entries), vec![0; 8]);
}

#[test]
fn populate_in_two_parts_is_populate_at_once() {
    let conf = conf();
    let keys = [1, 2, 3, 12, 15, 7];
    let mut parts = table();
    populate_range(&conf, &mut parts, Destination::Local, 1, 4, &keys, VALUE);
    populate_range(&conf, &mut parts, Destination::Local, 4, 8, &keys, VALUE);
    let mut whole = table();
    populate_range(&conf, &mut whole, Destination::Local, 1, 8, &keys, VALUE);
    assert_eq!(keys_of(&parts.entries), keys_of(&whole.entries));
    assert_eq!(values_of(&parts.entries), values_of(&whole.entries));
    assert_eq!(keys_of(&whole.entries), vec![0, 1, 2, 3, 12, 0, 0, 7]);
}

#[test]
fn populate_of_nothing_changes_nothing() {
    let conf = conf();
    let mut map = table();
    put(&conf, &mut map, Destination::Local, 4, VALUE);
    populate_range(&conf, &mut map, Destination::Local, 4, 4, &[4], EMPTY);
    assert_eq!(get(&conf, &map, 4), VALUE);
    let transfer = populate_range(&conf, &mut map, Destination::Remote, 4, 4, &[4], EMPTY).unwrap();
    assert_eq!(transfer.len, 0);
    assert!(transfer.entries.is_empty());
}
