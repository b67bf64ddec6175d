use drust_apps::conf::Conf;
use drust_apps::dataset::{
    count_ops, load_keys, load_partition_keys, parse_keys, select_partition, LoadError,
};

fn sixteen(key: usize) -> usize {
    key % 16
}

fn conf() -> Conf<fn(usize) -> usize> {
    Conf {
        hash: sixteen,
        bucket_num: 16,
        num_servers: 2,
        thread_num: 2,
        unit_bucket_num: 8,
        unit_thread_bucket_num: 4,
        read_ratio: 9,
        global_heap_start: 0,
        worker_unit_size: 100,
    }
}

fn fields(records: &[&[&str]]) -> Vec<Vec<String>> {
    records.iter().map(|record| record.iter().map(|field| field.to_string()).collect()).collect()
}

#[test]
fn header_is_not_a_key() {
    assert_eq!(load_keys(b"key\n3\n20\n3\n"), Ok(vec![3, 20, 3]));
    assert_eq!(count_ops(b"key\n3\n20\n3\n"), Ok(3));
}

#[test]
fn only_the_first_column_counts() {
    assert_eq!(load_keys(b"key,weight\n3,x\n\"20\",y\n"), Ok(vec![3, 20]));
}

#[test]
fn empty_trace_has_no_keys() {
    assert_eq!(load_keys(b""), Ok(vec![]));
    assert_eq!(load_keys(b"key\n"), Ok(vec![]));
    assert_eq!(count_ops(b""), Ok(0));
}

#[test]
fn uneven_records_are_malformed() {
    assert_eq!(load_keys(b"key\n1\n2,3\n"), Err(LoadError::Malformed));
    assert_eq!(count_ops(b"key\n1\n2,3\n"), Err(LoadError::Malformed));
}

#[test]
fn bytes_that_are_no_text_are_malformed() {
    assert_eq!(load_keys(b"key\n1\n\xff\n"), Err(LoadError::Malformed));
    assert_eq!(
        load_partition_keys(&conf(), b"key\n\xff\n", 0, 0),
        Err(LoadError::Malformed)
    );
}

#[test]
fn text_that_is_no_key_is_named() {
    assert_eq!(load_keys(b"key\n1\n2\nx\n4\ny\n"), Err(LoadError::NotAKey { record: 2 }));
    assert_eq!(count_ops(b"key\n1\n2\nx\n4\ny\n"), Ok(5));
    assert_eq!(load_partition_keys(&conf(), b"key\n-1\n", 0, 0), Err(LoadError::NotAKey { record: 0 }));
}

#[test]
fn keys_are_decimal_numbers() {
    assert_eq!(parse_keys(&fields(&[&["0"], &["+7"], &["0042"]])), Ok(vec![0, 7, 42]));
    assert_eq!(
        parse_keys(&fields(&[&["18446744073709551615", "rest"]])),
        Ok(vec![18446744073709551615])
    );
    for text in ["", "+", "++1", "-0", " 1", "1 ", "1_0", "0x1", "1.0", "18446744073709551616"] {
        assert_eq!(parse_keys(&fields(&[&["5"], &[text]])), Err(LoadError::NotAKey { record: 1 }));
    }
}

#[test]
fn record_without_fields_has_no_key() {
    assert_eq!(parse_keys(&fields(&[&[]])), Err(LoadError::NotAKey { record: 0 }));
    assert_eq!(parse_keys(&fields(&[])), Ok(vec![]));
}

#[test]
fn partition_keeps_order_and_repeats() {
    let conf = conf();
    let keys = [9, 1, 17, 4, 33, 15, 1, 12];
    assert_eq!(select_partition(&conf, &keys, 0, 0), vec![1, 17, 33, 1]);
    assert_eq!(select_partition(&conf, &keys, 0, 1), vec![4]);
    assert_eq!(select_partition(&conf, &keys, 1, 0), vec![9]);
    assert_eq!(select_partition(&conf, &keys, 1, 1), vec![15, 12]);
    assert_eq!(select_partition(&conf, &keys, 2, 0), Vec::<usize>::new());
}

#[test]
fn partition_of_a_trace() {
    let conf = conf();
    assert_eq!(load_partition_keys(&conf, b"key\n9\n1\n17\n", 0, 0), Ok(vec![1, 17]));
    assert_eq!(load_partition_keys(&conf, b"key\n9\n1\n17\n", 1, 0), Ok(vec![9]));
}

#[test]
fn partitions_share_the_trace() {
    let conf = conf();
    let keys: Vec<usize> = (0..1000).map(|i| i * 37 % 211).collect();
    let mut shared = vec![];
    for server in 0..2 {
        for thread in 0..2 {
            shared.extend(select_partition(&conf, &keys, server, thread));
        }
    }
    let mut all = keys;
    all.sort();
    shared.sort();
    assert_eq!(shared, all);
}

#[test]
fn owners_own_their_ranges() {
    let conf = conf();
    for bucket in 0..16 {
        let (server, thread) = conf.owner(conf.bucket(bucket + 32));
        let (start, end) = conf.thread_range(server, thread);
        assert!(start <= bucket && bucket < end);
        assert_eq!(end - start, 4);
    }
    assert_eq!(conf.owner(13), (1, 1));
    assert_eq!(conf.thread_range(1, 1), (12, 16));
}

#[test]
fn last_range_ends_with_the_table() {
    let conf = Conf { bucket_num: 14, ..conf() };
    assert_eq!(conf.thread_range(1, 0), (8, 12));
    assert_eq!(conf.thread_range(1, 1), (12, 14));
}
