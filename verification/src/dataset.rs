//! The key trace: a CSV file with one key in the first column of each record.
use vstd::prelude::*;

use crate::conf::Conf;

verus! {

/// Why a trace could not be read.
#[derive(Debug, Clone, Copy, PartialEq, Eq, Structural)]
pub enum LoadError {
    /// The data is not a table of text fields.
    Malformed,
    /// The record with this index does not start with a key.
    NotAKey { record: usize },
}

/// The error of the `csv` crate.
#[verifier::external_type_specification]
#[verifier::external_body]
pub struct ExCsvError(csv::Error);

/// The error of parsing an integer.
#[verifier::external_type_specification]
#[verifier::external_body]
pub struct ExParseIntError(core::num::ParseIntError);

/// The records that `csv::Reader::records` finds in some data, each as its fields, or nothing
/// where one of them is an error.
pub uninterp spec fn csv_records(data: Seq<u8>) -> Option<Seq<Seq<Seq<char>>>>;

/// Calls `csv::Reader::from_reader` and `records`: all records after the header, or an error
/// where one of them is an error; which of them depends on the data alone.
#[verifier::external_body]
fn read_records(data: &[u8]) -> (records: Result<Vec<Vec<String>>, csv::Error>)
    ensures
        match records {
            Ok(records) => csv_records(data@) == Some(records.deep_view()),
            Err(_) => csv_records(data@) is None,
        },
{
    let mut reader = csv::Reader::from_reader(data);
    let records = reader.records();
    records.map(|record| record.map(|fields| fields.iter().map(String::from).collect())).collect()
}

/// `c` is one of the ten digits.
pub open spec fn is_digit(c: char) -> bool {
    '0' <= c && c <= '9'
}

/// The number that some digits stand for.
pub open spec fn digits_value(digits: Seq<char>) -> nat
    decreases digits.len(),
{
    if digits.len() == 0 {
        0
    } else {
        digits_value(digits.drop_last()) * 10 + (digits.last() as nat - '0' as nat) as nat
    }
}

/// One digit or more, and nothing else.
pub open spec fn all_digits(text: Seq<char>) -> bool {
    &&& text.len() > 0
    &&& forall|i: int| 0 <= i < text.len() ==> is_digit(#[trigger] text[i])
}

/// The number that a text stands for: digits, at least one, with a plus sign before them or not.
pub open spec fn decimal(text: Seq<char>) -> Option<nat> {
    let digits = if text.len() > 1 && text[0] == '+' {
        text.skip(1)
    } else {
        text
    };
    if all_digits(digits) {
        Some(digits_value(digits))
    } else {
        None
    }
}

/// Calls `str::parse::<usize>`: the number that the text stands for, where it stands for one
/// that a `usize` can hold.
#[verifier::external_body]
fn parse_usize(text: &str) -> (number: Result<usize, core::num::ParseIntError>)
    ensures
        match (number, decimal(text@)) {
            (Ok(n), Some(value)) => n == value,
            (Ok(_), None) => false,
            (Err(_), Some(value)) => value > usize::MAX,
            (Err(_), None) => true,
        },
{
    text.parse::<usize>()
}

/// The key of a record.
pub open spec fn record_key(fields: Seq<Seq<char>>) -> Option<usize> {
    if fields.len() == 0 {
        None
    } else {
        match decimal(fields[0]) {
            Some(value) if value <= usize::MAX => Some(value as usize),
            _ => None,
        }
    }
}

/// `i` is the first record without a key.
pub open spec fn first_without_key(records: Seq<Seq<Seq<char>>>, i: int) -> bool {
    &&& 0 <= i < records.len()
    &&& record_key(records[i]) is None
    &&& forall|j: int| 0 <= j < i ==> record_key(#[trigger] records[j]) is Some
}

/// The keys of all records, in order.
pub open spec fn keys_of(records: Seq<Seq<Seq<char>>>) -> Result<Seq<usize>, LoadError> {
    if forall|i: int| 0 <= i < records.len() ==> record_key(#[trigger] records[i]) is Some {
        Ok(Seq::new(records.len(), |i: int| record_key(records[i])->0))
    } else {
        let record = choose|i: int| first_without_key(records, i);
        Err(LoadError::NotAKey { record: record as usize })
    }
}

/// The keys of a trace, in order.
pub open spec fn trace_keys(data: Seq<u8>) -> Result<Seq<usize>, LoadError> {
    match csv_records(data) {
        Some(records) => keys_of(records),
        None => Err(LoadError::Malformed),
    }
}

/// The keys of all records, in order.
pub fn parse_keys(records: &Vec<Vec<String>>) -> (keys: Result<Vec<usize>, LoadError>)
    ensures
        match keys {
            Ok(keys) => keys_of(records.deep_view()) == Ok::<Seq<usize>, LoadError>(keys@),
            Err(error) => keys_of(records.deep_view()) == Err::<Seq<usize>, LoadError>(error),
        },
        match keys {
            Ok(keys) => {
                &&& keys@.len() == records@.len()
                &&& forall|i: int|
                    #![trigger keys@[i]]
                    0 <= i < keys@.len() ==> records.deep_view()[i].len() > 0 && decimal(
                        records.deep_view()[i][0],
                    ) == Some(keys@[i] as nat)
            },
            Err(LoadError::NotAKey { record }) => {
                let wrong = records.deep_view()[record as int];
                &&& record < records@.len()
                &&& wrong.len() > 0 && decimal(wrong[0]) is Some ==> decimal(wrong[0])->0
                    > usize::MAX
                &&& forall|i: int|
                    #![trigger records.deep_view()[i]]
                    0 <= i < record ==> records.deep_view()[i].len() > 0 && decimal(
                        records.deep_view()[i][0],
                    ) is Some && decimal(records.deep_view()[i][0])->0 <= usize::MAX
            },
            Err(LoadError::Malformed) => false,
        },
{
    let ghost fields = records.deep_view();
    let mut keys: Vec<usize> = Vec::new();
    let mut i: usize = 0;
    while i < records.len()
        invariant
            i <= records@.len(),
            fields == records.deep_view(),
            keys@.len() == i,
            forall|j: int|
                0 <= j < i ==> record_key(#[trigger] fields[j]) == Some(keys@[j]),
        decreases records@.len() - i,
    {
        let record = &records[i];
        assert(fields[i as int] == record.deep_view());
        let key = if record.len() == 0 {
            None
        } else {
            assert(record.deep_view()[0] == record@[0]@);
            match parse_usize(record[0].as_str()) {
                Ok(key) => Some(key),
                Err(_) => None,
            }
        };
        assert(key == record_key(fields[i as int]));
        match key {
            Some(key) => keys.push(key),
            None => {
                assert(first_without_key(fields, i as int));
                assert(forall|r: int| first_without_key(fields, r) ==> r == i);
                assert(forall|j: int| 0 <= j < i ==> record_key(#[trigger] fields[j]) is Some);
                return Err(LoadError::NotAKey { record: i });
            },
        }
        i = i + 1;
    }
    assert(keys@ =~= keys_of(fields)->Ok_0);
    assert forall|j: int| 0 <= j < keys@.len() implies fields[j].len() > 0 && decimal(fields[j][0])
        == Some(#[trigger] keys@[j] as nat) by {
        assert(record_key(fields[j]) == Some(keys@[j]));
    }
    Ok(keys)
}

/// The keys of a trace, in order.
pub fn load_keys(data: &[u8]) -> (keys: Result<Vec<usize>, LoadError>)
    ensures
        match keys {
            Ok(keys) => trace_keys(data@) == Ok::<Seq<usize>, LoadError>(keys@),
            Err(error) => trace_keys(data@) == Err::<Seq<usize>, LoadError>(error),
        },
        keys matches Err(LoadError::Malformed) <==> csv_records(data@) is None,
        keys matches Ok(keys) ==> {
            &&& csv_records(data@) is Some
            &&& keys@.len() == csv_records(data@)->0.len()
            &&& forall|i: int|
                #![trigger keys@[i]]
                0 <= i < keys@.len() ==> decimal(csv_records(data@)->0[i][0]) == Some(
                    keys@[i] as nat,
                )
        },
        keys matches Err(LoadError::NotAKey { record }) ==> {
            let records = csv_records(data@)->0;
            let wrong = records[record as int];
            &&& csv_records(data@) is Some
            &&& record < records.len()
            &&& wrong.len() > 0 && decimal(wrong[0]) is Some ==> decimal(wrong[0])->0 > usize::MAX
            &&& forall|i: int|
                #![trigger records[i]]
                0 <= i < record ==> records[i].len() > 0 && decimal(records[i][0]) is Some
                    && decimal(records[i][0])->0 <= usize::MAX
        },
{
    proof {
        law_trace_keys(data@);
    }
    match read_records(data) {
        Ok(records) => parse_keys(&records),
        Err(_) => Err(LoadError::Malformed),
    }
}

/// The number of operations in a trace: one for each record.
pub fn count_ops(data: &[u8]) -> (ops: Result<u64, LoadError>)
    ensures
        ops == (match csv_records(data@) {
            Some(records) => Ok::<u64, LoadError>(records.len() as u64),
            None => Err(LoadError::Malformed),
        }),
        ops matches Ok(n) ==> csv_records(data@)->0.len() == n,
{
    match read_records(data) {
        Ok(records) => Ok(records.len() as u64),
        Err(_) => Err(LoadError::Malformed),
    }
}

/// The keys that one thread works on.
pub open spec fn partition<F: Fn(usize) -> usize>(
    conf: &Conf<F>,
    keys: Seq<usize>,
    server: int,
    thread: int,
) -> Seq<usize> {
    keys.filter(|key: usize| conf.owner_of(conf.bucket_of(key) as int) == (server, thread))
}

/// A key of a partition is one of the keys, and the partition's thread owns its bucket.
pub proof fn lemma_partition_owner<F: Fn(usize) -> usize>(
    conf: &Conf<F>,
    keys: Seq<usize>,
    server: int,
    thread: int,
    key: usize,
)
    requires
        partition(conf, keys, server, thread).contains(key),
    ensures
        keys.contains(key),
        conf.owner_of(conf.bucket_of(key) as int) == (server, thread),
{
    let mine = |key: usize| conf.owner_of(conf.bucket_of(key) as int) == (server, thread);
    keys.lemma_filter_contains_rev(mine, key);
    let i = choose|i: int| 0 <= i < keys.filter(mine).len() && keys.filter(mine)[i] == key;
    keys.lemma_filter_pred(mine, i);
}

/// The keys that one thread works on, in the order of the trace.
pub fn select_partition<F: Fn(usize) -> usize>(
    conf: &Conf<F>,
    keys: &[usize],
    server: usize,
    thread: usize,
) -> (selected: Vec<usize>)
    requires
        conf.places_keys(),
        conf.has_units(),
    ensures
        selected@ == partition(conf, keys@, server as int, thread as int),
        forall|i: int| 0 <= i < keys@.len() ==> conf.placed(#[trigger] keys@[i]),
        forall|key: usize|
            #[trigger] selected@.contains(key) <==> {
                &&& keys@.contains(key)
                &&& conf.bucket_of(key) / conf.unit_bucket_num == server
                &&& (conf.bucket_of(key) % conf.unit_bucket_num) / conf.unit_thread_bucket_num
                    == thread
            },
{
    let ghost mine = |key: usize|
        conf.owner_of(conf.bucket_of(key) as int) == (server as int, thread as int);
    let mut selected: Vec<usize> = Vec::new();
    let mut i: usize = 0;
    assert(keys@.take(0).filter(mine) =~= Seq::<usize>::empty()) by {
        reveal(Seq::filter);
    }
    while i < keys.len()
        invariant
            i <= keys@.len(),
            conf.places_keys(),
            conf.has_units(),
            mine == (|key: usize|
                conf.owner_of(conf.bucket_of(key) as int) == (server as int, thread as int)),
            selected@ == keys@.take(i as int).filter(mine),
            forall|j: int| 0 <= j < i ==> conf.placed(#[trigger] keys@[j]),
        decreases keys@.len() - i,
    {
        let key = keys[i];
        let (s, t) = conf.owner(conf.bucket(key));
        proof {
            reveal(Seq::filter);
            assert(keys@.take(i + 1).drop_last() =~= keys@.take(i as int));
            assert(keys@.take(i + 1).last() == key);
        }
        if s == server && t == thread {
            selected.push(key);
        }
        i = i + 1;
    }
    assert(keys@.take(keys@.len() as int) =~= keys@);
    assert forall|key: usize|
        #[trigger] selected@.contains(key) <==> {
            &&& keys@.contains(key)
            &&& conf.bucket_of(key) / conf.unit_bucket_num == server
            &&& (conf.bucket_of(key) % conf.unit_bucket_num) / conf.unit_thread_bucket_num == thread
        } by {
        lemma_partition_contains(conf, keys@, server as int, thread as int, key);
    }
    selected
}

/// The keys of a trace that one thread works on, in the order of the trace.
pub fn load_partition_keys<F: Fn(usize) -> usize>(
    conf: &Conf<F>,
    data: &[u8],
    server: usize,
    thread: usize,
) -> (keys: Result<Vec<usize>, LoadError>)
    requires
        conf.places_keys(),
        conf.has_units(),
    ensures
        match (keys, trace_keys(data@)) {
            (Ok(keys), Ok(all)) => keys@ == partition(conf, all, server as int, thread as int),
            (Err(error), Err(reason)) => error == reason,
            _ => false,
        },
{
    match load_keys(data) {
        Ok(keys) => Ok(select_partition(conf, &keys, server, thread)),
        Err(error) => Err(error),
    }
}

/// A key is in a partition exactly where it is one of the keys and the thread owns its bucket.
proof fn lemma_partition_contains<F: Fn(usize) -> usize>(
    conf: &Conf<F>,
    keys: Seq<usize>,
    server: int,
    thread: int,
    key: usize,
)
    ensures
        partition(conf, keys, server, thread).contains(key) <==> keys.contains(key)
            && conf.owner_of(conf.bucket_of(key) as int) == (server, thread),
{
    let mine = |key: usize| conf.owner_of(conf.bucket_of(key) as int) == (server, thread);
    if partition(conf, keys, server, thread).contains(key) {
        lemma_partition_owner(conf, keys, server, thread, key);
    }
    if keys.contains(key) && mine(key) {
        let i = choose|i: int| 0 <= i < keys.len() && keys[i] == key;
        keys.lemma_filter_contains(mine, i);
    }
}

/// Digits are read from left to right: one more digit makes the number ten times as large and
/// adds the digit. A plus sign before the digits changes nothing, and any other character, or no
/// digit at all, makes the text no number.
pub proof fn law_decimal(text: Seq<char>, c: char)
    ensures
        decimal(Seq::<char>::empty()) is None,
        decimal(seq![c]) == (if '0' <= c && c <= '9' {
            Some((c as nat - '0' as nat) as nat)
        } else {
            None
        }),
        decimal(text) is Some ==> decimal(text.push(c)) == (if '0' <= c && c <= '9' {
            Some(decimal(text)->0 * 10 + (c as nat - '0' as nat) as nat)
        } else {
            None
        }),
        text.len() > 0 && text[0] != '+' ==> decimal(seq!['+'] + text) == decimal(text),
        text.len() > 0 && text[0] != '+' && !('0' <= text[0] && text[0] <= '9') ==> decimal(text)
            is None,
        (exists|i: int|
            0 < i < text.len() && !('0' <= #[trigger] text[i] && text[i] <= '9')) ==> decimal(text)
            is None,
{
    let one = seq![c];
    assert(one.drop_last() =~= Seq::<char>::empty());
    reveal_with_fuel(digits_value, 2);
    assert(one[0] == c && one.last() == c);
    if '0' <= c && c <= '9' {
        assert(forall|i: int| 0 <= i < one.len() ==> is_digit(#[trigger] one[i]));
    } else {
        assert(!is_digit(one[0]));
    }
    let signed = text.len() > 1 && text[0] == '+';
    let digits: Seq<char> = if signed {
        text.skip(1)
    } else {
        text
    };
    if decimal(text) is Some {
        let more = text.push(c);
        assert(all_digits(digits));
        assert(is_digit(digits[0]));
        assert(text[0] == '+' ==> signed);
        let more_digits = if more.len() > 1 && more[0] == '+' {
            more.skip(1)
        } else {
            more
        };
        assert(more_digits =~= digits.push(c));
        assert(more_digits.drop_last() =~= digits);
        assert(more_digits.last() == c);
        if is_digit(c) {
            assert forall|i: int| 0 <= i < more_digits.len() implies is_digit(
                #[trigger] more_digits[i],
            ) by {
                if i < digits.len() {
                    assert(more_digits[i] == digits[i]);
                }
            }
        } else {
            assert(!is_digit(more_digits[more_digits.len() - 1]));
        }
    }
    if text.len() > 0 && text[0] != '+' {
        assert((seq!['+'] + text).skip(1) =~= text);
        if !('0' <= text[0] && text[0] <= '9') {
            assert(!is_digit(text[0]));
        }
    }
    if exists|i: int| 0 < i < text.len() && !('0' <= #[trigger] text[i] && text[i] <= '9') {
        let i = choose|i: int| 0 < i < text.len() && !('0' <= #[trigger] text[i] && text[i] <= '9');
        if signed {
            assert(!is_digit(digits[i - 1]));
        } else {
            assert(!is_digit(digits[i]));
        }
    }
}

/// Where the keys of a trace can be read, there are as many as the trace has records, and each is
/// the number in the first field of its record. Where they cannot, the data has no records, or
/// the first record that does not start with a number that fits is named.
pub proof fn law_trace_keys(data: Seq<u8>)
    ensures
        trace_keys(data) == Err::<Seq<usize>, LoadError>(LoadError::Malformed) <==> csv_records(
            data,
        ) is None,
        trace_keys(data) matches Ok(keys) ==> {
            &&& csv_records(data) is Some
            &&& keys.len() == csv_records(data)->0.len()
            &&& forall|i: int|
                #![trigger keys[i]]
                0 <= i < keys.len() ==> csv_records(data)->0[i].len() > 0 && decimal(
                    csv_records(data)->0[i][0],
                ) == Some(keys[i] as nat)
        },
        trace_keys(data) is Ok <==> {
            &&& csv_records(data) is Some
            &&& forall|i: int|
                #![trigger csv_records(data)->0[i]]
                0 <= i < csv_records(data)->0.len() ==> csv_records(data)->0[i].len() > 0
                    && decimal(csv_records(data)->0[i][0]) is Some && decimal(
                    csv_records(data)->0[i][0],
                )->0 <= usize::MAX
        },
{
    if let Some(records) = csv_records(data) {
        if trace_keys(data) is Ok {
            let keys = trace_keys(data)->Ok_0;
            assert forall|i: int| 0 <= i < keys.len() implies records[i].len() > 0 && decimal(
                records[i][0],
            ) == Some(#[trigger] keys[i] as nat) by {
                assert(record_key(records[i]) is Some);
            }
            assert forall|i: int| 0 <= i < records.len() implies (#[trigger] records[i]).len() > 0
                && decimal(records[i][0]) is Some && decimal(records[i][0])->0 <= usize::MAX by {
                assert(record_key(records[i]) is Some);
            }
        }
    }
}

/// A partition is made key by key: a key at the end of the trace is at the end of the partition
/// of the thread whose unit holds its bucket, and of no other.
pub proof fn law_partition_key_by_key<F: Fn(usize) -> usize>(
    conf: &Conf<F>,
    keys: Seq<usize>,
    key: usize,
    server: int,
    thread: int,
)
    ensures
        partition(conf, Seq::<usize>::empty(), server, thread) == Seq::<usize>::empty(),
        partition(conf, keys.push(key), server, thread) == (if conf.bucket_of(key) as int
            / conf.unit_bucket_num as int == server && (conf.bucket_of(key) as int
            % conf.unit_bucket_num as int) / conf.unit_thread_bucket_num as int == thread {
            partition(conf, keys, server, thread).push(key)
        } else {
            partition(conf, keys, server, thread)
        }),
{
    reveal(Seq::filter);
    assert(keys.push(key).drop_last() =~= keys);
}

/// The partition of two traces one after the other is the two partitions one after the other.
pub proof fn law_partition_of_parts<F: Fn(usize) -> usize>(
    conf: &Conf<F>,
    first: Seq<usize>,
    second: Seq<usize>,
    server: int,
    thread: int,
)
    ensures
        partition(conf, first + second, server, thread) == partition(conf, first, server, thread)
            + partition(conf, second, server, thread),
    decreases second.len(),
{
    if second.len() == 0 {
        assert(first + second =~= first);
        law_partition_key_by_key(conf, first, 0, server, thread);
        assert(second =~= Seq::<usize>::empty());
        assert(partition(conf, first, server, thread) + Seq::<usize>::empty() =~= partition(
            conf,
            first,
            server,
            thread,
        ));
    } else {
        let rest = second.drop_last();
        law_partition_of_parts(conf, first, rest, server, thread);
        law_partition_key_by_key(conf, first + rest, second.last(), server, thread);
        law_partition_key_by_key(conf, rest, second.last(), server, thread);
        assert((first + rest).push(second.last()) =~= first + second);
        assert(rest.push(second.last()) =~= second);
        assert(partition(conf, first + second, server, thread) =~= partition(
            conf,
            first,
            server,
            thread,
        ) + partition(conf, second, server, thread));
    }
}

/// Reading keys fails at the first record that does not start with a number that fits, and names
/// it.
pub proof fn law_first_record_without_key(records: Seq<Seq<Seq<char>>>, i: int)
    requires
        0 <= i < records.len() <= usize::MAX,
        records[i].len() == 0 || decimal(records[i][0]) is None || decimal(records[i][0])->0
            > usize::MAX,
        forall|j: int|
            0 <= j < i ==> (#[trigger] records[j]).len() > 0 && decimal(records[j][0]) is Some
                && decimal(records[j][0])->0 <= usize::MAX,
    ensures
        keys_of(records) == Err::<Seq<usize>, LoadError>(
            LoadError::NotAKey { record: i as usize },
        ),
{
    assert(record_key(records[i]) is None);
    assert(first_without_key(records, i));
    assert(forall|r: int| first_without_key(records, r) ==> r == i);
}

} // verus!
