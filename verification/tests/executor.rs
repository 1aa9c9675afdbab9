use rusty_vessel::data_structures::domain::{
    MergedStreamRef, StreamDefinition, StreamKind, StreamRef,
};
use rusty_vessel::data_structures::executor::{no_mean, Executor};
use rusty_vessel::data_structures::graph::GraphError;
use rusty_vessel::storage::blob::Blob;
use rusty_vessel::storage::data_page::PageWrite;
use rusty_vessel::storage::file_system::StorageError;
use rusty_vessel::storage::record::{decode_page, ByteOrder};
use rusty_vessel::streaming::aggregate_stream::AggregateStream;
use rusty_vessel::streaming::domain::Calc;
use rusty_vessel::streaming::stream::Stream;
use std::collections::BTreeMap;

const ORDER: ByteOrder = ByteOrder::Little;
const ROOT: StreamRef = StreamRef { id: 0 };

type Disk = BTreeMap<String, Vec<u8>>;

fn blob(time: i64, value: f64) -> Blob {
    Blob::new(time, value.to_bits())
}

fn mean(high: u64, low: u64, close: u64) -> u64 {
    ((f64::from_bits(high) + f64::from_bits(low) + f64::from_bits(close)) / 3.0).to_bits()
}

fn apply(disk: &mut Disk, log: &mut Vec<PageWrite>) {
    for write in log.drain(..) {
        disk.entry(write.file.path.clone()).or_default().extend_from_slice(&write.bytes);
    }
}

fn list(disk: &Disk, dir: &str) -> Vec<String> {
    let prefix = format!("{dir}/");
    disk.keys().filter_map(|path| path.strip_prefix(&prefix)).map(|name| name.to_string()).collect()
}

/// What the files of a stream hold, bucket by bucket.
fn stored(disk: &Disk, definition: &StreamDefinition) -> Vec<Blob> {
    let dir = Executor::stream_path("db", definition);
    let mut starts: Vec<i64> = list(disk, &dir).iter().map(|name| name.parse().unwrap()).collect();
    starts.sort();
    starts.iter().flat_map(|start| decode_page(&disk[&format!("{dir}/{start}")], ORDER)).collect()
}

/// Opens the storage of a stream and makes its node, as the executor's thread does.
fn make(disk: &Disk, stream: StreamRef, definition: &StreamDefinition) -> (Stream, i64) {
    let dir = Executor::stream_path("db", definition);
    let vessel = Executor::open_vessel("db", definition, ORDER, &list(disk, &dir)).unwrap();
    let tail = match vessel.last_file() {
        Some(handle) => disk.get(&handle.path).cloned().unwrap_or_default(),
        None => vec![],
    };
    Executor::create_stream(stream, definition, vessel, &tail).unwrap()
}

/// Attaches a stream and brings it up to date from each of its sources.
fn attach(
    executor: &mut Executor,
    disk: &mut Disk,
    sources: &Vec<StreamRef>,
    target: StreamRef,
    definition: &StreamDefinition,
) {
    let (stream, last) = make(disk, target, definition);
    executor.add(sources, target, stream).unwrap();
    let mut log = vec![];
    for source in sources {
        let mut scan = executor.replay(*source, last).unwrap();
        while let Some(handle) = executor.next_file(*source, &scan) {
            let raw = disk.get(&handle.path).cloned().unwrap_or_default();
            assert_eq!(executor.backfill(*source, target, &mut scan, &raw, &mean, &mut log), Ok(true));
        }
        assert_eq!(executor.backfill(*source, target, &mut scan, &[], &mean, &mut log), Ok(false));
    }
    executor.flush(&mut log);
    apply(disk, &mut log);
}

fn definition(path: &str, kind: StreamKind) -> StreamDefinition {
    StreamDefinition::new(path.to_string(), 100, kind)
}

fn start(disk: &Disk, roots: &[(StreamRef, &StreamDefinition)]) -> Executor {
    let mut executor = Executor::new(ROOT);
    for (stream, definition) in roots {
        let (node, last) = make(disk, *stream, definition);
        executor.add_root(*stream, node, last);
    }
    executor
}

#[test]
fn an_executor_without_roots_knows_no_time() {
    let executor = Executor::new(ROOT);
    assert_eq!(executor.get_last_time(), None);
    assert!(executor.get_stream(ROOT).is_none());
}

#[test]
fn the_last_time_is_the_earliest_of_the_roots() {
    let mut disk = Disk::new();
    let a = StreamRef::new(1);
    let b = StreamRef::new(2);
    let c = StreamRef::new(3);
    let def_a = definition("T/a", StreamKind::Source);
    let def_b = definition("T/b", StreamKind::Source);
    let def_c = definition("T/c", StreamKind::Source);
    let mut executor = start(&disk, &[(a, &def_a), (b, &def_b), (c, &def_c)]);
    assert_eq!(executor.get_last_time(), Some(0));
    let mut log = vec![];
    executor.send_data(a, vec![blob(10, 1.0), blob(250, 2.0)], &mean, &mut log).unwrap();
    executor.send_data(b, vec![blob(10, 1.0), blob(120, 2.0)], &mean, &mut log).unwrap();
    executor.send_data(c, vec![blob(10, 1.0), blob(330, 2.0)], &mean, &mut log).unwrap();
    executor.flush(&mut log);
    apply(&mut disk, &mut log);
    let restarted = start(&disk, &[(a, &def_a), (b, &def_b), (c, &def_c)]);
    assert_eq!(restarted.get_last_time(), Some(120));
    let other = start(&disk, &[(c, &def_c), (a, &def_a)]);
    assert_eq!(other.get_last_time(), Some(250));
}

#[test]
fn data_reaches_the_source_and_what_is_derived_from_it() {
    let mut disk = Disk::new();
    let close = StreamRef::new(1);
    let max = StreamRef::new(2);
    let def_close = definition("T/close", StreamKind::Source);
    let def_max = definition("T/max", StreamKind::Aggregate(Calc::Max, 3, 1));
    let mut executor = start(&disk, &[(close, &def_close)]);
    attach(&mut executor, &mut disk, &vec![close], max, &def_max);
    let mut log = vec![];
    let batch = vec![blob(0, 5.0), blob(1, 9.0), blob(2, 3.0)];
    assert_eq!(executor.send_data(close, batch.clone(), &mean, &mut log), Ok(()));
    executor.flush(&mut log);
    apply(&mut disk, &mut log);
    assert_eq!(stored(&disk, &def_close), batch);
    assert_eq!(stored(&disk, &def_max), vec![blob(0, 9.0)]);
}

#[test]
fn backfill_emits_what_a_fresh_node_emits_for_the_same_samples() {
    let mut disk = Disk::new();
    let close = StreamRef::new(1);
    let last = StreamRef::new(2);
    let def_close = definition("T/close", StreamKind::Source);
    let def_last = definition("T/last", StreamKind::Aggregate(Calc::Last, 4, 25));
    let mut executor = start(&disk, &[(close, &def_close)]);
    let history: Vec<Blob> = (1..40).map(|i| blob(i * 25, ((i * 13) % 17) as f64)).collect();
    let mut log = vec![];
    executor.send_data(close, history.clone(), &mean, &mut log).unwrap();
    executor.flush(&mut log);
    apply(&mut disk, &mut log);
    attach(&mut executor, &mut disk, &vec![close], last, &def_last);

    let vessel = Executor::open_vessel("other", &def_last, ORDER, &vec![]).unwrap();
    let mut fresh = AggregateStream::new(last, Calc::Last, vessel, 4, 25);
    let direct = fresh.on_next(close, history, &mut log).unwrap();
    assert_eq!(direct.len(), 9);
    assert_eq!(direct[0], blob(100, 6.0));
    assert_eq!(stored(&disk, &def_last), direct);
}

#[test]
fn backfill_begins_behind_the_time_of_the_target() {
    let mut disk = Disk::new();
    let close = StreamRef::new(1);
    let copy = StreamRef::new(2);
    let def_close = definition("T/close", StreamKind::Source);
    let def_copy = definition("T/copy", StreamKind::Source);
    let mut executor = start(&disk, &[(close, &def_close)]);
    let mut log = vec![];
    executor.send_data(close, vec![blob(0, 1.0), blob(50, 2.0), blob(150, 3.0)], &mean, &mut log).unwrap();
    executor.flush(&mut log);
    apply(&mut disk, &mut log);
    attach(&mut executor, &mut disk, &vec![close], copy, &def_copy);
    assert_eq!(stored(&disk, &def_copy), vec![blob(50, 2.0), blob(150, 3.0)]);
}

#[test]
fn a_merge_is_attached_to_all_of_its_inputs() {
    let mut disk = Disk::new();
    let high = StreamRef::new(1);
    let low = StreamRef::new(2);
    let close = StreamRef::new(3);
    let hlc3 = StreamRef::new(4);
    let def_high = definition("T/high", StreamKind::Source);
    let def_low = definition("T/low", StreamKind::Source);
    let def_close = definition("T/close", StreamKind::Source);
    let def_hlc3 = definition("T/hlc3", StreamKind::Merge(MergedStreamRef::Hlc3 { high, low, close }));
    let mut executor = start(&disk, &[(high, &def_high), (low, &def_low), (close, &def_close)]);
    attach(&mut executor, &mut disk, &vec![high, low, close], hlc3, &def_hlc3);
    let mut log = vec![];
    for time in [100_i64, 200, 300] {
        executor.send_data(high, vec![blob(time, 10.0)], &mean, &mut log).unwrap();
        executor.send_data(low, vec![blob(time, 4.0)], &mean, &mut log).unwrap();
        executor.send_data(close, vec![blob(time, 7.0)], &mean, &mut log).unwrap();
    }
    executor.flush(&mut log);
    apply(&mut disk, &mut log);
    assert_eq!(stored(&disk, &def_hlc3), vec![blob(100, 7.0), blob(200, 7.0), blob(300, 7.0)]);
}

#[test]
fn a_stream_cannot_be_attached_to_what_is_not_there() {
    let disk = Disk::new();
    let close = StreamRef::new(2);
    let def_close = definition("T/close", StreamKind::Source);
    let mut executor = start(&disk, &[(close, &def_close)]);
    let missing = StreamRef::new(1);
    let target = StreamRef::new(3);
    let (node, _) = make(&disk, target, &definition("T/copy", StreamKind::Source));
    assert_eq!(
        executor.add(&vec![close, missing, close], target, node),
        Err(GraphError::UnknownNode(missing))
    );
    assert!(executor.get_stream(target).is_some());
    let (node, _) = make(&disk, missing, &definition("T/early", StreamKind::Source));
    assert_eq!(executor.add(&vec![close], missing, node), Ok(()));
    let (node, _) = make(&disk, close, &definition("T/close", StreamKind::Source));
    assert_eq!(executor.add(&vec![close], close, node), Err(GraphError::Cycle));
    assert!(executor.replay(StreamRef::new(9), 0).is_none());
    let mut log = vec![];
    assert_eq!(
        executor.send_data(StreamRef::new(9), vec![], &no_mean, &mut log),
        Err(GraphError::UnknownNode(StreamRef::new(9)))
    );
}

#[test]
fn a_stream_lies_below_the_root_of_the_store() {
    let def = definition("BTC/1min/close", StreamKind::Source);
    assert_eq!(Executor::stream_path("/var/db", &def), "/var/db/BTC/1min/close");
    let vessel = Executor::open_vessel("/var/db", &def, ORDER, &vec![]).unwrap();
    assert_eq!(vessel.path(), "/var/db/BTC/1min/close");
    assert_eq!(vessel.page_length(), 100);
}

#[test]
fn a_stream_that_cannot_be_opened_is_an_error() {
    let none = StreamDefinition::new("T/x".to_string(), 0, StreamKind::Source);
    assert_eq!(Executor::open_vessel("db", &none, ORDER, &vec![]).err(), Some(StorageError::BadPageLength));
    let def = definition("T/x", StreamKind::Source);
    let names = vec!["100".to_string(), "tmp".to_string()];
    assert_eq!(Executor::open_vessel("db", &def, ORDER, &names).err(), Some(StorageError::BadFileName(1)));
    let bad = definition("T/a", StreamKind::Aggregate(Calc::Max, 0, 5));
    let vessel = Executor::open_vessel("db", &bad, ORDER, &vec![]).unwrap();
    assert!(Executor::create_stream(StreamRef::new(1), &bad, vessel, &[]).is_none());
}

#[test]
fn no_mean_is_zero() {
    assert_eq!(no_mean(1, 2, 3), 0);
}

#[test]
fn an_aggregate_that_was_defined_before_its_source_is_attached() {
    let mut disk = Disk::new();
    let max = StreamRef::new(1);
    let close = StreamRef::new(2);
    let def_max = definition("T/max", StreamKind::Aggregate(Calc::Max, 3, 1));
    let def_close = definition("T/close", StreamKind::Source);
    let mut executor = start(&disk, &[(close, &def_close)]);
    attach(&mut executor, &mut disk, &vec![close], max, &def_max);
    let mut log = vec![];
    executor.send_data(close, vec![blob(3, 5.0), blob(4, 9.0), blob(5, 3.0)], &mean, &mut log).unwrap();
    executor.flush(&mut log);
    apply(&mut disk, &mut log);
    assert_eq!(stored(&disk, &def_max), vec![blob(3, 9.0)]);
}

#[test]
fn a_merge_is_brought_up_to_date_from_the_history_of_its_inputs() {
    let mut disk = Disk::new();
    let high = StreamRef::new(1);
    let low = StreamRef::new(2);
    let close = StreamRef::new(3);
    let hlc3 = StreamRef::new(4);
    let def_high = definition("T/high", StreamKind::Source);
    let def_low = definition("T/low", StreamKind::Source);
    let def_close = definition("T/close", StreamKind::Source);
    let def_hlc3 = definition("T/hlc3", StreamKind::Merge(MergedStreamRef::Hlc3 { high, low, close }));
    let mut executor = start(&disk, &[(high, &def_high), (low, &def_low), (close, &def_close)]);
    let mut log = vec![];
    for time in [10_i64, 50, 150] {
        executor.send_data(high, vec![blob(time, 10.0)], &mean, &mut log).unwrap();
        executor.send_data(low, vec![blob(time, 4.0)], &mean, &mut log).unwrap();
        executor.send_data(close, vec![blob(time, 7.0)], &mean, &mut log).unwrap();
    }
    executor.flush(&mut log);
    apply(&mut disk, &mut log);
    attach(&mut executor, &mut disk, &vec![high, low, close], hlc3, &def_hlc3);
    assert_eq!(stored(&disk, &def_hlc3), vec![blob(10, 7.0), blob(50, 7.0), blob(150, 7.0)]);
}
