use rusty_vessel::data_structures::domain::{
    Envelope, MergedStreamRef, Registry, StreamDefinition, StreamKind, StreamRef,
};
use rusty_vessel::storage::blob::Blob;
use rusty_vessel::storage::data_page::PageWrite;
use rusty_vessel::storage::record::{decode_page, ByteOrder};
use rusty_vessel::storage::vessel::Vessel;
use rusty_vessel::streaming::aggregate_stream::AggregateStream;
use rusty_vessel::streaming::basic_stream::{store, BasicStream, StreamError};
use rusty_vessel::streaming::domain::Calc;
use rusty_vessel::streaming::stream::{create_stream, Stream};
use std::hash::{Hash, Hasher};

const SOURCE: StreamRef = StreamRef { id: 0 };
const TARGET: StreamRef = StreamRef { id: 1 };

fn blob(time: i64, value: f64) -> Blob {
    Blob::new(time, value.to_bits())
}

fn vessel(dir: &str) -> Vessel {
    Vessel::new(dir.to_string(), 60_000, ByteOrder::Big, &vec![]).unwrap()
}

fn unused(_high: u64, _low: u64, _close: u64) -> u64 {
    0
}

fn stored(log: &[PageWrite]) -> Vec<Blob> {
    log.iter().flat_map(|write| decode_page(&write.bytes, ByteOrder::Big)).collect()
}

#[test]
fn a_source_stores_and_passes_on() {
    let mut stream = BasicStream::new(SOURCE, vessel("db/s"));
    let mut log = vec![];
    let batch = vec![blob(1, 1.0), blob(60_001, 2.0), blob(2, 3.0)];
    assert_eq!(stream.on_next(SOURCE, batch.clone(), &mut log), Ok(batch.clone()));
    stream.flush(&mut log);
    assert_eq!(stored(&log), batch);
    assert_eq!(stream.stream_def(), SOURCE);
    assert_eq!(stream.vessel().path(), "db/s");
}

#[test]
fn a_source_refuses_what_it_cannot_store() {
    let mut stream = BasicStream::new(SOURCE, vessel("db/s"));
    let mut log = vec![];
    assert_eq!(
        stream.on_next(SOURCE, vec![blob(1, 1.0), blob(i64::MIN, 2.0)], &mut log),
        Err(StreamError::TimestampOutOfRange)
    );
    assert!(log.is_empty());
    assert!(stream.vessel().pending().is_empty());
}

#[test]
fn store_hands_the_batch_back() {
    let mut target = vessel("db/s");
    let mut log = vec![];
    assert_eq!(store(&mut target, vec![blob(5, 1.0)], &mut log), Ok(vec![blob(5, 1.0)]));
    assert_eq!(target.pending(), vec![blob(5, 1.0)]);
}

#[test]
fn an_aggregate_stores_and_passes_on_what_it_emits() {
    let mut stream = AggregateStream::new(TARGET, Calc::Max, vessel("db/max"), 3, 1);
    let mut log = vec![];
    let batch = vec![blob(0, 5.0), blob(1, 9.0), blob(2, 3.0), blob(3, 1.0), blob(4, 2.0)];
    assert_eq!(stream.on_next(SOURCE, batch, &mut log), Ok(vec![blob(0, 9.0)]));
    assert_eq!(stream.on_next(SOURCE, vec![blob(5, 0.0)], &mut log), Ok(vec![blob(3, 2.0)]));
    assert_eq!(stream.on_next(SOURCE, vec![], &mut log), Ok(vec![]));
    stream.flush(&mut log);
    assert_eq!(stored(&log), vec![blob(0, 9.0), blob(3, 2.0)]);
    assert_eq!(stream.stream_def(), TARGET);
}

#[test]
fn a_node_is_made_after_the_kind_of_its_stream() {
    let source = create_stream(SOURCE, StreamKind::Source, vessel("db/s")).unwrap();
    assert!(matches!(source, Stream::Basic(_)));
    let kind = StreamKind::Aggregate(Calc::Last, 5, 60_000);
    let aggregate = create_stream(TARGET, kind, vessel("db/a")).unwrap();
    assert!(matches!(aggregate, Stream::Aggregate(_)));
    let inputs = MergedStreamRef::Hlc3 { high: SOURCE, low: SOURCE, close: SOURCE };
    let merged = create_stream(TARGET, StreamKind::Merge(inputs), vessel("db/m")).unwrap();
    assert!(matches!(merged, Stream::Merged(_)));
}

#[test]
fn a_window_that_cannot_be_kept_makes_no_node() {
    assert!(create_stream(TARGET, StreamKind::Aggregate(Calc::Max, 0, 1), vessel("db/a")).is_none());
    assert!(create_stream(TARGET, StreamKind::Aggregate(Calc::Max, 1, 0), vessel("db/a")).is_none());
    let wide = StreamKind::Aggregate(Calc::Max, usize::MAX, usize::MAX);
    assert!(create_stream(TARGET, wide, vessel("db/a")).is_none());
}

#[test]
fn every_node_takes_batches_by_one_interface() {
    let mut node = create_stream(TARGET, StreamKind::Aggregate(Calc::First, 2, 1), vessel("db/a")).unwrap();
    let mut log = vec![];
    let out = node.on_next(SOURCE, vec![blob(0, 10.0), blob(1, 20.0)], &unused, &mut log);
    assert_eq!(out, Ok(vec![blob(0, 10.0)]));
    assert_eq!(node.vessel().pending(), vec![blob(0, 10.0)]);
    node.flush(&mut log);
    assert_eq!(stored(&log), vec![blob(0, 10.0)]);
    assert_eq!(node.replay(60_000).bucket.unwrap().val, 60_000);
}

#[test]
fn definitions_and_envelopes_hold_what_they_are_given() {
    let definition = StreamDefinition::new("BTC/1min/close".to_string(), 60_000_000, StreamKind::Source);
    assert_eq!(definition.path, "BTC/1min/close");
    assert_eq!(definition.page_size, 60_000_000);
    assert_eq!(definition.stream_kind, StreamKind::Source);
    assert_eq!(StreamRef::new(7).id, 7);
    let data = Envelope::Data(SOURCE, vec![blob(1, 1.0)]);
    assert!(matches!(data, Envelope::Data(source, ref batch) if source == SOURCE && batch.len() == 1));
    assert!(matches!(Envelope::Add(vec![SOURCE], TARGET), Envelope::Add(_, target) if target == TARGET));
    assert!(matches!(Envelope::Flush, Envelope::Flush));
}

#[test]
fn a_registry_hands_out_handles_in_order() {
    let mut registry = Registry::new();
    assert_eq!(registry.len(), 0);
    assert!(registry.get(StreamRef::new(0)).is_none());
    let close = registry.register(StreamDefinition::new("T/close".to_string(), 100, StreamKind::Source));
    let kind = StreamKind::Aggregate(Calc::Last, 60, 60_000);
    let hourly = registry.register(StreamDefinition::new("T/hourly".to_string(), 100, kind));
    assert_eq!(close, StreamRef::new(0));
    assert_eq!(hourly, StreamRef::new(1));
    assert_eq!(registry.len(), 2);
    assert_eq!(registry.get(close).unwrap().path, "T/close");
    assert_eq!(registry.get(hourly).unwrap().stream_kind, kind);
    assert!(registry.get(StreamRef::new(2)).is_none());
}

#[test]
fn a_path_has_one_definition_and_one_handle() {
    let mut registry = Registry::new();
    let close = registry.register(StreamDefinition::new("T/close".to_string(), 100, StreamKind::Source));
    let other = registry.register(StreamDefinition::new("T/open".to_string(), 100, StreamKind::Source));
    let kind = StreamKind::Aggregate(Calc::Last, 60, 60_000);
    let again = registry.register(StreamDefinition::new("T/close".to_string(), 7, kind));
    assert_eq!(again, close);
    assert_ne!(other, close);
    assert_eq!(registry.len(), 2);
    assert_eq!(registry.get(close).unwrap().page_size, 100);
    assert_eq!(registry.find(&"T/open".to_string()), Some(other));
    assert_eq!(registry.find(&"T/none".to_string()), None);
}

#[test]
fn definitions_are_equal_by_their_path() {
    let kind = StreamKind::Aggregate(Calc::Last, 60, 60_000);
    let a = StreamDefinition::new("T/close".to_string(), 100, StreamKind::Source);
    let b = StreamDefinition::new("T/close".to_string(), 7, kind);
    let c = StreamDefinition::new("T/open".to_string(), 100, StreamKind::Source);
    assert!(a == b);
    assert!(a != c);
    assert!(b != c);
}

#[test]
fn definitions_of_one_path_hash_alike() {
    let digest = |definition: &StreamDefinition| {
        let mut hasher = std::collections::hash_map::DefaultHasher::new();
        definition.hash(&mut hasher);
        hasher.finish()
    };
    let kind = StreamKind::Aggregate(Calc::Last, 60, 60_000);
    let a = StreamDefinition::new("T/close".to_string(), 100, StreamKind::Source);
    let b = StreamDefinition::new("T/close".to_string(), 7, kind);
    let c = StreamDefinition::new("T/open".to_string(), 100, StreamKind::Source);
    assert_eq!(digest(&a), digest(&b));
    assert_ne!(digest(&a), digest(&c));
    let mut seen = std::collections::HashSet::new();
    assert!(seen.insert(a));
    assert!(!seen.insert(b));
    assert!(seen.insert(c));
}
