use rusty_vessel::data_structures::domain::{MergedStreamRef, StreamRef};
use rusty_vessel::storage::blob::Blob;
use rusty_vessel::storage::data_page::PageWrite;
use rusty_vessel::storage::record::{decode_page, ByteOrder};
use rusty_vessel::storage::vessel::Vessel;
use rusty_vessel::streaming::basic_stream::StreamError;
use rusty_vessel::streaming::merged_stream::{MergedStream, StreamBuffer};
use std::collections::HashMap;

const HIGH: StreamRef = StreamRef { id: 1 };
const LOW: StreamRef = StreamRef { id: 2 };
const CLOSE: StreamRef = StreamRef { id: 3 };
const MERGED: StreamRef = StreamRef { id: 4 };

fn blob(time: i64, value: f64) -> Blob {
    Blob::new(time, value.to_bits())
}

fn mean(high: u64, low: u64, close: u64) -> u64 {
    ((f64::from_bits(high) + f64::from_bits(low) + f64::from_bits(close)) / 3.0).to_bits()
}

fn hlc3() -> MergedStreamRef {
    MergedStreamRef::Hlc3 { high: HIGH, low: LOW, close: CLOSE }
}

fn node() -> MergedStream {
    let vessel = Vessel::new("db/hlc3".to_string(), 60_000, ByteOrder::Little, &vec![]).unwrap();
    MergedStream::new(MERGED, hlc3(), vessel)
}

#[test]
fn hlc3_is_the_mean_under_the_timestamp_of_the_close() {
    let mut streams = HashMap::new();
    streams.insert(HIGH.id, blob(100, 10.0));
    streams.insert(LOW.id, blob(100, 4.0));
    streams.insert(CLOSE.id, blob(100, 7.0));
    assert_eq!(hlc3().get_func(&streams, &mean), blob(100, 7.0));
    assert_eq!(hlc3().calc_hlc3(HIGH, LOW, CLOSE, &streams, &mean), blob(100, 7.0));
    assert_eq!(hlc3().len(), 3);
}

#[test]
fn the_formula_gets_high_low_and_close_in_this_order() {
    let mut streams = HashMap::new();
    streams.insert(HIGH.id, Blob::new(5, 100));
    streams.insert(LOW.id, Blob::new(6, 20));
    streams.insert(CLOSE.id, Blob::new(7, 3));
    let digits = |high: u64, low: u64, close: u64| high + low + close;
    assert_eq!(hlc3().get_func(&streams, &digits), Blob::new(7, 123));
    let first = |high: u64, _low: u64, _close: u64| high;
    assert_eq!(hlc3().get_func(&streams, &first), Blob::new(7, 100));
}

#[test]
fn a_merge_knows_its_inputs() {
    assert!(hlc3().has_input(HIGH));
    assert!(hlc3().has_input(LOW));
    assert!(hlc3().has_input(CLOSE));
    assert!(!hlc3().has_input(MERGED));
}

#[test]
fn merge_emits_once_in_any_interleaving() {
    let orders = [
        [HIGH, LOW, CLOSE],
        [HIGH, CLOSE, LOW],
        [LOW, HIGH, CLOSE],
        [LOW, CLOSE, HIGH],
        [CLOSE, HIGH, LOW],
        [CLOSE, LOW, HIGH],
    ];
    let value = |source: StreamRef| if source == HIGH {
        10.0
    } else if source == LOW {
        4.0
    } else {
        7.0
    };
    for order in orders {
        let mut merged = node();
        let mut log: Vec<PageWrite> = vec![];
        let mut emitted = vec![];
        for source in order {
            let out = merged.on_next(source, vec![blob(60_000, value(source))], &mean, &mut log);
            emitted.extend(out.unwrap());
        }
        assert_eq!(emitted, vec![blob(60_000, 7.0)]);
        let again = merged.on_next(HIGH, vec![blob(60_000, 10.0)], &mean, &mut log).unwrap();
        assert_eq!(again, vec![]);
        merged.flush(&mut log);
        let stored: Vec<Blob> =
            log.iter().flat_map(|write| decode_page(&write.bytes, ByteOrder::Little)).collect();
        assert_eq!(stored, vec![blob(60_000, 7.0)]);
    }
}

#[test]
fn a_second_sample_of_a_source_takes_the_place_of_the_first() {
    let mut merged = node();
    let mut log = vec![];
    assert_eq!(merged.on_next(HIGH, vec![blob(1, 100.0)], &mean, &mut log), Ok(vec![]));
    assert_eq!(merged.on_next(HIGH, vec![blob(1, 10.0)], &mean, &mut log), Ok(vec![]));
    assert_eq!(merged.on_next(LOW, vec![blob(1, 4.0)], &mean, &mut log), Ok(vec![]));
    assert_eq!(merged.on_next(CLOSE, vec![blob(1, 7.0)], &mean, &mut log), Ok(vec![blob(1, 7.0)]));
}

#[test]
fn timestamps_are_correlated_apart() {
    let mut merged = node();
    let mut log = vec![];
    let highs = vec![blob(1, 3.0), blob(2, 30.0), blob(3, 300.0)];
    let lows = vec![blob(2, 30.0), blob(1, 3.0)];
    let closes = vec![blob(3, 300.0), blob(1, 3.0), blob(2, 30.0)];
    assert_eq!(merged.on_next(HIGH, highs, &mean, &mut log), Ok(vec![]));
    assert_eq!(merged.on_next(LOW, lows, &mean, &mut log), Ok(vec![]));
    assert_eq!(
        merged.on_next(CLOSE, closes, &mean, &mut log),
        Ok(vec![blob(1, 3.0), blob(2, 30.0)])
    );
    assert_eq!(merged.on_next(LOW, vec![blob(3, 300.0)], &mean, &mut log), Ok(vec![blob(3, 300.0)]));
}

#[test]
fn a_batch_of_a_stranger_is_refused() {
    let mut merged = node();
    let mut log = vec![];
    assert_eq!(
        merged.on_next(MERGED, vec![blob(1, 1.0)], &mean, &mut log),
        Err(StreamError::UnknownSource)
    );
    assert_eq!(merged.on_next(StreamRef::new(9), vec![], &mean, &mut log), Err(StreamError::UnknownSource));
    assert!(log.is_empty());
}

#[test]
fn a_merged_sample_that_cannot_be_stored_is_an_error() {
    let mut merged = node();
    let mut log = vec![];
    let early = i64::MIN + 3;
    assert_eq!(merged.on_next(HIGH, vec![blob(early, 1.0)], &mean, &mut log), Ok(vec![]));
    assert_eq!(merged.on_next(LOW, vec![blob(early, 1.0)], &mean, &mut log), Ok(vec![]));
    assert_eq!(
        merged.on_next(CLOSE, vec![blob(early, 1.0)], &mean, &mut log),
        Err(StreamError::TimestampOutOfRange)
    );
}

#[test]
fn a_buffer_hands_out_a_timestamp_when_it_is_complete() {
    let mut buffer = StreamBuffer::new(2);
    assert!(buffer.add(HIGH, blob(5, 1.0)).is_none());
    assert!(buffer.add(HIGH, blob(5, 2.0)).is_none());
    assert!(buffer.add(LOW, blob(6, 3.0)).is_none());
    assert_eq!(buffer.items.len(), 2);
    let done = buffer.add(LOW, blob(5, 4.0)).unwrap();
    assert_eq!(done.len(), 2);
    assert_eq!(done[&HIGH.id], blob(5, 2.0));
    assert_eq!(done[&LOW.id], blob(5, 4.0));
    assert_eq!(buffer.items.len(), 1);
    assert!(buffer.items.contains_key(&6));
    assert!(buffer.add(LOW, blob(5, 4.0)).is_none());
}

#[test]
fn a_buffer_of_one_source_hands_out_at_once() {
    let mut buffer = StreamBuffer::new(1);
    assert_eq!(buffer.add(CLOSE, blob(5, 1.0)).unwrap().len(), 1);
    assert!(buffer.items.is_empty());
    let mut none = StreamBuffer::new(0);
    assert!(none.add(CLOSE, blob(5, 1.0)).is_some());
}
