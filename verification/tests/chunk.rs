use rusty_vessel::storage::open_chunk::{Buffer, Record};

#[test]
fn a_buffer_counts_the_lines_it_takes() {
    let mut buffer = Buffer::new(2, 50);
    assert_eq!(buffer.count(), 2);
    assert_eq!(buffer.timestamp(), 50);
    assert_eq!(buffer.pending(), 0);
    buffer.push(60, "60|1.5".to_string());
    buffer.push(70, "70|2.5".to_string());
    assert_eq!(buffer.count(), 4);
    assert_eq!(buffer.timestamp(), 70);
    assert_eq!(buffer.pending(), 2);
}

#[test]
fn a_record_holds_a_timestamp_and_a_text() {
    let record = Record { timestamp: 60, data: "1.5".to_string() };
    assert_eq!(record.timestamp, 60);
    assert_eq!(record.data, "1.5");
}
