use rusty_vessel::storage::blob::{data_gt, data_lt, Blob};
use rusty_vessel::storage::record::{
    decode_page, encode_page, get_word, put_word, to_signed, to_unsigned, ByteOrder, RECORD_SIZE,
};

fn blob(time: i64, value: f64) -> Blob {
    Blob::new(time, value.to_bits())
}

#[test]
fn a_record_is_sixteen_bytes() {
    assert_eq!(RECORD_SIZE, 16);
    let bytes = encode_page(&vec![blob(1, 2.0)], ByteOrder::Little);
    assert_eq!(bytes.len(), 16);
}

#[test]
fn little_endian_record_bytes() {
    let bytes = encode_page(&vec![blob(0x0102_0304_0506_0708, 1.0)], ByteOrder::Little);
    assert_eq!(
        bytes,
        vec![8, 7, 6, 5, 4, 3, 2, 1, 0, 0, 0, 0, 0, 0, 0xf0, 0x3f]
    );
}

#[test]
fn big_endian_record_bytes() {
    let bytes = encode_page(&vec![blob(0x0102_0304_0506_0708, 1.0)], ByteOrder::Big);
    assert_eq!(
        bytes,
        vec![1, 2, 3, 4, 5, 6, 7, 8, 0x3f, 0xf0, 0, 0, 0, 0, 0, 0]
    );
}

#[test]
fn records_agree_with_the_machine_order_of_std() {
    let order = if 1u16.to_ne_bytes()[0] == 1 {
        ByteOrder::Little
    } else {
        ByteOrder::Big
    };
    let time: i64 = -1_234_567;
    let value: f64 = 98.6;
    let bytes = encode_page(&vec![blob(time, value)], order);
    let mut expected = time.to_ne_bytes().to_vec();
    expected.extend_from_slice(&value.to_ne_bytes());
    assert_eq!(bytes, expected);
}

#[test]
fn a_page_round_trips_in_both_orders() {
    let blobs = vec![
        blob(0, 1.0),
        blob(-1, -0.0),
        blob(i64::MIN, f64::INFINITY),
        blob(i64::MAX, f64::MIN_POSITIVE),
        blob(60_000, 2.5),
    ];
    for order in [ByteOrder::Little, ByteOrder::Big] {
        let bytes = encode_page(&blobs, order);
        assert_eq!(bytes.len(), 16 * blobs.len());
        assert_eq!(decode_page(&bytes, order), blobs);
    }
}

#[test]
fn a_nan_keeps_its_bits() {
    let odd = Blob::new(7, 0x7ff8_0000_dead_beef);
    let bytes = encode_page(&vec![odd], ByteOrder::Big);
    assert_eq!(decode_page(&bytes, ByteOrder::Big), vec![odd]);
}

#[test]
fn an_empty_page_has_no_records() {
    assert_eq!(encode_page(&vec![], ByteOrder::Little), Vec::<u8>::new());
    assert_eq!(decode_page(&[], ByteOrder::Little), vec![]);
}

#[test]
fn a_partial_tail_ends_the_data() {
    let mut bytes = encode_page(&vec![blob(1, 1.0), blob(2, 2.0)], ByteOrder::Little);
    bytes.extend_from_slice(&[1, 2, 3, 4, 5, 6, 7, 8, 9]);
    assert_eq!(
        decode_page(&bytes, ByteOrder::Little),
        vec![blob(1, 1.0), blob(2, 2.0)]
    );
    assert_eq!(decode_page(&bytes[..15], ByteOrder::Little), vec![]);
    assert_eq!(decode_page(&bytes[..31], ByteOrder::Little), vec![blob(1, 1.0)]);
}

#[test]
fn the_other_order_reads_other_records() {
    let bytes = encode_page(&vec![blob(1, 1.0)], ByteOrder::Little);
    assert_ne!(decode_page(&bytes, ByteOrder::Big), vec![blob(1, 1.0)]);
}

#[test]
fn signed_and_unsigned_share_their_bits() {
    for time in [0_i64, 1, -1, i64::MIN, i64::MAX, -60_000] {
        assert_eq!(to_unsigned(time), time as u64);
        assert_eq!(to_signed(time as u64), time);
    }
}

#[test]
fn words_are_put_and_got() {
    let mut out = vec![0xaa];
    put_word(&mut out, 0x1122_3344_5566_7788, ByteOrder::Big);
    assert_eq!(out, vec![0xaa, 0x11, 0x22, 0x33, 0x44, 0x55, 0x66, 0x77, 0x88]);
    assert_eq!(get_word(&out, 1, ByteOrder::Big), 0x1122_3344_5566_7788);
    assert_eq!(get_word(&out, 1, ByteOrder::Little), 0x8877_6655_4433_2211);
}

#[test]
fn values_are_ordered_as_floats() {
    let samples = [
        f64::NEG_INFINITY,
        -1.5e300,
        -2.0,
        -1.0,
        -f64::MIN_POSITIVE,
        -0.0,
        0.0,
        f64::MIN_POSITIVE,
        1.0,
        2.0,
        9.0,
        1.5e300,
        f64::INFINITY,
        f64::NAN,
    ];
    for a in samples {
        for b in samples {
            assert_eq!(data_lt(a.to_bits(), b.to_bits()), a < b, "{a} < {b}");
            assert_eq!(data_gt(a.to_bits(), b.to_bits()), a > b, "{a} > {b}");
        }
    }
}

#[test]
fn nothing_is_less_than_a_nan() {
    let nan = 0xfff8_0000_0000_0001_u64;
    assert!(!data_lt(nan, 1.0_f64.to_bits()));
    assert!(!data_lt(1.0_f64.to_bits(), nan));
    assert!(!data_gt(nan, nan));
}
