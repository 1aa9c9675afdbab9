use rusty_vessel::storage::blob::Blob;
use rusty_vessel::streaming::domain::{Aggregator, Calc};

fn blob(time: i64, value: f64) -> Blob {
    Blob::new(time, value.to_bits())
}

fn feed(aggregator: &mut Aggregator, blobs: &[Blob]) -> Vec<Blob> {
    blobs.iter().filter_map(|blob| aggregator.add(*blob)).collect()
}

#[test]
fn max_of_one_window() {
    let mut max = Aggregator::new(Calc::Max, 3, 1);
    assert_eq!(max.add(blob(0, 5.0)), None);
    assert_eq!(max.add(blob(1, 9.0)), None);
    assert_eq!(max.add(blob(2, 3.0)), Some(blob(0, 9.0)));
}

#[test]
fn max_is_stamped_with_the_anchor_of_its_window() {
    let mut max = Aggregator::new(Calc::Max, 3, 1);
    let out = feed(&mut max, &[blob(300, 5.0), blob(301, 9.0), blob(302, 3.0)]);
    assert_eq!(out, vec![blob(300, 9.0)]);
}

#[test]
fn min_of_one_window() {
    let mut min = Aggregator::new(Calc::Min, 3, 1);
    let out = feed(&mut min, &[blob(0, 5.0), blob(1, -9.0), blob(2, 3.0)]);
    assert_eq!(out, vec![blob(0, -9.0)]);
}

#[test]
fn first_of_two_windows() {
    let mut first = Aggregator::new(Calc::First, 2, 1);
    let out = feed(&mut first, &[blob(0, 10.0), blob(1, 20.0), blob(2, 30.0), blob(3, 40.0)]);
    assert_eq!(out, vec![blob(0, 10.0), blob(2, 30.0)]);
}

#[test]
fn last_of_two_windows() {
    let mut last = Aggregator::new(Calc::Last, 2, 1);
    let out = feed(&mut last, &[blob(0, 10.0), blob(1, 20.0), blob(2, 30.0), blob(3, 40.0)]);
    assert_eq!(out, vec![blob(0, 20.0), blob(2, 40.0)]);
}

#[test]
fn a_window_is_as_wide_as_its_ticks() {
    let mut max = Aggregator::new(Calc::Max, 5, 60_000);
    let blobs: Vec<Blob> = (0..10).map(|i| blob(i * 60_000, i as f64)).collect();
    assert_eq!(feed(&mut max, &blobs), vec![blob(0, 4.0), blob(300_000, 9.0)]);
}

#[test]
fn the_final_tick_closes_the_window_wherever_it_is_hit() {
    let mut last = Aggregator::new(Calc::Last, 5, 60_000);
    let out = feed(&mut last, &[blob(0, 1.0), blob(100_000, 2.0), blob(250_000, 3.0)]);
    assert_eq!(out, vec![blob(0, 3.0)]);
}

#[test]
fn nothing_is_taken_before_a_window_starts() {
    let mut max = Aggregator::new(Calc::Max, 3, 1);
    assert_eq!(max.add(blob(1, 100.0)), None);
    assert_eq!(max.add(blob(2, 200.0)), None);
    let out = feed(&mut max, &[blob(3, 1.0), blob(4, 2.0), blob(5, 0.5)]);
    assert_eq!(out, vec![blob(3, 2.0)]);
}

#[test]
fn a_window_of_one_tick_emits_each_sample() {
    let mut first = Aggregator::new(Calc::First, 1, 10);
    let out = feed(&mut first, &[blob(0, 1.0), blob(5, 2.0), blob(10, 3.0), blob(20, 4.0)]);
    assert_eq!(out, vec![blob(0, 1.0), blob(10, 3.0), blob(20, 4.0)]);
}

#[test]
fn a_window_that_was_not_closed_stays_open() {
    let mut first = Aggregator::new(Calc::First, 3, 1);
    let out = feed(&mut first, &[blob(0, 1.0), blob(1, 2.0), blob(3, 3.0), blob(5, 4.0)]);
    assert_eq!(out, vec![blob(0, 3.0)]);
}

#[test]
fn windows_before_the_epoch_count_upwards() {
    let mut last = Aggregator::new(Calc::Last, 3, 1);
    let out = feed(&mut last, &[blob(-3, 1.0), blob(-2, 2.0), blob(-1, 3.0)]);
    assert_eq!(out, vec![blob(-3, 3.0)]);
}

#[test]
fn a_nan_is_never_greater() {
    let mut max = Aggregator::new(Calc::Max, 3, 1);
    let out = feed(&mut max, &[blob(0, 1.0), blob(1, f64::NAN), blob(2, 0.5)]);
    assert_eq!(out, vec![blob(0, 1.0)]);
    let mut max = Aggregator::new(Calc::Max, 2, 1);
    let out = feed(&mut max, &[blob(0, f64::NAN), blob(1, 7.0)]);
    assert_eq!(out.len(), 1);
    assert!(f64::from_bits(out[0].data).is_nan());
}

#[test]
fn batches_emit_what_the_whole_run_emits() {
    let blobs: Vec<Blob> = (0..20).map(|i| blob(i, ((i * 7) % 11) as f64)).collect();
    for calc in [Calc::First, Calc::Max, Calc::Min, Calc::Last] {
        let mut whole = Aggregator::new(calc, 4, 1);
        let expected = feed(&mut whole, &blobs);
        assert_eq!(expected.len(), 5);
        for cut in 0..blobs.len() {
            let mut parts = Aggregator::new(calc, 4, 1);
            let mut out = feed(&mut parts, &blobs[..cut]);
            out.extend(feed(&mut parts, &blobs[cut..]));
            assert_eq!(out, expected);
        }
    }
}

#[test]
fn accepts_tells_which_windows_can_be_kept() {
    assert!(Aggregator::accepts(3, 1));
    assert!(Aggregator::accepts(5, 60_000));
    assert!(!Aggregator::accepts(0, 60_000));
    assert!(!Aggregator::accepts(5, 0));
    assert!(!Aggregator::accepts(usize::MAX, 2));
}
