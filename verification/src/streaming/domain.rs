use crate::storage::blob::{data_lt, value_lt, Blob};
use crate::storage::bucket::position_in;
use crate::storage::vessel::concat;
use vstd::prelude::*;

verus! {

/// How a window of samples is reduced to one.
#[derive(PartialEq, Eq, Structural, Clone, Copy, Debug, Hash)]
pub enum Calc {
    First,
    Max,
    Min,
    Last,
}

/// The window that is being filled: the time it is anchored at and what has
/// been accumulated for it so far.
#[derive(PartialEq, Eq, Structural, Clone, Copy, Debug)]
pub struct Entry {
    pub item: Option<u64>,
    pub timestamp: i64,
}

/// What an [`Aggregator`] is, as a value: its parameters and its open window.
pub struct Window {
    pub calc: Calc,
    /// Width of a window: the number of ticks in it times the width of a tick.
    pub size: int,
    /// Width of one tick.
    pub tick: int,
    pub entry: Option<Entry>,
}

/// Whether a window of `count` ticks of width `interval` can be kept: it is
/// not empty and its width fits a timestamp.
pub open spec fn valid_window(count: int, interval: int) -> bool {
    count > 0 && interval > 0 && count * interval <= i64::MAX
}

impl Window {
    /// A tick is not empty and not wider than the window, and the window's
    /// width fits a timestamp. An open window holds a value, unless it keeps
    /// the last sample, which it takes when it closes.
    pub open spec fn wf(self) -> bool {
        &&& 0 < self.tick <= self.size <= i64::MAX
        &&& self.entry is Some && self.calc != Calc::Last ==> self.entry->0.item is Some
    }

    /// A window of the given parameters into which nothing has been fed.
    pub open spec fn fresh(calc: Calc, count: int, interval: int) -> Window {
        Window { calc, size: count * interval, tick: interval, entry: None }
    }

    /// Position of a timestamp within its window.
    pub open spec fn position(self, time: int) -> int {
        time % self.size
    }

    /// Whether a timestamp lies in the final tick of its window.
    pub open spec fn closes(self, time: int) -> bool {
        self.position(time) >= self.size - self.tick
    }

    /// The accumulated value after one more sample: `held` is what was
    /// accumulated before, `data` the sample's value at timestamp `time`.
    pub open spec fn combine(self, held: Option<u64>, time: int, data: u64) -> Option<u64> {
        match self.calc {
            Calc::First => if self.position(time) == 0 {
                Some(data)
            } else {
                held
            },
            Calc::Max => match held {
                Some(existing) => if value_lt(existing, data) {
                    Some(data)
                } else {
                    held
                },
                None => Some(data),
            },
            Calc::Min => match held {
                Some(existing) => if value_lt(data, existing) {
                    Some(data)
                } else {
                    held
                },
                None => Some(data),
            },
            Calc::Last => if self.closes(time) {
                Some(data)
            } else {
                held
            },
        }
    }

    /// One sample fed in: the window afterwards, and what is emitted.
    ///
    /// While no window is open, a sample that does not start one is passed
    /// over. A sample in the final tick closes the window: its accumulated
    /// value is emitted under the window's anchor and nothing stays open.
    pub open spec fn step(self, blob: Blob) -> (Window, Option<Blob>) {
        let time = blob.timestamp as int;
        if self.entry is None && self.position(time) != 0 {
            (self, None)
        } else {
            let anchor = match self.entry {
                Some(entry) => entry.timestamp,
                None => blob.timestamp,
            };
            let held = match self.entry {
                Some(entry) => entry.item,
                None => None,
            };
            let item = self.combine(held, time, blob.data);
            if self.closes(time) {
                (
                    Window { entry: None, ..self },
                    Some(Blob { timestamp: anchor, data: item->0 }),
                )
            } else {
                (Window { entry: Some(Entry { item, timestamp: anchor }), ..self }, None)
            }
        }
    }

    /// A run of samples fed in one after the other: the window afterwards,
    /// and what was emitted, in order.
    pub open spec fn run(self, blobs: Seq<Blob>) -> (Window, Seq<Blob>)
        decreases blobs.len(),
    {
        if blobs.len() == 0 {
            (self, Seq::empty())
        } else {
            let (before, emitted) = self.run(blobs.drop_last());
            let (after, out) = before.step(blobs.last());
            (
                after,
                match out {
                    Some(blob) => emitted.push(blob),
                    None => emitted,
                },
            )
        }
    }
}

/// Feeding a run in two parts gives what feeding it whole gives: the window
/// after the second part, and the emissions of both parts in order.
pub proof fn lemma_run_split(window: Window, first: Seq<Blob>, second: Seq<Blob>)
    ensures
        window.run(first + second) == ({
            let (mid, head) = window.run(first);
            let (end, tail) = mid.run(second);
            (end, head + tail)
        }),
    decreases second.len(),
{
    let (mid, head) = window.run(first);
    if second.len() == 0 {
        assert(first + second =~= first);
        assert(head + Seq::<Blob>::empty() =~= head);
    } else {
        let whole = first + second;
        assert(whole.drop_last() =~= first + second.drop_last());
        assert(whole.last() == second.last());
        lemma_run_split(window, first, second.drop_last());
        let (before, tail) = mid.run(second.drop_last());
        let (after, out) = before.step(second.last());
        match out {
            Some(blob) => {
                assert((head + tail).push(blob) =~= head + tail.push(blob));
            },
            None => {},
        }
    }
}

/// Feeding a run of batches, one batch after the other: the window
/// afterwards, and what was emitted over all of them, in order.
pub open spec fn run_batches(window: Window, batches: Seq<Seq<Blob>>) -> (Window, Seq<Blob>)
    decreases batches.len(),
{
    if batches.len() == 0 {
        (window, Seq::empty())
    } else {
        let (before, head) = run_batches(window, batches.drop_last());
        let (after, tail) = before.run(batches.last());
        (after, head + tail)
    }
}

/// However a run of samples is cut into batches, a window that is fed the
/// batches one after the other emits what it emits when fed the run whole,
/// and is the same window afterwards.
pub proof fn lemma_batches_as_one(window: Window, batches: Seq<Seq<Blob>>)
    ensures
        run_batches(window, batches) == window.run(concat(batches)),
    decreases batches.len(),
{
    if batches.len() > 0 {
        lemma_batches_as_one(window, batches.drop_last());
        lemma_run_split(window, concat(batches.drop_last()), batches.last());
    }
}

/// A windowed reducer: it is fed samples one by one and emits one sample for
/// each window that closes.
pub struct Aggregator {
    calc: Calc,
    size: i64,
    max: i64,
    entry: Option<Entry>,
}

impl View for Aggregator {
    type V = Window;

    closed spec fn view(&self) -> Window {
        Window { calc: self.calc, size: self.size as int, tick: self.size - self.max, entry: self.entry }
    }
}

impl Aggregator {
    #[verifier::type_invariant]
    spec fn inv(self) -> bool {
        self@.wf()
    }

    /// Whether `new` can be asked for a window of these parameters.
    pub fn accepts(size: usize, interval: usize) -> (yes: bool)
        ensures
            yes == valid_window(size as int, interval as int),
    {
        if size == 0 || interval == 0 {
            return false;
        }
        match (size as u128).checked_mul(interval as u128) {
            Some(width) => width <= 0x7fff_ffff_ffff_ffff,
            None => false,
        }
    }

    /// The reducer of windows of `size` ticks of width `interval`.
    pub fn new(calc: Calc, size: usize, interval: usize) -> (aggregator: Aggregator)
        requires
            valid_window(size as int, interval as int),
        ensures
            aggregator@ == Window::fresh(calc, size as int, interval as int),
            aggregator@.wf(),
    {
        proof {
            lemma_factors_fit(size as int, interval as int);
        }
        let interval = interval as i64;
        let size = (size as i64) * interval;
        Aggregator { calc, size, max: size - interval, entry: None }
    }

    /// Feeds one sample in. A sample that closes its window gives the
    /// window's value, under the window's anchor.
    pub fn add(&mut self, blob: Blob) -> (emitted: Option<Blob>)
        ensures
            (final(self)@, emitted) == old(self)@.step(blob),
            final(self)@.wf(),
    {
        proof {
            use_type_invariant(&*self);
        }
        let idx = position_in(blob.timestamp, self.size);
        let mut entry = match self.entry {
            Some(entry) => entry,
            None => {
                if idx != 0 {
                    return None;
                }
                Entry { item: None, timestamp: blob.timestamp }
            },
        };
        match self.calc {
            Calc::First => {
                if idx == 0 {
                    entry.item = Some(blob.data);
                }
            },
            Calc::Max => {
                match entry.item {
                    Some(existing) => {
                        if data_lt(existing, blob.data) {
                            entry.item = Some(blob.data);
                        }
                    },
                    None => {
                        entry.item = Some(blob.data);
                    },
                }
            },
            Calc::Min => {
                match entry.item {
                    Some(existing) => {
                        if data_lt(blob.data, existing) {
                            entry.item = Some(blob.data);
                        }
                    },
                    None => {
                        entry.item = Some(blob.data);
                    },
                }
            },
            Calc::Last => {
                if idx >= self.max {
                    entry.item = Some(blob.data);
                }
            },
        }
        if idx >= self.max {
            self.entry = None;
            match entry.item {
                Some(data) => Some(Blob { timestamp: entry.timestamp, data }),
                None => None,
            }
        } else {
            self.entry = Some(entry);
            None
        }
    }
}

/// Two positive factors of a product that fits a timestamp fit one too.
pub proof fn lemma_factors_fit(count: int, interval: int)
    requires
        valid_window(count, interval),
    ensures
        count <= i64::MAX,
        interval <= i64::MAX,
        interval <= count * interval,
{
    assert(interval <= count * interval && count <= count * interval) by (nonlinear_arith)
        requires
            count > 0,
            interval > 0,
    ;
}

} // verus!
