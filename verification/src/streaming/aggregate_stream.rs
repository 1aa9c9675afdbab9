use crate::data_structures::domain::StreamRef;
use crate::storage::blob::Blob;
use crate::storage::bucket::UnixTime;
use crate::storage::data_page::{writes, PageWrite, PageWriteView};
use crate::storage::vessel::{
    all_fit, concat, lemma_all_fit_split, lemma_write_split, Vessel, VesselIterator, VesselView,
};
use crate::streaming::basic_stream::{emits, store, Emitted, StreamError};
use crate::streaming::domain::{lemma_run_split, valid_window, Aggregator, Calc, Window};
use vstd::prelude::*;

verus! {

/// An aggregating node as a value.
pub struct AggregateView {
    pub def: StreamRef,
    pub vessel: VesselView,
    pub window: Window,
}

impl AggregateView {
    /// A batch taken: every sample is fed to the window; what the window
    /// emits is stored and handed on.
    pub open spec fn on_next(self, batch: Seq<Blob>) -> (AggregateView, Emitted, Seq<PageWriteView>) {
        let (window, emitted) = self.window.run(batch);
        let (vessel, out, written) = self.vessel.store(emitted);
        (AggregateView { vessel, window, ..self }, out, written)
    }
}

/// What a node hands on over a run of batches, where it refuses none.
pub open spec fn handed_on(so_far: Emitted, more: Emitted) -> Emitted {
    match (so_far, more) {
        (Ok(head), Ok(tail)) => Ok(head + tail),
        (Err(error), _) => Err(error),
        (_, Err(error)) => Err(error),
    }
}

impl AggregateView {
    /// A run of batches taken, one batch after the other: the node
    /// afterwards, what it handed on over all of them, and what is to reach
    /// the disk.
    pub open spec fn replay(self, batches: Seq<Seq<Blob>>) -> (
        AggregateView,
        Emitted,
        Seq<PageWriteView>,
    )
        decreases batches.len(),
    {
        if batches.len() == 0 {
            (self, Ok(Seq::empty()), Seq::empty())
        } else {
            let (before, head, written) = self.replay(batches.drop_last());
            let (after, tail, more) = before.on_next(batches.last());
            (after, handed_on(head, tail), written + more)
        }
    }
}

/// A new aggregate that is brought up to date batch by batch ends as one of
/// the same parameters that is fed all the samples at once: it is in the same
/// state, it has handed on the same samples in the same order, and the same
/// is to reach the disk. This holds where the node can store all it emits.
pub proof fn lemma_backfill_as_replay(node: AggregateView, batches: Seq<Seq<Blob>>)
    requires
        all_fit(node.window.run(concat(batches)).1, node.vessel.index.page_length),
    ensures
        node.replay(batches) == node.on_next(concat(batches)),
    decreases batches.len(),
{
    let length = node.vessel.index.page_length;
    if batches.len() == 0 {
        assert(all_fit(Seq::<Blob>::empty(), length));
    } else {
        let front = batches.drop_last();
        let last = batches.last();
        lemma_run_split(node.window, concat(front), last);
        let (mid, head) = node.window.run(concat(front));
        let (end, tail) = mid.run(last);
        lemma_all_fit_split(head, tail, length);
        lemma_backfill_as_replay(node, front);
        lemma_write_split(node.vessel, head, tail);
        lemma_write_keeps_length(node.vessel, head);
    }
}

/// A vessel keeps the width of its pages over a batch.
pub proof fn lemma_write_keeps_length(vessel: VesselView, blobs: Seq<Blob>)
    ensures
        vessel.write(blobs).0.index.page_length == vessel.index.page_length,
    decreases blobs.len(),
{
    if blobs.len() > 0 {
        lemma_write_keeps_length(vessel, blobs.drop_last());
    }
}

/// A node that reduces each window of its input to one sample.
pub struct AggregateStream {
    stream_def: StreamRef,
    vessel: Vessel,
    buf: Aggregator,
}

impl View for AggregateStream {
    type V = AggregateView;

    closed spec fn view(&self) -> AggregateView {
        AggregateView { def: self.stream_def, vessel: self.vessel@, window: self.buf@ }
    }
}

impl AggregateStream {
    /// The storage and the window are well formed.
    pub closed spec fn wf(&self) -> bool {
        self.vessel.wf() && self.buf@.wf()
    }

    /// The storage and the window of a well-formed node are well formed as values.
    pub proof fn lemma_view_wf(&self)
        requires
            self.wf(),
        ensures
            self@.vessel.wf(),
            self@.window.wf(),
    {
        self.vessel.lemma_view_wf();
    }

    /// The node of the stream `stream_def` that reduces windows of `count`
    /// ticks of width `interval` by `calc` and stores what it emits in `vessel`.
    pub fn new(
        stream_def: StreamRef,
        calc: Calc,
        vessel: Vessel,
        count: usize,
        interval: usize,
    ) -> (stream: AggregateStream)
        requires
            vessel.wf(),
            valid_window(count as int, interval as int),
        ensures
            stream.wf(),
            stream@ == (AggregateView {
                def: stream_def,
                vessel: vessel@,
                window: Window::fresh(calc, count as int, interval as int),
            }),
    {
        AggregateStream { stream_def, vessel, buf: Aggregator::new(calc, count, interval) }
    }

    /// The definition that the node was made for.
    pub fn stream_def(&self) -> (def: StreamRef)
        ensures
            def == self@.def,
    {
        self.stream_def
    }

    /// The node's storage.
    pub fn vessel(&self) -> (vessel: &Vessel)
        requires
            self.wf(),
        ensures
            vessel.wf(),
            vessel@ == self@.vessel,
    {
        &self.vessel
    }

    /// A scan of what the node has stored behind `since`.
    pub fn replay(&self, since: UnixTime) -> (scan: VesselIterator)
        requires
            self.wf(),
        ensures
            scan == self@.vessel.scan_from(since),
    {
        self.vessel.read_from(since)
    }

    /// Hands the node's buffered samples over to be written.
    pub fn flush(&mut self, log: &mut Vec<PageWrite>)
        requires
            old(self).wf(),
        ensures
            final(self).wf(),
            final(self)@ == (AggregateView { vessel: old(self)@.vessel.flush().0, ..old(self)@ }),
            writes(final(log)@) == writes(old(log)@) + old(self)@.vessel.flush().1,
    {
        self.vessel.flush(log);
    }

    /// Feeds a batch to the window, stores what the window emits and hands it on.
    pub fn on_next(&mut self, source: StreamRef, input: Vec<Blob>, log: &mut Vec<PageWrite>) -> (out:
        Result<Vec<Blob>, StreamError>)
        requires
            old(self).wf(),
        ensures
            final(self).wf(),
            final(self)@ == old(self)@.on_next(input@).0,
            emits(out, old(self)@.on_next(input@).1),
            writes(final(log)@) == writes(old(log)@) + old(self)@.on_next(input@).2,
    {
        let mut output: Vec<Blob> = Vec::new();
        let ghost start = self.buf@;
        let mut i: usize = 0;
        assert(input@.take(0) =~= Seq::empty());
        while i < input.len()
            invariant
                i <= input@.len(),
                self.vessel == old(self).vessel,
                self.stream_def == old(self).stream_def,
                (self.buf@, output@) == start.run(input@.take(i as int)),
                self.buf@.wf(),
            decreases input@.len() - i,
        {
            proof {
                assert(input@.take(i + 1).drop_last() =~= input@.take(i as int));
                assert(input@.take(i + 1).last() == input@[i as int]);
            }
            match self.buf.add(input[i]) {
                Some(val) => {
                    output.push(val);
                },
                None => {},
            }
            i += 1;
        }
        assert(input@.take(input@.len() as int) =~= input@);
        store(&mut self.vessel, output, log)
    }
}

} // verus!
