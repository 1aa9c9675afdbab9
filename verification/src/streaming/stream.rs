use crate::data_structures::domain::{computes, total, Formula, StreamKind, StreamRef};
use crate::storage::blob::Blob;
use crate::storage::bucket::UnixTime;
use crate::storage::data_page::{writes, PageWrite, PageWriteView};
use crate::storage::vessel::{Vessel, VesselIterator, VesselView};
use crate::streaming::aggregate_stream::{AggregateStream, AggregateView};
use crate::streaming::basic_stream::{emits, BasicStream, BasicView, Emitted, StreamError};
use crate::streaming::domain::{valid_window, Aggregator, Window};
use crate::streaming::merged_stream::{made_by, BufferView, MergedStream, MergedView};
use vstd::prelude::*;

verus! {

/// A stream node as a value.
pub enum StreamView {
    Basic(BasicView),
    Aggregate(AggregateView),
    Merged(MergedView),
}

impl StreamView {
    /// The storage is well formed; so is the window of an aggregate; in a
    /// merge three sources complete a timestamp, and the buffer holds
    /// finitely many samples for each timestamp, all of the merge's inputs.
    pub open spec fn wf(self) -> bool {
        match self {
            StreamView::Basic(node) => node.vessel.wf(),
            StreamView::Aggregate(node) => node.vessel.wf() && node.window.wf(),
            StreamView::Merged(node) => {
                &&& node.vessel.wf()
                &&& node.buffer.count == 3
                &&& node.buffer.within(node.kind)
                &&& node.buffer.finite()
            },
        }
    }

    /// The storage of the node.
    pub open spec fn vessel(self) -> VesselView {
        match self {
            StreamView::Basic(node) => node.vessel,
            StreamView::Aggregate(node) => node.vessel,
            StreamView::Merged(node) => node.vessel,
        }
    }

    /// The node with another storage.
    pub open spec fn with_vessel(self, vessel: VesselView) -> StreamView {
        match self {
            StreamView::Basic(node) => StreamView::Basic(BasicView { vessel, ..node }),
            StreamView::Aggregate(node) => StreamView::Aggregate(AggregateView { vessel, ..node }),
            StreamView::Merged(node) => StreamView::Merged(MergedView { vessel, ..node }),
        }
    }

    /// A batch taken from a source: the node afterwards, what it hands on to
    /// the nodes behind it, and what is to reach the disk.
    pub open spec fn on_next(self, formula: Formula, source: StreamRef, batch: Seq<Blob>) -> (
        StreamView,
        Emitted,
        Seq<PageWriteView>,
    ) {
        match self {
            StreamView::Basic(node) => {
                let (node, out, written) = node.on_next(batch);
                (StreamView::Basic(node), out, written)
            },
            StreamView::Aggregate(node) => {
                let (node, out, written) = node.on_next(batch);
                (StreamView::Aggregate(node), out, written)
            },
            StreamView::Merged(node) => {
                let (node, out, written) = node.on_next(formula, source, batch);
                (StreamView::Merged(node), out, written)
            },
        }
    }

    /// A batch taken from a source, where `made` are the samples that a merge
    /// made of the timestamps that the batch completed; the other kinds of
    /// node make no use of them.
    pub open spec fn taking(self, source: StreamRef, batch: Seq<Blob>, made: Seq<Blob>) -> (
        StreamView,
        Emitted,
        Seq<PageWriteView>,
    ) {
        match self {
            StreamView::Basic(node) => {
                let (node, out, written) = node.on_next(batch);
                (StreamView::Basic(node), out, written)
            },
            StreamView::Aggregate(node) => {
                let (node, out, written) = node.on_next(batch);
                (StreamView::Aggregate(node), out, written)
            },
            StreamView::Merged(node) => {
                let (node, out, written) = node.taking(source, batch, made);
                (StreamView::Merged(node), out, written)
            },
        }
    }

    /// Whether `made` are samples that `mean` may have made of the
    /// timestamps that a batch completes in a merge. Of the other kinds of
    /// node, and of a batch that a merge refuses, nothing is asked.
    pub open spec fn makes<F: Fn(u64, u64, u64) -> u64>(
        self,
        source: StreamRef,
        batch: Seq<Blob>,
        mean: F,
        made: Seq<Blob>,
    ) -> bool {
        match self {
            StreamView::Merged(node) => node.kind.recognizes(source) ==> made_by(
                node.kind,
                node.buffer.absorb(source, batch).1,
                mean,
                made,
            ),
            _ => true,
        }
    }

    /// Whether the node, what it handed on and what it logged are what taking
    /// the batch gives, where a merge made the samples `made`.
    pub open spec fn took<F: Fn(u64, u64, u64) -> u64>(
        self,
        source: StreamRef,
        batch: Seq<Blob>,
        mean: F,
        made: Seq<Blob>,
        after: StreamView,
        out: Result<Vec<Blob>, StreamError>,
        written: Seq<PageWriteView>,
    ) -> bool {
        &&& self.makes(source, batch, mean, made)
        &&& after == self.taking(source, batch, made).0
        &&& emits(out, self.taking(source, batch, made).1)
        &&& written == self.taking(source, batch, made).2
    }

    /// The node flushed: its buffered samples are handed over to be written.
    pub open spec fn flush(self) -> (StreamView, Seq<PageWriteView>) {
        (self.with_vessel(self.vessel().flush().0), self.vessel().flush().1)
    }

    /// The node that is made for a definition of the given kind, over the
    /// given storage: none for a window that cannot be kept.
    pub open spec fn create(def: StreamRef, kind: StreamKind, vessel: VesselView) -> Option<
        StreamView,
    > {
        match kind {
            StreamKind::Source => Some(StreamView::Basic(BasicView { def, vessel })),
            StreamKind::Aggregate(calc, count, interval) => if valid_window(
                count as int,
                interval as int,
            ) {
                Some(
                    StreamView::Aggregate(
                        AggregateView {
                            def,
                            vessel,
                            window: Window::fresh(calc, count as int, interval as int),
                        },
                    ),
                )
            } else {
                None
            },
            StreamKind::Merge(kind) => Some(
                StreamView::Merged(
                    MergedView {
                        def,
                        vessel,
                        buffer: BufferView { items: Map::empty(), count: 3 },
                        kind,
                    },
                ),
            ),
        }
    }
}

/// A stream node: one of the three kinds of processing behind one interface.
pub enum Stream {
    Basic(BasicStream),
    Aggregate(AggregateStream),
    Merged(MergedStream),
}

impl View for Stream {
    type V = StreamView;

    open spec fn view(&self) -> StreamView {
        match self {
            Stream::Basic(node) => StreamView::Basic(node@),
            Stream::Aggregate(node) => StreamView::Aggregate(node@),
            Stream::Merged(node) => StreamView::Merged(node@),
        }
    }
}

impl Stream {
    /// The node is well formed, whichever kind it is of.
    pub open spec fn wf(&self) -> bool {
        match self {
            Stream::Basic(node) => node.wf(),
            Stream::Aggregate(node) => node.wf(),
            Stream::Merged(node) => node.wf(),
        }
    }

    /// A well-formed node is well formed as a value.
    pub proof fn lemma_view_wf(&self)
        requires
            self.wf(),
        ensures
            self@.wf(),
    {
        match self {
            Stream::Basic(node) => node.lemma_view_wf(),
            Stream::Aggregate(node) => node.lemma_view_wf(),
            Stream::Merged(node) => node.lemma_view_wf(),
        }
    }

    /// The node's storage.
    pub fn vessel(&self) -> (vessel: &Vessel)
        requires
            self.wf(),
        ensures
            vessel.wf(),
            vessel@ == self@.vessel(),
    {
        match self {
            Stream::Basic(node) => node.vessel(),
            Stream::Aggregate(node) => node.vessel(),
            Stream::Merged(node) => node.vessel(),
        }
    }

    /// A scan of what the node has stored behind `since`.
    pub fn replay(&self, since: UnixTime) -> (scan: VesselIterator)
        requires
            self.wf(),
        ensures
            scan == self@.vessel().scan_from(since),
    {
        match self {
            Stream::Basic(node) => node.replay(since),
            Stream::Aggregate(node) => node.replay(since),
            Stream::Merged(node) => node.replay(since),
        }
    }

    /// Hands the node's buffered samples over to be written.
    pub fn flush(&mut self, log: &mut Vec<PageWrite>)
        requires
            old(self).wf(),
        ensures
            final(self).wf(),
            final(self)@ == old(self)@.flush().0,
            writes(final(log)@) == writes(old(log)@) + old(self)@.flush().1,
            writes(old(log)@).is_prefix_of(writes(final(log)@)),
    {
        match self {
            Stream::Basic(node) => node.flush(log),
            Stream::Aggregate(node) => node.flush(log),
            Stream::Merged(node) => node.flush(log),
        }
    }

    /// Takes a batch from a source, stores what the node makes of it, and
    /// returns what the nodes behind this one are to receive.
    pub fn on_next<F: Fn(u64, u64, u64) -> u64>(
        &mut self,
        source: StreamRef,
        batch: Vec<Blob>,
        mean: &F,
        log: &mut Vec<PageWrite>,
    ) -> (out: Result<Vec<Blob>, StreamError>)
        requires
            old(self).wf(),
            total(*mean),
        ensures
            final(self).wf(),
            exists|made: Seq<Blob>, written: Seq<PageWriteView>|
                writes(final(log)@) == writes(old(log)@) + written && #[trigger] old(self)@.took(
                    source,
                    batch@,
                    *mean,
                    made,
                    final(self)@,
                    out,
                    written,
                ),
            writes(old(log)@).is_prefix_of(writes(final(log)@)),
            forall|formula: Formula|
                #![trigger computes(*mean, formula)]
                computes(*mean, formula) || !(old(self)@ is Merged) ==> {
                    &&& final(self)@ == old(self)@.on_next(formula, source, batch@).0
                    &&& emits(out, old(self)@.on_next(formula, source, batch@).1)
                    &&& writes(final(log)@) == writes(old(log)@) + old(self)@.on_next(
                        formula,
                        source,
                        batch@,
                    ).2
                },
    {
        let ghost before = self@;
        let ghost logged = writes(log@);
        let ghost given = batch@;
        let out = match self {
            Stream::Basic(node) => node.on_next(source, batch, log),
            Stream::Aggregate(node) => node.on_next(source, batch, log),
            Stream::Merged(node) => node.on_next(source, batch, mean, log),
        };
        proof {
            match before {
                StreamView::Merged(node) => {
                    let after = self@->Merged_0;
                    let written = choose|written: Seq<PageWriteView>|
                        writes(log@) == logged + written && node.took(
                            source,
                            given,
                            *mean,
                            after,
                            out,
                            written,
                        );
                    let made = choose|made: Seq<Blob>|
                        {
                            &&& node.kind.recognizes(source) ==> made_by(
                                node.kind,
                                node.buffer.absorb(source, given).1,
                                *mean,
                                made,
                            )
                            &&& after == (#[trigger] node.taking(source, given, made)).0
                            &&& emits(out, node.taking(source, given, made).1)
                            &&& written == node.taking(source, given, made).2
                        };
                    assert(before.took(source, given, *mean, made, self@, out, written));
                },
                _ => {
                    let written = before.taking(source, given, Seq::empty()).2;
                    assert(before.took(source, given, *mean, Seq::empty(), self@, out, written));
                },
            }
        }
        out
    }
}

/// Makes the node for a definition of the given kind over the given storage.
/// A window that cannot be kept gives none.
pub fn create_stream(stream_def: StreamRef, kind: StreamKind, vessel: Vessel) -> (made: Option<
    Stream,
>)
    requires
        vessel.wf(),
    ensures
        match made {
            Some(stream) => stream.wf() && StreamView::create(stream_def, kind, vessel@) == Some(
                stream@,
            ),
            None => StreamView::create(stream_def, kind, vessel@) is None,
        },
{
    match kind {
        StreamKind::Source => Some(Stream::Basic(BasicStream::new(stream_def, vessel))),
        StreamKind::Aggregate(calc, size, interval) => {
            if Aggregator::accepts(size, interval) {
                Some(
                    Stream::Aggregate(AggregateStream::new(stream_def, calc, vessel, size, interval)),
                )
            } else {
                None
            }
        },
        StreamKind::Merge(kind) => Some(Stream::Merged(MergedStream::new(stream_def, kind, vessel))),
    }
}

} // verus!
