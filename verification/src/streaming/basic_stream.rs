use crate::data_structures::domain::StreamRef;
use crate::storage::blob::Blob;
use crate::storage::bucket::UnixTime;
use crate::storage::data_page::{writes, PageWrite, PageWriteView};
use crate::storage::vessel::{all_fit, Vessel, VesselIterator, VesselView};
use vstd::prelude::*;

verus! {

/// Why a stream node could not take a batch.
#[derive(PartialEq, Eq, Structural, Clone, Copy, Debug)]
pub enum StreamError {
    /// The batch came from a stream that is no input of the node.
    UnknownSource,
    /// The node was to store a sample whose bucket cannot be addressed.
    TimestampOutOfRange,
}

/// What a node hands on after a batch, as a value.
pub type Emitted = Result<Seq<Blob>, StreamError>;

/// Whether what a node handed on is what the model says.
pub open spec fn emits(got: Result<Vec<Blob>, StreamError>, model: Emitted) -> bool {
    match got {
        Ok(blobs) => model == Ok::<Seq<Blob>, StreamError>(blobs@),
        Err(error) => model == Err::<Seq<Blob>, StreamError>(error),
    }
}

impl VesselView {
    /// A batch stored: the vessel afterwards, what the node hands on, and what
    /// is to reach the disk. A batch that holds a sample whose bucket cannot
    /// be addressed is refused whole.
    pub open spec fn store(self, blobs: Seq<Blob>) -> (VesselView, Emitted, Seq<PageWriteView>) {
        if all_fit(blobs, self.index.page_length) {
            (self.write(blobs).0, Ok(blobs), self.write(blobs).1)
        } else {
            (self, Err(StreamError::TimestampOutOfRange), Seq::empty())
        }
    }
}

/// Stores a batch in a vessel and hands it on.
pub fn store(vessel: &mut Vessel, batch: Vec<Blob>, log: &mut Vec<PageWrite>) -> (out: Result<
    Vec<Blob>,
    StreamError,
>)
    requires
        old(vessel).wf(),
    ensures
        final(vessel).wf(),
        final(vessel)@ == old(vessel)@.store(batch@).0,
        emits(out, old(vessel)@.store(batch@).1),
        writes(final(log)@) == writes(old(log)@) + old(vessel)@.store(batch@).2,
{
    match vessel.write(&batch, log) {
        Ok(()) => Ok(batch),
        Err(_) => {
            assert(writes(log@) + Seq::empty() =~= writes(log@));
            Err(StreamError::TimestampOutOfRange)
        },
    }
}

/// A source node as a value.
pub struct BasicView {
    pub def: StreamRef,
    pub vessel: VesselView,
}

impl BasicView {
    /// A batch taken: it is stored as it came and handed on unchanged.
    pub open spec fn on_next(self, batch: Seq<Blob>) -> (BasicView, Emitted, Seq<PageWriteView>) {
        let (vessel, out, written) = self.vessel.store(batch);
        (BasicView { vessel, ..self }, out, written)
    }
}

/// A node that stores what reaches it and passes it on.
pub struct BasicStream {
    stream_def: StreamRef,
    vessel: Vessel,
}

impl View for BasicStream {
    type V = BasicView;

    closed spec fn view(&self) -> BasicView {
        BasicView { def: self.stream_def, vessel: self.vessel@ }
    }
}

impl BasicStream {
    /// The storage is well formed.
    pub closed spec fn wf(&self) -> bool {
        self.vessel.wf()
    }

    /// The storage of a well-formed node is well formed as a value.
    pub proof fn lemma_view_wf(&self)
        requires
            self.wf(),
        ensures
            self@.vessel.wf(),
    {
        self.vessel.lemma_view_wf();
    }

    /// The node of the stream `stream_def` that stores in `vessel`.
    pub fn new(stream_def: StreamRef, vessel: Vessel) -> (stream: BasicStream)
        requires
            vessel.wf(),
        ensures
            stream.wf(),
            stream@ == (BasicView { def: stream_def, vessel: vessel@ }),
    {
        BasicStream { stream_def, vessel }
    }

    /// The definition that the node was made for.
    pub fn stream_def(&self) -> (def: StreamRef)
        ensures
            def == self@.def,
    {
        self.stream_def
    }

    /// The node's storage.
    pub fn vessel(&self) -> (vessel: &Vessel)
        requires
            self.wf(),
        ensures
            vessel.wf(),
            vessel@ == self@.vessel,
    {
        &self.vessel
    }

    /// A scan of what the node has stored behind `since`.
    pub fn replay(&self, since: UnixTime) -> (scan: VesselIterator)
        requires
            self.wf(),
        ensures
            scan == self@.vessel.scan_from(since),
    {
        self.vessel.read_from(since)
    }

    /// Hands the node's buffered samples over to be written.
    pub fn flush(&mut self, log: &mut Vec<PageWrite>)
        requires
            old(self).wf(),
        ensures
            final(self).wf(),
            final(self)@ == (BasicView { vessel: old(self)@.vessel.flush().0, ..old(self)@ }),
            writes(final(log)@) == writes(old(log)@) + old(self)@.vessel.flush().1,
    {
        self.vessel.flush(log);
    }

    /// Stores a batch as it came and hands it on unchanged.
    pub fn on_next(&mut self, source: StreamRef, record: Vec<Blob>, log: &mut Vec<PageWrite>) -> (out:
        Result<Vec<Blob>, StreamError>)
        requires
            old(self).wf(),
        ensures
            final(self).wf(),
            final(self)@ == old(self)@.on_next(record@).0,
            emits(out, old(self)@.on_next(record@).1),
            writes(final(log)@) == writes(old(log)@) + old(self)@.on_next(record@).2,
    {
        store(&mut self.vessel, record, log)
    }
}

} // verus!
