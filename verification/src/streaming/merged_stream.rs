use crate::data_structures::domain::{
    complete, computes, merged, merges, total, Formula, MergedStreamRef, StreamRef,
};
use crate::storage::blob::Blob;
use crate::storage::bucket::UnixTime;
use crate::storage::data_page::{writes, PageWrite, PageWriteView};
use crate::storage::bucket::bucket_fits;
use crate::storage::vessel::{all_fit, Vessel, VesselIterator, VesselView};
use crate::streaming::basic_stream::{emits, store, Emitted, StreamError};
use std::collections::HashMap;
use vstd::prelude::*;

verus! {

broadcast use vstd::std_specs::hash::group_hash_axioms;

/// What a [`StreamBuffer`] is, as a value: for each timestamp that is not
/// complete yet the samples that have arrived for it, by source, and the
/// number of sources that completes a timestamp.
pub struct BufferView {
    pub items: Map<i64, Map<usize, Blob>>,
    pub count: usize,
}

impl BufferView {
    /// The samples that have arrived for a timestamp.
    pub open spec fn partial(self, time: i64) -> Map<usize, Blob> {
        if self.items.contains_key(time) {
            self.items[time]
        } else {
            Map::empty()
        }
    }

    /// One sample taken from a source: the buffer afterwards, and the
    /// samples of the timestamp where the sample completes it.
    ///
    /// The sample takes the place of an earlier one of the same source and
    /// timestamp. A timestamp that is complete leaves the buffer.
    pub open spec fn add(self, source: StreamRef, blob: Blob) -> (
        BufferView,
        Option<Map<usize, Blob>>,
    ) {
        let arrived = self.partial(blob.timestamp).insert(source.id, blob);
        if arrived.len() >= self.count {
            (BufferView { items: self.items.remove(blob.timestamp), ..self }, Some(arrived))
        } else {
            (BufferView { items: self.items.insert(blob.timestamp, arrived), ..self }, None)
        }
    }

    /// A batch taken from a source: the buffer afterwards, and the timestamps
    /// that were completed, in order.
    pub open spec fn absorb(self, source: StreamRef, blobs: Seq<Blob>) -> (
        BufferView,
        Seq<Map<usize, Blob>>,
    )
        decreases blobs.len(),
    {
        if blobs.len() == 0 {
            (self, Seq::empty())
        } else {
            let (before, done) = self.absorb(source, blobs.drop_last());
            let (after, arrived) = before.add(source, blobs.last());
            (
                after,
                match arrived {
                    Some(arrived) => done.push(arrived),
                    None => done,
                },
            )
        }
    }

    /// Every sample in the buffer is finite in number and came from an input
    /// of the merge.
    pub open spec fn within(self, kind: MergedStreamRef) -> bool {
        forall|time: i64, id: usize|
            self.items.contains_key(time) && (#[trigger] self.items[time].contains_key(id))
                ==> kind.recognizes(StreamRef { id })
    }

    /// The samples that have arrived for each timestamp are finite in number.
    pub open spec fn finite(self) -> bool {
        forall|time: i64| #[trigger]
            self.items.contains_key(time) ==> self.items[time].dom().finite()
    }
}

/// The samples that a merge makes of a run of completed timestamps.
pub open spec fn merged_all(
    kind: MergedStreamRef,
    done: Seq<Map<usize, Blob>>,
    formula: Formula,
) -> Seq<Blob> {
    done.map_values(|arrived: Map<usize, Blob>| merged(kind, arrived, formula))
}

/// Correlates the samples of several sources by their timestamp.
pub struct StreamBuffer {
    pub items: HashMap<UnixTime, HashMap<usize, Blob>>,
    pub count: usize,
}

impl View for StreamBuffer {
    type V = BufferView;

    open spec fn view(&self) -> BufferView {
        BufferView {
            items: Map::new(
                |time: i64| self.items@.contains_key(time),
                |time: i64| self.items@[time]@,
            ),
            count: self.count,
        }
    }
}

impl StreamBuffer {
    /// An empty buffer in which `count` sources complete a timestamp.
    pub fn new(count: usize) -> (buffer: StreamBuffer)
        ensures
            buffer@ == (BufferView { items: Map::empty(), count }),
    {
        let buffer = StreamBuffer { items: HashMap::new(), count };
        assert(buffer@.items =~= Map::empty());
        buffer
    }

    /// Takes one sample from a source. A sample that completes its timestamp
    /// gives the samples of the timestamp, by the number of their source.
    pub fn add(&mut self, stream: StreamRef, data: Blob) -> (done: Option<HashMap<usize, Blob>>)
        ensures
            final(self)@ == old(self)@.add(stream, data).0,
            match done {
                Some(arrived) => old(self)@.add(stream, data).1 == Some(arrived@),
                None => old(self)@.add(stream, data).1 is None,
            },
    {
        let mut streams_for_tick = match self.items.remove(&data.timestamp) {
            Some(arrived) => arrived,
            None => HashMap::new(),
        };
        assert(streams_for_tick@ =~= old(self)@.partial(data.timestamp));
        streams_for_tick.insert(stream.id, data);
        if streams_for_tick.len() >= self.count {
            assert(self@.items =~= old(self)@.items.remove(data.timestamp));
            return Some(streams_for_tick);
        }
        let ghost arrived = streams_for_tick@;
        self.items.insert(data.timestamp, streams_for_tick);
        assert(self@.items =~= old(self)@.items.insert(data.timestamp, arrived));
        None
    }
}

/// A set of samples that came from the inputs of a merge holds one of each
/// once it holds as many as the merge has inputs.
pub proof fn lemma_full_is_complete(kind: MergedStreamRef, arrived: Map<usize, Blob>)
    requires
        arrived.dom().finite(),
        arrived.len() >= 3,
        forall|id: usize| #[trigger] arrived.contains_key(id) ==> kind.recognizes(StreamRef { id }),
    ensures
        complete(kind, arrived),
{
    match kind {
        MergedStreamRef::Hlc3 { high, low, close } => {
            let dom = arrived.dom();
            let pair = |a: usize, b: usize| Set::<usize>::empty().insert(a).insert(b);
            if !dom.contains(high.id) {
                assert(dom.subset_of(pair(low.id, close.id)));
                vstd::set_lib::lemma_len_subset(dom, pair(low.id, close.id));
            }
            if !dom.contains(low.id) {
                assert(dom.subset_of(pair(high.id, close.id)));
                vstd::set_lib::lemma_len_subset(dom, pair(high.id, close.id));
            }
            if !dom.contains(close.id) {
                assert(dom.subset_of(pair(high.id, low.id)));
                vstd::set_lib::lemma_len_subset(dom, pair(high.id, low.id));
            }
        },
    }
}

/// A buffer keeps samples of the merge's inputs only, when it takes a sample
/// from one of them.
pub proof fn lemma_add_within(
    buffer: BufferView,
    kind: MergedStreamRef,
    source: StreamRef,
    blob: Blob,
)
    requires
        buffer.within(kind),
        buffer.finite(),
        kind.recognizes(source),
    ensures
        buffer.add(source, blob).0.within(kind),
        buffer.add(source, blob).0.finite(),
        match buffer.add(source, blob).1 {
            Some(arrived) => {
                &&& arrived.dom().finite()
                &&& arrived.len() >= buffer.count
                &&& forall|id: usize| #[trigger]
                    arrived.contains_key(id) ==> kind.recognizes(StreamRef { id })
            },
            None => true,
        },
{
    let arrived = buffer.partial(blob.timestamp).insert(source.id, blob);
    assert forall|id: usize| #[trigger] arrived.contains_key(id) implies kind.recognizes(
        StreamRef { id },
    ) by {
        if id != source.id {
            assert(buffer.items[blob.timestamp].contains_key(id));
        }
    }
    let after = buffer.add(source, blob).0;
    assert forall|time: i64, id: usize|
        after.items.contains_key(time) && (#[trigger] after.items[time].contains_key(
            id,
        )) implies kind.recognizes(StreamRef { id }) by {
        if time == blob.timestamp {
            assert(arrived.contains_key(id));
        } else {
            assert(buffer.items[time].contains_key(id));
        }
    }
}

/// A buffer keeps samples of the merge's inputs only over a whole batch.
pub proof fn lemma_absorb_within(
    buffer: BufferView,
    kind: MergedStreamRef,
    source: StreamRef,
    blobs: Seq<Blob>,
)
    requires
        buffer.within(kind),
        buffer.finite(),
        kind.recognizes(source),
    ensures
        buffer.absorb(source, blobs).0.within(kind),
        buffer.absorb(source, blobs).0.finite(),
        buffer.absorb(source, blobs).0.count == buffer.count,
    decreases blobs.len(),
{
    if blobs.len() > 0 {
        lemma_absorb_within(buffer, kind, source, blobs.drop_last());
        lemma_add_within(buffer.absorb(source, blobs.drop_last()).0, kind, source, blobs.last());
    }
}

/// A merging node as a value.
pub struct MergedView {
    pub def: StreamRef,
    pub vessel: VesselView,
    pub buffer: BufferView,
    pub kind: MergedStreamRef,
}

/// Whether `made` holds, for each completed timestamp in order, a sample that
/// `mean` may make of it.
pub open spec fn made_by<F: Fn(u64, u64, u64) -> u64>(
    kind: MergedStreamRef,
    done: Seq<Map<usize, Blob>>,
    mean: F,
    made: Seq<Blob>,
) -> bool {
    &&& made.len() == done.len()
    &&& forall|k: int| 0 <= k < done.len() ==> merges(kind, #[trigger] done[k], mean, made[k])
}

impl MergedView {
    /// A batch taken from a source, where `made` are the samples that the
    /// merge made of the timestamps that the batch completed: a batch of a
    /// stream that is no input of the merge is refused. Else every sample is
    /// correlated, and the merged samples are stored and handed on.
    pub open spec fn taking(self, source: StreamRef, batch: Seq<Blob>, made: Seq<Blob>) -> (
        MergedView,
        Emitted,
        Seq<PageWriteView>,
    ) {
        if !self.kind.recognizes(source) {
            (self, Err(StreamError::UnknownSource), Seq::empty())
        } else {
            let buffer = self.buffer.absorb(source, batch).0;
            let (vessel, out, written) = self.vessel.store(made);
            (MergedView { vessel, buffer, ..self }, out, written)
        }
    }

    /// A batch taken from a source, where the merge makes its samples by `formula`.
    pub open spec fn on_next(self, formula: Formula, source: StreamRef, batch: Seq<Blob>) -> (
        MergedView,
        Emitted,
        Seq<PageWriteView>,
    ) {
        self.taking(
            source,
            batch,
            merged_all(self.kind, self.buffer.absorb(source, batch).1, formula),
        )
    }

    /// Whether the node, what it handed on and what it logged are what taking
    /// the batch gives for some samples that `mean` may have made.
    pub open spec fn took<F: Fn(u64, u64, u64) -> u64>(
        self,
        source: StreamRef,
        batch: Seq<Blob>,
        mean: F,
        after: MergedView,
        out: Result<Vec<Blob>, StreamError>,
        written: Seq<PageWriteView>,
    ) -> bool {
        exists|made: Seq<Blob>|
            {
                &&& self.kind.recognizes(source) ==> made_by(
                    self.kind,
                    self.buffer.absorb(source, batch).1,
                    mean,
                    made,
                )
                &&& after == (#[trigger] self.taking(source, batch, made)).0
                &&& emits(out, self.taking(source, batch, made).1)
                &&& written == self.taking(source, batch, made).2
            }
    }
}

/// One sample taken from a source, as a batch of its own.
pub proof fn lemma_absorb_one(buffer: BufferView, source: StreamRef, blob: Blob)
    ensures
        buffer.absorb(source, seq![blob]) == (
            buffer.add(source, blob).0,
            match buffer.add(source, blob).1 {
                Some(arrived) => seq![arrived],
                None => Seq::empty(),
            },
        ),
{
    let batch = seq![blob];
    assert(batch.drop_last() =~= Seq::<Blob>::empty());
    assert(batch.last() == blob);
    assert(buffer.absorb(source, batch.drop_last()) == (buffer, Seq::<Map<usize, Blob>>::empty()));
    match buffer.add(source, blob).1 {
        Some(arrived) => {
            assert(Seq::<Map<usize, Blob>>::empty().push(arrived) =~= seq![arrived]);
        },
        None => {},
    }
}

/// A merge emits once for a timestamp, in whatever order its inputs arrive:
/// of three samples of one timestamp, one from each input, the first two
/// make nothing, and the third makes the one merged sample of the three. The
/// timestamp is then gone from the buffer, so that a sample that is
/// delivered once more makes nothing either.
pub proof fn lemma_merge_once(
    node: MergedView,
    formula: Formula,
    first: (StreamRef, Blob),
    second: (StreamRef, Blob),
    third: (StreamRef, Blob),
    again: (StreamRef, Blob),
)
    requires
        node.vessel.wf(),
        node.buffer.count == 3,
        !node.buffer.items.contains_key(first.1.timestamp),
        bucket_fits(first.1.timestamp as int, node.vessel.index.page_length as int),
        first.1.timestamp == second.1.timestamp,
        first.1.timestamp == third.1.timestamp,
        first.1.timestamp == again.1.timestamp,
        node.kind.recognizes(first.0),
        node.kind.recognizes(second.0),
        node.kind.recognizes(third.0),
        node.kind.recognizes(again.0),
        first.0 != second.0,
        first.0 != third.0,
        second.0 != third.0,
    ensures
        ({
            let one = node.on_next(formula, first.0, seq![first.1]);
            let two = one.0.on_next(formula, second.0, seq![second.1]);
            let three = two.0.on_next(formula, third.0, seq![third.1]);
            let four = three.0.on_next(formula, again.0, seq![again.1]);
            let arrived = Map::<usize, Blob>::empty().insert(first.0.id, first.1).insert(
                second.0.id,
                second.1,
            ).insert(third.0.id, third.1);
            &&& one.1 == Ok::<Seq<Blob>, StreamError>(Seq::empty())
            &&& two.1 == Ok::<Seq<Blob>, StreamError>(Seq::empty())
            &&& three.1 == Ok::<Seq<Blob>, StreamError>(seq![merged(node.kind, arrived, formula)])
            &&& four.1 == Ok::<Seq<Blob>, StreamError>(Seq::empty())
        }),
{
    let time = first.1.timestamp;
    let length = node.vessel.index.page_length;
    let none = Seq::<Blob>::empty();
    let empty = Map::<usize, Blob>::empty();
    let a = empty.insert(first.0.id, first.1);
    let b = a.insert(second.0.id, second.1);
    let c = b.insert(third.0.id, third.1);
    assert(all_fit(none, length));
    assert(merged_all(node.kind, Seq::<Map<usize, Blob>>::empty(), formula) =~= none);
    assert(a.dom() =~= Set::<usize>::empty().insert(first.0.id));
    assert(b.dom() =~= Set::<usize>::empty().insert(first.0.id).insert(second.0.id));
    assert(c.dom() =~= Set::<usize>::empty().insert(first.0.id).insert(second.0.id).insert(
        third.0.id,
    ));
    assert(a.len() == 1);
    assert(b.len() == 2);
    assert(c.len() == 3);
    // The first sample.
    lemma_absorb_one(node.buffer, first.0, first.1);
    assert(node.buffer.partial(time) == empty);
    let one = node.on_next(formula, first.0, seq![first.1]);
    assert(one.0.buffer.items =~= node.buffer.items.insert(time, a));
    lemma_store_nothing(node.vessel);
    // The second sample.
    lemma_absorb_one(one.0.buffer, second.0, second.1);
    assert(one.0.buffer.partial(time) == a);
    let two = one.0.on_next(formula, second.0, seq![second.1]);
    assert(two.0.buffer.items =~= one.0.buffer.items.insert(time, b));
    // The third sample.
    lemma_absorb_one(two.0.buffer, third.0, third.1);
    assert(two.0.buffer.partial(time) == b);
    let made = merged(node.kind, c, formula);
    assert(merged_all(node.kind, seq![c], formula) =~= seq![made]);
    assert(made.timestamp == time) by {
        match node.kind {
            MergedStreamRef::Hlc3 { high, low, close } => {},
        }
    }
    assert(all_fit(seq![made], length)) by {
        assert(seq![made][0] == made);
    }
    let three = two.0.on_next(formula, third.0, seq![third.1]);
    lemma_write_keeps_index(two.0.vessel, seq![made]);
    assert(three.0.buffer.items =~= two.0.buffer.items.remove(time));
    // A sample that is delivered once more.
    lemma_absorb_one(three.0.buffer, again.0, again.1);
    assert(three.0.buffer.partial(time) == empty);
    let d = empty.insert(again.0.id, again.1);
    assert(d.dom() =~= Set::<usize>::empty().insert(again.0.id));
    assert(d.len() == 1);
    lemma_store_nothing(three.0.vessel);
}

/// A vessel that stores nothing stays as it is and hands nothing on.
pub proof fn lemma_store_nothing(vessel: VesselView)
    ensures
        vessel.store(Seq::empty()) == (
            vessel,
            Ok::<Seq<Blob>, StreamError>(Seq::empty()),
            Seq::<PageWriteView>::empty(),
        ),
{
    assert(all_fit(Seq::<Blob>::empty(), vessel.index.page_length));
}

/// A vessel keeps the width of its pages when it stores a batch.
pub proof fn lemma_write_keeps_index(vessel: VesselView, blobs: Seq<Blob>)
    ensures
        vessel.store(blobs).0.index.page_length == vessel.index.page_length,
    decreases blobs.len(),
{
    crate::streaming::aggregate_stream::lemma_write_keeps_length(vessel, blobs);
}

/// A node that combines the samples of its inputs that bear the same timestamp.
pub struct MergedStream {
    stream_def: StreamRef,
    sources: StreamBuffer,
    merge_func: MergedStreamRef,
    vessel: Vessel,
}

impl View for MergedStream {
    type V = MergedView;

    closed spec fn view(&self) -> MergedView {
        MergedView {
            def: self.stream_def,
            vessel: self.vessel@,
            buffer: self.sources@,
            kind: self.merge_func,
        }
    }
}

impl MergedStream {
    /// The storage is well formed; three sources complete a timestamp, and
    /// the buffer holds samples of the merge's inputs only.
    pub closed spec fn wf(&self) -> bool {
        &&& self.vessel.wf()
        &&& self.sources@.count == 3
        &&& self.sources@.within(self.merge_func)
        &&& self.sources@.finite()
    }

    /// In a well-formed node the storage is well formed as a value, three
    /// sources complete a timestamp, and the buffer holds finitely many
    /// samples for each timestamp, all of the merge's inputs.
    pub proof fn lemma_view_wf(&self)
        requires
            self.wf(),
        ensures
            self@.vessel.wf(),
            self@.buffer.count == 3,
            self@.buffer.within(self@.kind),
            self@.buffer.finite(),
    {
        self.vessel.lemma_view_wf();
    }

    /// The node of the stream `stream_def` that merges the inputs of `kind`
    /// and stores what it makes in `vessel`.
    pub fn new(stream_def: StreamRef, kind: MergedStreamRef, vessel: Vessel) -> (stream:
        MergedStream)
        requires
            vessel.wf(),
        ensures
            stream.wf(),
            stream@ == (MergedView {
                def: stream_def,
                vessel: vessel@,
                buffer: BufferView { items: Map::empty(), count: 3 },
                kind,
            }),
    {
        MergedStream { stream_def, sources: StreamBuffer::new(kind.len()), merge_func: kind, vessel }
    }

    /// The definition that the node was made for.
    pub fn stream_def(&self) -> (def: StreamRef)
        ensures
            def == self@.def,
    {
        self.stream_def
    }

    /// The node's storage.
    pub fn vessel(&self) -> (vessel: &Vessel)
        requires
            self.wf(),
        ensures
            vessel.wf(),
            vessel@ == self@.vessel,
    {
        &self.vessel
    }

    /// A scan of what the node has stored behind `since`.
    pub fn replay(&self, since: UnixTime) -> (scan: VesselIterator)
        requires
            self.wf(),
        ensures
            scan == self@.vessel.scan_from(since),
    {
        self.vessel.read_from(since)
    }

    /// Hands the node's buffered samples over to be written.
    pub fn flush(&mut self, log: &mut Vec<PageWrite>)
        requires
            old(self).wf(),
        ensures
            final(self).wf(),
            final(self)@ == (MergedView { vessel: old(self)@.vessel.flush().0, ..old(self)@ }),
            writes(final(log)@) == writes(old(log)@) + old(self)@.vessel.flush().1,
    {
        self.vessel.flush(log);
    }

    /// Takes a batch from one of the merge's inputs. The arithmetic of the
    /// merge is `mean`'s, see [`MergedStreamRef::get_func`].
    pub fn on_next<F: Fn(u64, u64, u64) -> u64>(
        &mut self,
        source: StreamRef,
        record: Vec<Blob>,
        mean: &F,
        log: &mut Vec<PageWrite>,
    ) -> (out: Result<Vec<Blob>, StreamError>)
        requires
            old(self).wf(),
            total(*mean),
        ensures
            final(self).wf(),
            out == Err::<Vec<Blob>, StreamError>(StreamError::UnknownSource)
                <==> !old(self)@.kind.recognizes(source),
            exists|written: Seq<PageWriteView>|
                writes(final(log)@) == writes(old(log)@) + written && old(self)@.took(
                    source,
                    record@,
                    *mean,
                    final(self)@,
                    out,
                    written,
                ),
            forall|formula: Formula| #[trigger]
                computes(*mean, formula) ==> {
                    &&& final(self)@ == old(self)@.on_next(formula, source, record@).0
                    &&& emits(out, old(self)@.on_next(formula, source, record@).1)
                    &&& writes(final(log)@) == writes(old(log)@) + old(self)@.on_next(
                        formula,
                        source,
                        record@,
                    ).2
                },
    {
        if !self.merge_func.has_input(source) {
            proof {
                let none = Seq::<PageWriteView>::empty();
                assert(writes(log@) + none =~= writes(log@));
                assert(self@.taking(source, record@, Seq::empty()).0 == self@);
                assert(old(self)@.took(
                    source,
                    record@,
                    *mean,
                    self@,
                    Err::<Vec<Blob>, StreamError>(StreamError::UnknownSource),
                    none,
                ));
            }
            return Err(StreamError::UnknownSource);
        }
        let mut mapped: Vec<Blob> = Vec::new();
        let ghost start = self.sources@;
        let ghost kind = self.merge_func;
        let ghost mut done: Seq<Map<usize, Blob>> = Seq::empty();
        let mut i: usize = 0;
        assert(record@.take(0) =~= Seq::empty());
        while i < record.len()
            invariant
                i <= record@.len(),
                total(*mean),
                kind.recognizes(source),
                self.vessel == old(self).vessel,
                self.stream_def == old(self).stream_def,
                self.merge_func == kind,
                start.within(kind),
                start.finite(),
                start.count == 3,
                (self.sources@, done) == start.absorb(source, record@.take(i as int)),
                mapped@.len() == done.len(),
                forall|k: int| 0 <= k < done.len() ==> merges(kind, #[trigger] done[k], *mean, mapped@[k]),
            decreases record@.len() - i,
        {
            let item = record[i];
            proof {
                assert(record@.take(i + 1).drop_last() =~= record@.take(i as int));
                assert(record@.take(i + 1).last() == item);
                lemma_absorb_within(start, kind, source, record@.take(i as int));
                lemma_add_within(self.sources@, kind, source, item);
            }
            match self.sources.add(source, item) {
                Some(result) => {
                    proof {
                        lemma_full_is_complete(kind, result@);
                        done = done.push(result@);
                    }
                    let blob = self.merge_func.get_func(&result, mean);
                    mapped.push(blob);
                },
                None => {},
            }
            i += 1;
        }
        proof {
            assert(record@.take(record@.len() as int) =~= record@);
            lemma_absorb_within(start, kind, source, record@);
            assert forall|formula: Formula| #[trigger] computes(*mean, formula) implies mapped@
                == merged_all(kind, done, formula) by {
                assert forall|k: int| 0 <= k < done.len() implies mapped@[k] == merged(
                    kind,
                    done[k],
                    formula,
                ) by {
                    assert(merges(kind, done[k], *mean, mapped@[k]));
                }
                assert(mapped@ =~= merged_all(kind, done, formula));
            }
        }
        let ghost made = mapped@;
        let ghost logged = writes(log@);
        let out = store(&mut self.vessel, mapped, log);
        proof {
            let taken = old(self)@.taking(source, record@, made);
            assert(self@ == taken.0);
            assert(writes(log@) == logged + taken.2);
            assert(old(self)@.took(source, record@, *mean, self@, out, taken.2));
        }
        out
    }
}

} // verus!
