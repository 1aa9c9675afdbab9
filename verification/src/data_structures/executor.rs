use crate::data_structures::domain::{
    computes, total, Formula, StreamDefinition, StreamRef,
};
use crate::data_structures::graph::{
    described, lemma_dispatch_to_leaf, Graph, GraphError, GraphView, Outcome, Visit, Visitor,
};
use crate::storage::blob::Blob;
use crate::storage::bucket::UnixTime;
use crate::storage::data_page::{writes, PageWrite, PageWriteView};
use crate::storage::file_handle::{join_path, joined, FileHandle};
use crate::storage::file_system::StorageError;
use crate::storage::record::ByteOrder;
use crate::storage::bucket::{bucket_fits, bucket_start};
use crate::storage::round_trip::{
    appended, climbing, dense, lemma_flat_is_concat, lemma_round_trip, scanned, start_of,
};
use crate::storage::vessel::{
    all_fit, concat, lemma_all_fit_split, Vessel, VesselIterator, VesselView,
};
use crate::streaming::aggregate_stream::{
    lemma_backfill_as_replay, lemma_write_keeps_length, AggregateView,
};
use crate::streaming::basic_stream::StreamError;
use crate::streaming::domain::lemma_run_split;
use crate::streaming::stream::{create_stream, Stream, StreamView};
use vstd::prelude::*;

verus! {

/// What an [`Executor`] is, as a value: the graph, the streams that samples
/// enter it by, and the earliest of the times up to which those are stored.
pub struct ExecutorView {
    pub graph: GraphView,
    pub roots: Seq<StreamRef>,
    pub last_time: Option<UnixTime>,
}

/// The earlier of the time that was known and the time of one more root.
pub open spec fn earliest(known: Option<UnixTime>, last: UnixTime) -> Option<UnixTime> {
    match known {
        Some(time) if time <= last => Some(time),
        _ => Some(last),
    }
}

/// The page width that a definition asks for, where a timestamp can hold it.
pub open spec fn page_length_of(page_size: usize) -> i64 {
    if page_size <= i64::MAX {
        page_size as i64
    } else {
        0
    }
}

impl ExecutorView {
    /// The graph is well formed and holds a node for every root.
    pub open spec fn wf(self) -> bool {
        &&& self.graph.wf()
        &&& forall|k: int|
            0 <= k < self.roots.len() ==> self.graph.streams.contains_key(
                (#[trigger] self.roots[k]).id,
            )
    }

    /// Every root flushed, one after the other, and with it every node that
    /// can be reached from it: the nodes afterwards, and what is to reach the disk.
    pub open spec fn flush(self, count: int, formula: Formula) -> (
        Map<usize, StreamView>,
        Seq<PageWriteView>,
    )
        decreases count,
    {
        if count <= 0 {
            (self.graph.streams, Seq::empty())
        } else {
            let (streams, written) = self.flush(count - 1, formula);
            let outcome = self.graph.with_streams(streams).visit_from(
                self.roots[count - 1],
                Seq::empty(),
                Visitor::Flush,
                formula,
            );
            (outcome.streams, written + outcome.written)
        }
    }
}

/// The formula whose value is zero throughout. A flush, which makes no sample,
/// is described with it.
pub open spec fn idle() -> Formula {
    |high: u64, low: u64, close: u64| 0u64
}

/// A merge formula for dispatches that make no sample.
pub fn no_mean(high: u64, low: u64, close: u64) -> (value: u64)
    ensures
        value == 0,
{
    0
}

/// The owner of the graph. It takes the commands of an [`Envelope`] one by
/// one, in the order in which they arrive.
///
/// [`Envelope`]: crate::data_structures::domain::Envelope
pub struct Executor {
    graph: Graph,
    roots: Vec<StreamRef>,
    last_time: Option<UnixTime>,
}

impl View for Executor {
    type V = ExecutorView;

    closed spec fn view(&self) -> ExecutorView {
        ExecutorView { graph: self.graph@, roots: self.roots@, last_time: self.last_time }
    }
}

impl Executor {
    /// The graph is well formed, and so is the executor as a value.
    pub closed spec fn wf(&self) -> bool {
        self.graph.wf() && self@.wf()
    }

    /// A well-formed executor is well formed as a value, and so is each of
    /// the nodes of its graph.
    pub proof fn lemma_view_wf(&self)
        requires
            self.wf(),
        ensures
            self@.wf(),
            forall|id: usize| #[trigger]
                self@.graph.streams.contains_key(id) ==> self@.graph.streams[id].wf(),
    {
        self.graph.lemma_view_wf();
    }

    /// An executor without streams. `root` is named as the source of every
    /// batch that enters the graph.
    pub fn new(root: StreamRef) -> (executor: Executor)
        ensures
            executor.wf(),
            executor@ == (ExecutorView {
                graph: GraphView { streams: Map::empty(), edges: Map::empty(), root },
                roots: Seq::empty(),
                last_time: None,
            }),
    {
        let graph = Graph::new(root);
        proof {
            graph.lemma_view_wf();
        }
        Executor { graph, roots: Vec::new(), last_time: None }
    }

    /// The directory of a stream below the directory of the store.
    pub fn stream_path(root: &str, definition: &StreamDefinition) -> (path: String)
        ensures
            path@ == joined(root@, definition.path@),
    {
        join_path(root, definition.path.as_str())
    }

    /// Opens the storage of a stream from the names of the entries of its directory.
    pub fn open_vessel(
        root: &str,
        definition: &StreamDefinition,
        order: ByteOrder,
        names: &Vec<String>,
    ) -> (opened: Result<Vessel, StorageError>)
        ensures
            Vessel::opens(
                joined(root@, definition.path@),
                page_length_of(definition.page_size),
                order,
                names@,
                opened,
            ),
    {
        let path = Executor::stream_path(root, definition);
        let page_size = definition.page_size as u64;
        let page_length: i64 = if page_size <= 0x7fff_ffff_ffff_ffff {
            page_size as i64
        } else {
            0
        };
        Vessel::new(path, page_length, order, names)
    }

    /// Makes the node of a stream over its storage, and tells up to which
    /// time the stream is stored. `tail` holds the bytes of the file that
    /// `vessel.last_file()` names.
    pub fn create_stream(
        stream_def: StreamRef,
        definition: &StreamDefinition,
        vessel: Vessel,
        tail: &[u8],
    ) -> (made: Option<(Stream, UnixTime)>)
        requires
            vessel.wf(),
        ensures
            match made {
                Some((stream, last)) => {
                    &&& stream.wf()
                    &&& StreamView::create(stream_def, definition.stream_kind, vessel@) == Some(
                        stream@,
                    )
                    &&& last == vessel@.index.last_time(tail@)
                },
                None => StreamView::create(stream_def, definition.stream_kind, vessel@) is None,
            },
    {
        let last_time = vessel.get_last_time(tail);
        match create_stream(stream_def, definition.stream_kind, vessel) {
            Some(stream) => Some((stream, last_time)),
            None => None,
        }
    }

    /// Takes a stream by which samples enter the graph. `last` is the time up
    /// to which the stream is stored.
    pub fn add_root(&mut self, root: StreamRef, stream: Stream, last: UnixTime)
        requires
            old(self).wf(),
            stream.wf(),
        ensures
            final(self).wf(),
            final(self)@ == (ExecutorView {
                graph: GraphView {
                    streams: old(self)@.graph.streams.insert(root.id, stream@),
                    edges: old(self)@.graph.edges.insert(root.id, Seq::empty()),
                    root: old(self)@.graph.root,
                },
                roots: old(self)@.roots.push(root),
                last_time: earliest(old(self)@.last_time, last),
            }),
    {
        self.graph.add(root, stream);
        proof {
            self.graph.lemma_view_wf();
        }
        self.roots.push(root);
        self.last_time = match self.last_time {
            Some(time) => if time <= last {
                Some(time)
            } else {
                Some(last)
            },
            None => Some(last),
        };
        proof {
            assert forall|k: int| 0 <= k < self@.roots.len() implies self@.graph.streams.contains_key(
                (#[trigger] self@.roots[k]).id,
            ) by {
                if k < old(self)@.roots.len() {
                    assert(self@.roots[k] == old(self)@.roots[k]);
                }
            }
        }
    }

    /// The time from which samples are to be fed in again: the earliest of
    /// the times up to which the roots are stored. None before a root was taken.
    pub fn get_last_time(&self) -> (time: Option<UnixTime>)
        ensures
            time == self@.last_time,
    {
        self.last_time
    }

    /// The node of a stream, if the graph holds one.
    pub fn get_stream(&self, key: StreamRef) -> (found: Option<&Stream>)
        requires
            self.wf(),
        ensures
            match found {
                Some(stream) => self@.graph.streams.contains_key(key.id) && stream@
                    == self@.graph.streams[key.id] && stream.wf(),
                None => !self@.graph.streams.contains_key(key.id),
            },
    {
        self.graph.get_stream(key)
    }

    /// Attaches a new stream: its node is put into the graph and made a
    /// child of each of `sources`, one after the other, up to the first that
    /// cannot be its parent.
    pub fn add(&mut self, sources: &Vec<StreamRef>, target: StreamRef, stream: Stream) -> (done:
        Result<(), GraphError>)
        requires
            old(self).wf(),
            stream.wf(),
        ensures
            final(self).wf(),
            final(self)@.roots == old(self)@.roots,
            final(self)@.last_time == old(self)@.last_time,
            final(self)@.graph == attached(
                old(self)@.graph.added(target, stream@),
                sources@,
                target,
                sources@.len() as int,
            ).0,
            done == attached(
                old(self)@.graph.added(target, stream@),
                sources@,
                target,
                sources@.len() as int,
            ).1,
    {
        self.graph.add(target, stream);
        let ghost start = self@.graph;
        let mut i: usize = 0;
        proof {
            self.graph.lemma_view_wf();
            assert forall|k: int| 0 <= k < self@.roots.len() implies self@.graph.streams.contains_key(
                (#[trigger] self@.roots[k]).id,
            ) by {
                assert(old(self)@.graph.streams.contains_key(old(self)@.roots[k].id));
            }
        }
        while i < sources.len()
            invariant
                i <= sources@.len(),
                self.wf(),
                start == old(self)@.graph.added(target, stream@),
                self.roots == old(self).roots,
                self.last_time == old(self).last_time,
                self@.graph.streams == start.streams,
                (self@.graph, Ok::<(), GraphError>(())) == attached(
                    start,
                    sources@,
                    target,
                    i as int,
                ),
            decreases sources@.len() - i,
        {
            let ghost entered = self@;
            let done = self.graph.subscribe(sources[i], target);
            proof {
                self.graph.lemma_view_wf();
                assert forall|k: int|
                    0 <= k < self@.roots.len() implies self@.graph.streams.contains_key(
                    (#[trigger] self@.roots[k]).id,
                ) by {
                    assert(entered.graph.streams.contains_key(entered.roots[k].id));
                }
            }
            match done {
                Ok(()) => {},
                Err(error) => {
                    proof {
                        lemma_attached_stops(start, sources@, target, i + 1, sources@.len() as int);
                    }
                    return Err(error);
                },
            }
            i += 1;
        }
        Ok(())
    }

    /// Begins to bring a stream up to date from one of its sources: a scan of
    /// what the source has stored behind `last`.
    pub fn replay(&self, source: StreamRef, last: UnixTime) -> (scan: Option<VesselIterator>)
        requires
            self.wf(),
        ensures
            match scan {
                Some(scan) => self@.graph.streams.contains_key(source.id) && scan
                    == self@.graph.streams[source.id].vessel().scan_from(last),
                None => !self@.graph.streams.contains_key(source.id),
            },
    {
        match self.graph.get_stream(source) {
            Some(stream) => Some(stream.replay(last)),
            None => None,
        }
    }

    /// The file whose bytes the next step of a scan of `source` is to be
    /// given; none where the scan has ended.
    pub fn next_file(&self, source: StreamRef, scan: &VesselIterator) -> (found: Option<FileHandle>)
        requires
            self.wf(),
        ensures
            match found {
                Some(handle) => {
                    &&& self@.graph.streams.contains_key(source.id)
                    &&& scan.live(self@.graph.streams[source.id].vessel().index)
                    &&& handle@ == self@.graph.streams[source.id].vessel().index.handle(
                        scan.bucket.unwrap().val,
                    )
                },
                None => !self@.graph.streams.contains_key(source.id) || !scan.live(
                    self@.graph.streams[source.id].vessel().index,
                ),
            },
    {
        match self.graph.get_stream(source) {
            Some(stream) => scan.file(stream.vessel()),
            None => None,
        }
    }

    /// One step of bringing `target` up to date from `source`: the batch of
    /// the scan's bucket, whose file holds `raw`, is dispatched from
    /// `target` on, as a batch that comes from `source`. Returns whether there was a batch; once there is none,
    /// the stream is up to date.
    pub fn backfill<F: Fn(u64, u64, u64) -> u64>(
        &mut self,
        source: StreamRef,
        target: StreamRef,
        scan: &mut VesselIterator,
        raw: &[u8],
        mean: &F,
        log: &mut Vec<PageWrite>,
    ) -> (more: Result<bool, GraphError>)
        requires
            old(self).wf(),
            total(*mean),
        ensures
            final(self).wf(),
            final(self)@.roots == old(self)@.roots,
            final(self)@.last_time == old(self)@.last_time,
            final(self)@.graph.edges == old(self)@.graph.edges,
            final(self)@.graph.root == old(self)@.graph.root,
            !old(self)@.graph.streams.contains_key(source.id) ==> {
                &&& more == Err::<bool, GraphError>(GraphError::UnknownNode(source))
                &&& final(self)@ == old(self)@
                &&& *final(scan) == *old(scan)
                &&& writes(final(log)@) == writes(old(log)@)
            },
            old(self)@.graph.streams.contains_key(source.id) && !old(scan).live(
                old(self)@.graph.streams[source.id].vessel().index,
            ) ==> {
                &&& more == Ok::<bool, GraphError>(false)
                &&& final(self)@ == old(self)@
                &&& *final(scan) == *old(scan)
                &&& writes(final(log)@) == writes(old(log)@)
            },
            old(self)@.graph.streams.contains_key(source.id) && old(scan).live(
                old(self)@.graph.streams[source.id].vessel().index,
            ) ==> {
                let index = old(self)@.graph.streams[source.id].vessel().index;
                let batch = old(scan).batch(index, raw@);
                &&& *final(scan) == old(scan).advanced()
                &&& !old(self)@.graph.streams.contains_key(target.id) ==> more == Err::<
                    bool,
                    GraphError,
                >(GraphError::UnknownNode(target))
                &&& old(self)@.graph.streams.contains_key(target.id) ==> exists|
                    done: Result<(), GraphError>,
                |
                    more == stepped(done) && #[trigger] old(self)@.graph.dispatched(
                        source,
                        target,
                        batch,
                        Visitor::OnNext,
                        *mean,
                        final(self)@.graph.streams,
                        done,
                        writes(old(log)@),
                        writes(final(log)@),
                    )
                &&& old(self)@.graph.streams.contains_key(target.id) ==> forall|formula: Formula|
                    #![trigger computes(*mean, formula)]
                    computes(*mean, formula) ==> {
                        let outcome = old(self)@.graph.dispatch(
                            source,
                            target,
                            batch,
                            Visitor::OnNext,
                            formula,
                        );
                        &&& final(self)@.graph.streams == outcome.streams
                        &&& more == stepped(outcome.result)
                        &&& writes(final(log)@) == writes(old(log)@) + outcome.written
                    }
            },
    {
        let batch = match self.graph.get_stream(source) {
            Some(stream) => scan.next(stream.vessel(), raw),
            None => {
                return Err(GraphError::UnknownNode(source));
            },
        };
        match batch {
            Some(batch) => {
                let ghost given = batch@;
                let done = self.graph.dispatch(source, target, batch, Visitor::OnNext, mean, log);
                proof {
                    self.lemma_roots_stay(*old(self));
                    assert forall|formula: Formula|
                        #![trigger computes(*mean, formula)]
                        computes(*mean, formula) && old(self)@.graph.streams.contains_key(
                            target.id,
                        ) implies {
                        let outcome = old(self)@.graph.dispatch(
                            source,
                            target,
                            given,
                            Visitor::OnNext,
                            formula,
                        );
                        &&& self@.graph.streams == outcome.streams
                        &&& done == outcome.result
                        &&& writes(log@) == writes(old(log)@) + outcome.written
                    } by {
                        assert(described(*mean, Visitor::OnNext, formula));
                    }
                }
                match done {
                    Ok(()) => Ok(true),
                    Err(error) => Err(error),
                }
            },
            None => Ok(false),
        }
    }

    /// Feeds a batch of samples into a stream and on into every stream that
    /// is derived from it.
    pub fn send_data<F: Fn(u64, u64, u64) -> u64>(
        &mut self,
        source: StreamRef,
        data: Vec<Blob>,
        mean: &F,
        log: &mut Vec<PageWrite>,
    ) -> (done: Result<(), GraphError>)
        requires
            old(self).wf(),
            total(*mean),
        ensures
            final(self).wf(),
            final(self)@.roots == old(self)@.roots,
            final(self)@.last_time == old(self)@.last_time,
            final(self)@.graph.edges == old(self)@.graph.edges,
            final(self)@.graph.root == old(self)@.graph.root,
            !old(self)@.graph.streams.contains_key(source.id) ==> {
                &&& done == Err::<(), GraphError>(GraphError::UnknownNode(source))
                &&& final(self)@ == old(self)@
                &&& writes(final(log)@) == writes(old(log)@)
            },
            old(self)@.graph.streams.contains_key(source.id) ==> old(self)@.graph.dispatched(
                old(self)@.graph.root,
                source,
                data@,
                Visitor::OnNext,
                *mean,
                final(self)@.graph.streams,
                done,
                writes(old(log)@),
                writes(final(log)@),
            ),
            old(self)@.graph.streams.contains_key(source.id) ==> forall|formula: Formula|
                #![trigger computes(*mean, formula)]
                computes(*mean, formula) ==> {
                    let outcome = old(self)@.graph.visit_from(
                        source,
                        data@,
                        Visitor::OnNext,
                        formula,
                    );
                    &&& final(self)@.graph.streams == outcome.streams
                    &&& done == outcome.result
                    &&& writes(final(log)@) == writes(old(log)@) + outcome.written
                },
    {
        let ghost given = data@;
        let done = self.graph.visit_from(source, data, Visitor::OnNext, mean, log);
        proof {
            self.lemma_roots_stay(*old(self));
            assert forall|formula: Formula|
                #![trigger computes(*mean, formula)]
                computes(*mean, formula) && old(self)@.graph.streams.contains_key(
                    source.id,
                ) implies {
                let outcome = old(self)@.graph.visit_from(
                    source,
                    given,
                    Visitor::OnNext,
                    formula,
                );
                &&& self@.graph.streams == outcome.streams
                &&& done == outcome.result
                &&& writes(log@) == writes(old(log)@) + outcome.written
            } by {
                assert(described(*mean, Visitor::OnNext, formula));
            }
        }
        done
    }

    /// An executor whose graph kept its edges, and which kept its roots, is
    /// well formed if it was before and its graph is now.
    proof fn lemma_roots_stay(&self, before: Executor)
        requires
            before.wf(),
            self.graph.wf(),
            self.roots == before.roots,
            self@.graph.edges == before@.graph.edges,
        ensures
            self.wf(),
    {
        self.graph.lemma_view_wf();
        before.graph.lemma_view_wf();
        assert forall|k: int| 0 <= k < self@.roots.len() implies self@.graph.streams.contains_key(
            (#[trigger] self@.roots[k]).id,
        ) by {
            assert(before@.graph.streams.contains_key(before@.roots[k].id));
            assert(before@.graph.edges.dom().contains(before@.roots[k].id));
            assert(self@.graph.streams.dom().contains(self@.roots[k].id));
        }
    }

    /// Flushes every node that can be reached from a root.
    pub fn flush(&mut self, log: &mut Vec<PageWrite>)
        requires
            old(self).wf(),
        ensures
            final(self).wf(),
            final(self)@.roots == old(self)@.roots,
            final(self)@.last_time == old(self)@.last_time,
            final(self)@.graph.edges == old(self)@.graph.edges,
            final(self)@.graph.root == old(self)@.graph.root,
            final(self)@.graph.streams == old(self)@.flush(
                old(self)@.roots.len() as int,
                idle(),
            ).0,
            writes(final(log)@) == writes(old(log)@) + old(self)@.flush(
                old(self)@.roots.len() as int,
                idle(),
            ).1,
    {
        let ghost start = self@;
        let ghost before = writes(log@);
        let ghost formula = idle();
        let mut i: usize = 0;
        assert(before + Seq::empty() =~= before);
        while i < self.roots.len()
            invariant
                i <= self.roots@.len(),
                self.wf(),
                start.wf(),
                formula == idle(),
                self@.roots == start.roots,
                self@.last_time == start.last_time,
                self@.graph.edges == start.graph.edges,
                self@.graph.root == start.graph.root,
                self@.graph.streams == start.flush(i as int, formula).0,
                writes(log@) == before + start.flush(i as int, formula).1,
            decreases self.roots@.len() - i,
        {
            let root = self.roots[i];
            let ghost graph = self@.graph;
            let ghost logged = writes(log@);
            let ghost entered = *self;
            proof {
                assert(start.graph.with_streams(graph.streams) == graph);
                assert(graph.streams.contains_key(self@.roots[i as int].id));
            }
            let done = self.graph.visit_from(root, Vec::new(), Visitor::Flush, &no_mean, log);
            proof {
                self.lemma_roots_stay(entered);
                assert(described(no_mean, Visitor::Flush, formula));
                let outcome = graph.visit_from(root, Seq::empty(), Visitor::Flush, formula);
                assert(writes(log@) == logged + outcome.written);
                assert(before + start.flush(i as int, formula).1 + outcome.written =~= before + (
                start.flush(i as int, formula).1 + outcome.written));
            }
            i += 1;
        }
    }
}

/// The samples that the targets of a run of deliveries handed on, in order.
pub open spec fn handed_on_by(visits: Seq<Visit>) -> Seq<Blob>
    decreases visits.len(),
{
    if visits.len() == 0 {
        Seq::empty()
    } else {
        handed_on_by(visits.drop_last()) + match visits.last().output {
            Ok(blobs) => blobs,
            Err(_) => Seq::empty(),
        }
    }
}

impl GraphView {
    /// A stream brought up to date from a source: the batches of a scan of
    /// the source are dispatched from `target` on, one after the other, up to
    /// the first that a node refuses.
    pub open spec fn backfill(
        self,
        source: StreamRef,
        target: StreamRef,
        batches: Seq<Seq<Blob>>,
        formula: Formula,
    ) -> Outcome
        decreases batches.len(),
    {
        if batches.len() == 0 {
            Outcome {
                streams: self.streams,
                result: Ok(()),
                written: Seq::empty(),
                visits: Seq::empty(),
            }
        } else {
            let before = self.backfill(source, target, batches.drop_last(), formula);
            match before.result {
                Err(_) => before,
                Ok(()) => {
                    let last = self.with_streams(before.streams).dispatch(
                        source,
                        target,
                        batches.last(),
                        Visitor::OnNext,
                        formula,
                    );
                    Outcome {
                        streams: last.streams,
                        result: last.result,
                        written: before.written + last.written,
                        visits: before.visits + last.visits,
                    }
                },
            }
        }
    }
}

/// A new aggregate that is attached to a source and brought up to date from
/// what the source has stored ends as a new aggregate of the same parameters
/// that is fed the same samples in one batch: it hands on the same samples in
/// the same order, it is in the same state, and the same is to reach the
/// disk. This holds where the aggregate can store all it emits.
pub proof fn lemma_backfill_of_aggregate(
    graph: GraphView,
    source: StreamRef,
    target: StreamRef,
    node: AggregateView,
    batches: Seq<Seq<Blob>>,
    formula: Formula,
)
    requires
        graph.wf(),
        graph.streams.contains_key(target.id),
        graph.streams[target.id] == StreamView::Aggregate(node),
        graph.edges[target.id].len() == 0,
        all_fit(node.window.run(concat(batches)).1, node.vessel.index.page_length),
    ensures
        ({
            let outcome = graph.backfill(source, target, batches, formula);
            let direct = node.on_next(concat(batches));
            &&& outcome.result is Ok
            &&& outcome.streams == graph.streams.insert(target.id, StreamView::Aggregate(direct.0))
            &&& outcome.written == direct.2
            &&& direct.1 == Ok::<Seq<Blob>, StreamError>(handed_on_by(outcome.visits))
        }),
    decreases batches.len(),
{
    let length = node.vessel.index.page_length;
    let none = Seq::<Blob>::empty();
    if batches.len() == 0 {
        assert(all_fit(none, length));
        assert(graph.streams.insert(target.id, graph.streams[target.id]) =~= graph.streams);
    } else {
        let front = batches.drop_last();
        let last = batches.last();
        lemma_run_split(node.window, concat(front), last);
        let (mid, head) = node.window.run(concat(front));
        let (end, tail) = mid.run(last);
        lemma_all_fit_split(head, tail, length);
        lemma_backfill_of_aggregate(graph, source, target, node, front, formula);
        lemma_backfill_as_replay(node, front);
        lemma_backfill_as_replay(node, batches);
        let before = graph.backfill(source, target, front, formula);
        let so_far = node.on_next(concat(front));
        let after = graph.with_streams(before.streams);
        assert(after.streams.dom() =~= graph.streams.dom());
        lemma_dispatch_to_leaf(after, source, target, last, Visitor::OnNext, formula);
        let step = so_far.0.on_next(last);
        lemma_write_keeps_length(node.vessel, head);
        assert(graph.streams.insert(target.id, StreamView::Aggregate(so_far.0)).insert(
            target.id,
            StreamView::Aggregate(step.0),
        ) =~= graph.streams.insert(target.id, StreamView::Aggregate(step.0)));
        let visits = graph.backfill(source, target, batches, formula).visits;
        assert(visits.drop_last() =~= before.visits);
        assert(head + tail =~= handed_on_by(before.visits) + tail);
    }
}

/// Attaching a new aggregate to a source that has stored its samples gives
/// what feeding those samples to a new aggregate of the same parameters
/// gives. The source wrote the samples, which climb through their buckets
/// and leave none out, to a stream that held nothing, and was flushed; its
/// writes were carried out. The scan from which the aggregate is brought up
/// to date begins behind `from`, in the bucket of the first sample and before
/// every sample. Then the aggregate hands on, over the batches of the scan,
/// exactly what a new aggregate makes of the samples in one batch, and the
/// same is to reach its files. This holds where the aggregate can store all
/// it emits.
pub proof fn lemma_backfill_of_history(
    graph: GraphView,
    source: StreamRef,
    target: StreamRef,
    node: AggregateView,
    vessel: VesselView,
    blobs: Seq<Blob>,
    from: i64,
    formula: Formula,
)
    requires
        graph.wf(),
        graph.streams.contains_key(target.id),
        graph.streams[target.id] == StreamView::Aggregate(node),
        graph.edges[target.id].len() == 0,
        all_fit(node.window.run(blobs).1, node.vessel.index.page_length),
        vessel.wf(),
        vessel.current is None,
        vessel.index.starts == Set::<i64>::empty(),
        blobs.len() > 0,
        all_fit(blobs, vessel.index.page_length),
        climbing(blobs, vessel.index.page_length),
        dense(blobs, vessel.index.page_length),
        bucket_fits(from as int, vessel.index.page_length as int),
        bucket_start(from as int, vessel.index.page_length as int) == start_of(
            blobs[0],
            vessel.index.page_length,
        ),
        forall|i: int| 0 <= i < blobs.len() ==> (#[trigger] blobs[i]).timestamp > from,
    ensures
        ({
            let (after, first) = vessel.write(blobs);
            let (flushed, second) = after.flush();
            let stored = appended(Map::empty(), first + second);
            let batches = scanned(flushed.index, stored, flushed.scan_from(from));
            let outcome = graph.backfill(source, target, batches, formula);
            let direct = node.on_next(blobs);
            &&& outcome.result is Ok
            &&& handed_on_by(outcome.visits) == node.window.run(blobs).1
            &&& outcome.streams == graph.streams.insert(target.id, StreamView::Aggregate(direct.0))
            &&& outcome.written == direct.2
        }),
{
    let (after, first) = vessel.write(blobs);
    let (flushed, second) = after.flush();
    let stored = appended(Map::empty(), first + second);
    let batches = scanned(flushed.index, stored, flushed.scan_from(from));
    lemma_round_trip(vessel, blobs, from);
    lemma_flat_is_concat(batches);
    lemma_backfill_of_aggregate(graph, source, target, node, batches, formula);
}

/// What a step of bringing a stream up to date returns for the end of its dispatch.
pub open spec fn stepped(result: Result<(), GraphError>) -> Result<bool, GraphError> {
    match result {
        Ok(()) => Ok(true),
        Err(error) => Err(error),
    }
}

impl GraphView {
    /// The graph with a node without children for a stream.
    pub open spec fn added(self, def: StreamRef, stream: StreamView) -> GraphView {
        GraphView {
            streams: self.streams.insert(def.id, stream),
            edges: self.edges.insert(def.id, Seq::empty()),
            root: self.root,
        }
    }
}

/// The graph after `target` was made a child of the first `count` of
/// `sources`, one after the other, up to the first that cannot be its parent.
pub open spec fn attached(graph: GraphView, sources: Seq<StreamRef>, target: StreamRef, count: int) -> (
    GraphView,
    Result<(), GraphError>,
)
    decreases count,
{
    if count <= 0 {
        (graph, Ok(()))
    } else {
        let (before, done) = attached(graph, sources, target, count - 1);
        match done {
            Ok(()) => before.subscribed(sources[count - 1], target),
            Err(error) => (before, done),
        }
    }
}

/// Once a source cannot be a parent, no further source is tried.
pub proof fn lemma_attached_stops(
    graph: GraphView,
    sources: Seq<StreamRef>,
    target: StreamRef,
    failed: int,
    count: int,
)
    requires
        0 < failed <= count,
        attached(graph, sources, target, failed).1 is Err,
    ensures
        attached(graph, sources, target, count) == attached(graph, sources, target, failed),
    decreases count - failed,
{
    if failed < count {
        lemma_attached_stops(graph, sources, target, failed, count - 1);
    }
}

} // verus!
