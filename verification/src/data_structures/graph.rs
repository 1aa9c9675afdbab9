use crate::data_structures::domain::{computes, total, Formula, StreamRef};
use crate::storage::blob::Blob;
use crate::storage::data_page::{writes, PageWrite, PageWriteView};
use crate::streaming::basic_stream::{emits, Emitted, StreamError};
use crate::streaming::stream::{Stream, StreamView};
use std::collections::HashMap;
use vstd::prelude::*;

verus! {

broadcast use vstd::std_specs::hash::group_hash_axioms;

/// Why the graph could not do what was asked.
#[derive(PartialEq, Eq, Structural, Clone, Copy, Debug)]
pub enum GraphError {
    /// The graph holds no node for this stream.
    UnknownNode(StreamRef),
    /// An edge was asked for that would close a cycle.
    Cycle,
    /// The node of this stream could not take a batch.
    Stream(StreamRef, StreamError),
}

/// What is done to each node that a dispatch reaches.
#[derive(PartialEq, Eq, Structural, Clone, Copy, Debug)]
pub enum Visitor {
    /// The node takes the batch; what it hands on goes to its children.
    OnNext,
    /// The node is flushed; the batch goes on to its children as it is.
    Flush,
}

/// A node of the graph: a stream, its processing, and the streams that are
/// fed from it.
pub struct Node {
    pub defn: StreamRef,
    pub stream: Stream,
    pub children: Vec<StreamRef>,
}

impl Node {
    /// A node without children.
    pub fn new(defn: StreamRef, stream: Stream) -> (node: Node)
        ensures
            node.defn == defn,
            node.stream == stream,
            node.children@ == Seq::<StreamRef>::empty(),
    {
        Node { defn, stream, children: Vec::new() }
    }
}

/// One delivery that is waiting on the stack: a batch from a source for a target.
pub struct Task {
    pub source: StreamRef,
    pub target: StreamRef,
    pub input: Seq<Blob>,
}

/// One delivery that was made: what a node was given, and what it handed on.
pub struct Visit {
    pub source: StreamRef,
    pub target: StreamRef,
    pub input: Seq<Blob>,
    pub output: Emitted,
}

/// The children of each node, by the node's number.
pub type Edges = Map<usize, Seq<StreamRef>>;

/// A height for every node, by the node's number.
pub type Heights = spec_fn(usize) -> nat;

/// Every edge leads to a node of the graph, and down in height.
pub open spec fn ranked(edges: Edges, height: Heights) -> bool {
    forall|id: usize, k: int|
        edges.contains_key(id) && 0 <= k < edges[id].len() ==> height(
            (#[trigger] edges[id][k]).id,
        ) < height(id) && edges.contains_key(edges[id][k].id)
}

/// The edges lead to nodes of the graph and close no cycle: the nodes can be
/// given heights such that every edge leads down.
pub open spec fn acyclic(edges: Edges) -> bool {
    exists|height: Heights| #[trigger] ranked(edges, height)
}

/// Heights down which every edge leads, where the edges close no cycle.
pub open spec fn heights(edges: Edges) -> Heights {
    choose|height: Heights| #[trigger] ranked(edges, height)
}

/// Edges that close no cycle lead down their heights.
pub proof fn lemma_heights(edges: Edges)
    requires
        acyclic(edges),
    ensures
        ranked(edges, heights(edges)),
{
}

/// Whether a path of edges leads from one node to another, as seen along
/// the given heights. Every node leads to itself.
pub open spec fn leads(edges: Edges, height: Heights, from: usize, to: usize) -> bool
    decreases 2 * height(from) + 1, 0nat,
{
    from == to || leads_any(edges, height, height(from), edges[from], to)
}

/// Whether a path leads from one of `targets` that lies below `ceiling` to `to`.
pub open spec fn leads_any(
    edges: Edges,
    height: Heights,
    ceiling: nat,
    targets: Seq<StreamRef>,
    to: usize,
) -> bool
    decreases 2 * ceiling, targets.len(),
{
    if targets.len() == 0 {
        false
    } else {
        let last = targets.last();
        leads_any(edges, height, ceiling, targets.drop_last(), to) || (height(last.id) < ceiling
            && leads(edges, height, last.id, to))
    }
}

/// Whether a path of edges leads from one node to another.
pub open spec fn reaches(edges: Edges, from: usize, to: usize) -> bool {
    leads(edges, heights(edges), from, to)
}

/// A path leads from one of the targets once it leads from one among them.
pub proof fn lemma_leads_any_has(
    edges: Edges,
    height: Heights,
    ceiling: nat,
    targets: Seq<StreamRef>,
    k: int,
    to: usize,
)
    requires
        0 <= k < targets.len(),
        height(targets[k].id) < ceiling,
        leads(edges, height, targets[k].id, to),
    ensures
        leads_any(edges, height, ceiling, targets, to),
    decreases targets.len(),
{
    if k < targets.len() - 1 {
        assert(targets.drop_last()[k] == targets[k]);
        lemma_leads_any_has(edges, height, ceiling, targets.drop_last(), k, to);
    } else {
        assert(targets.last() == targets[k]);
    }
}

/// A path that leads from a child of a node leads from the node.
pub proof fn lemma_leads_step(edges: Edges, height: Heights, id: usize, k: int, to: usize)
    requires
        ranked(edges, height),
        edges.contains_key(id),
        0 <= k < edges[id].len(),
        leads(edges, height, edges[id][k].id, to),
    ensures
        leads(edges, height, id, to),
{
    assert(height(edges[id][k].id) < height(id));
    lemma_leads_any_has(edges, height, height(id), edges[id], k, to);
}

/// An edge from a node to a node from which no path leads back closes no cycle.
pub proof fn lemma_edge_keeps_acyclic(edges: Edges, source: usize, target: StreamRef)
    requires
        acyclic(edges),
        edges.contains_key(source),
        edges.contains_key(target.id),
        !reaches(edges, target.id, source),
    ensures
        acyclic(edges.insert(source, edges[source].push(target))),
{
    let height = heights(edges);
    lemma_heights(edges);
    let up = height(target.id) + 1;
    let lifted: Heights = |x: usize|
        if leads(edges, height, x, source) {
            height(x) + up
        } else {
            height(x)
        };
    let grown = edges.insert(source, edges[source].push(target));
    assert forall|id: usize, k: int|
        grown.contains_key(id) && 0 <= k < grown[id].len() implies lifted(
        (#[trigger] grown[id][k]).id,
    ) < lifted(id) && grown.contains_key(grown[id][k].id) by {
        let child = grown[id][k];
        if id == source && k == edges[source].len() {
            assert(child == target);
            assert(leads(edges, height, source, source));
        } else {
            assert(edges.contains_key(id));
            assert(child == edges[id][k]);
            assert(height(child.id) < height(id));
            if leads(edges, height, child.id, source) {
                lemma_leads_step(edges, height, id, k, source);
            }
        }
    }
    assert(ranked(grown, lifted));
}

/// The number of deliveries that one delivery to a node sets off, itself
/// included: one for each path that leaves the node.
pub open spec fn reach(edges: Edges, height: Heights, id: usize) -> nat
    decreases 2 * height(id) + 1, 0nat,
{
    1 + reach_all(edges, height, height(id), edges[id])
}

/// The number of deliveries that deliveries to all of `targets` set off, of
/// which those count that lie below `ceiling`.
pub open spec fn reach_all(
    edges: Edges,
    height: Heights,
    ceiling: nat,
    targets: Seq<StreamRef>,
) -> nat
    decreases 2 * ceiling, targets.len(),
{
    if targets.len() == 0 {
        0
    } else {
        let last = targets.last();
        reach_all(edges, height, ceiling, targets.drop_last()) + if height(last.id) < ceiling {
            reach(edges, height, last.id)
        } else {
            0
        }
    }
}

/// The number of deliveries that a stack of waiting deliveries sets off.
pub open spec fn load(edges: Edges, stack: Seq<Task>) -> nat
    decreases stack.len(),
{
    if stack.len() == 0 {
        0
    } else {
        load(edges, stack.drop_last()) + reach(edges, heights(edges), stack.last().target.id)
    }
}

/// The deliveries that a node's output is pushed as: one for each child, in
/// the order of the children.
pub open spec fn fan_out(target: StreamRef, children: Seq<StreamRef>, output: Seq<Blob>) -> Seq<
    Task,
> {
    children.map_values(|child: StreamRef| Task { source: target, target: child, input: output })
}

/// Whether every waiting delivery is for a node of the graph.
pub open spec fn deliverable(edges: Edges, stack: Seq<Task>) -> bool {
    forall|k: int| 0 <= k < stack.len() ==> edges.contains_key((#[trigger] stack[k]).target.id)
}

/// The load of two stacks, one on top of the other, is the sum of their loads.
pub proof fn lemma_load_add(edges: Edges, below: Seq<Task>, above: Seq<Task>)
    ensures
        load(edges, below + above) == load(edges, below) + load(edges, above),
    decreases above.len(),
{
    if above.len() == 0 {
        assert(below + above =~= below);
    } else {
        assert((below + above).drop_last() =~= below + above.drop_last());
        assert((below + above).last() == above.last());
        lemma_load_add(edges, below, above.drop_last());
    }
}

/// The load of a node's fan-out is what its children reach.
pub proof fn lemma_load_fan_out(
    edges: Edges,
    target: StreamRef,
    children: Seq<StreamRef>,
    output: Seq<Blob>,
)
    requires
        forall|k: int|
            0 <= k < children.len() ==> heights(edges)((#[trigger] children[k]).id) < heights(
                edges,
            )(target.id),
    ensures
        load(edges, fan_out(target, children, output)) == reach_all(
            edges,
            heights(edges),
            heights(edges)(target.id),
            children,
        ),
    decreases children.len(),
{
    let tasks = fan_out(target, children, output);
    if children.len() > 0 {
        assert(tasks.drop_last() =~= fan_out(target, children.drop_last(), output));
        assert(tasks.last().target == children.last());
        assert(children.last() == children[children.len() - 1]);
        assert forall|k: int| 0 <= k < children.drop_last().len() implies heights(edges)(
            (#[trigger] children.drop_last()[k]).id,
        ) < heights(edges)(target.id) by {
            assert(children.drop_last()[k] == children[k]);
        }
        lemma_load_fan_out(edges, target, children.drop_last(), output);
    }
}

/// Delivering the top of the stack and pushing its fan-out leaves one
/// delivery less to make.
pub proof fn lemma_load_step(edges: Edges, stack: Seq<Task>, output: Seq<Blob>)
    requires
        acyclic(edges),
        deliverable(edges, stack),
        stack.len() > 0,
    ensures
        load(
            edges,
            stack.drop_last() + fan_out(
                stack.last().target,
                edges[stack.last().target.id],
                output,
            ),
        ) + 1 == load(edges, stack),
        deliverable(
            edges,
            stack.drop_last() + fan_out(
                stack.last().target,
                edges[stack.last().target.id],
                output,
            ),
        ),
{
    let top = stack.last();
    let rest = stack.drop_last();
    let children = edges[top.target.id];
    let pushed = fan_out(top.target, children, output);
    assert(edges.contains_key(stack[stack.len() - 1].target.id));
    lemma_heights(edges);
    lemma_load_add(edges, rest, pushed);
    lemma_load_fan_out(edges, top.target, children, output);
    assert forall|k: int| 0 <= k < (rest + pushed).len() implies edges.contains_key(
        (#[trigger] (rest + pushed)[k]).target.id,
    ) by {
        if k < rest.len() {
            assert((rest + pushed)[k] == stack[k]);
        } else {
            assert((rest + pushed)[k].target == children[k - rest.len()]);
        }
    }
}

/// What is done to one node: the node afterwards, what it hands on, and what
/// is to reach the disk.
pub open spec fn visit_node(
    stream: StreamView,
    visitor: Visitor,
    formula: Formula,
    source: StreamRef,
    input: Seq<Blob>,
) -> (StreamView, Emitted, Seq<PageWriteView>) {
    match visitor {
        Visitor::OnNext => stream.on_next(formula, source, input),
        Visitor::Flush => (stream.flush().0, Ok(input), stream.flush().1),
    }
}

/// What is done to one node, where `made` are the samples that the node made
/// if it is a merge.
pub open spec fn visit_node_with(
    stream: StreamView,
    visitor: Visitor,
    source: StreamRef,
    input: Seq<Blob>,
    made: Seq<Blob>,
) -> (StreamView, Emitted, Seq<PageWriteView>) {
    match visitor {
        Visitor::OnNext => stream.taking(source, input, made),
        Visitor::Flush => (stream.flush().0, Ok(input), stream.flush().1),
    }
}

/// The samples that a merge made in each delivery of a dispatch, in the
/// order of the deliveries; a delivery in which none was made has an entry
/// too.
pub type Tape = Seq<Seq<Blob>>;

/// How a dispatch ends: the nodes afterwards, whether a node refused its
/// batch, what is to reach the disk, and the deliveries that were made.
pub struct Outcome {
    pub streams: Map<usize, StreamView>,
    pub result: Result<(), GraphError>,
    pub written: Seq<PageWriteView>,
    pub visits: Seq<Visit>,
}

/// What a [`Graph`] is, as a value.
pub struct GraphView {
    pub streams: Map<usize, StreamView>,
    pub edges: Edges,
    pub root: StreamRef,
}

impl GraphView {
    /// The nodes have their edges, and the edges close no cycle.
    pub open spec fn wf(self) -> bool {
        self.streams.dom() == self.edges.dom() && acyclic(self.edges)
    }

    /// The graph with other nodes at its places.
    pub open spec fn with_streams(self, streams: Map<usize, StreamView>) -> GraphView {
        GraphView { streams, ..self }
    }

    /// Works a stack of waiting deliveries off, from its top, until it is
    /// empty or a node refuses its batch.
    ///
    /// The delivery on top is taken off and made: its target is visited with
    /// the batch. What the target hands on is pushed as one delivery for each
    /// of its children.
    pub open spec fn run(self, stack: Seq<Task>, visitor: Visitor, formula: Formula) -> Outcome
        decreases load(self.edges, stack),
        when self.wf() && deliverable(self.edges, stack)
    {
        if stack.len() == 0 {
            Outcome {
                streams: self.streams,
                result: Ok(()),
                written: Seq::empty(),
                visits: Seq::empty(),
            }
        } else {
            let top = stack.last();
            let (stream, output, written) = visit_node(
                self.streams[top.target.id],
                visitor,
                formula,
                top.source,
                top.input,
            );
            let streams = self.streams.insert(top.target.id, stream);
            let visit = Visit { source: top.source, target: top.target, input: top.input, output };
            match output {
                Err(error) => Outcome {
                    streams,
                    result: Err(GraphError::Stream(top.target, error)),
                    written,
                    visits: seq![visit],
                },
                Ok(blobs) => {
                    let next = stack.drop_last() + fan_out(
                        top.target,
                        self.edges[top.target.id],
                        blobs,
                    );
                    proof {
                        lemma_load_step(self.edges, stack, blobs);
                    }
                    let then = self.with_streams(streams).run(next, visitor, formula);
                    Outcome {
                        streams: then.streams,
                        result: then.result,
                        written: written + then.written,
                        visits: seq![visit] + then.visits,
                    }
                },
            }
        }
    }

    /// Works a stack of waiting deliveries off as `run` does, where the
    /// samples that the merges make are read from a tape, one entry for each
    /// delivery.
    pub open spec fn run_with(self, stack: Seq<Task>, visitor: Visitor, tape: Tape) -> Outcome
        decreases load(self.edges, stack),
        when self.wf() && deliverable(self.edges, stack)
    {
        if stack.len() == 0 {
            Outcome {
                streams: self.streams,
                result: Ok(()),
                written: Seq::empty(),
                visits: Seq::empty(),
            }
        } else {
            let top = stack.last();
            let (stream, output, written) = visit_node_with(
                self.streams[top.target.id],
                visitor,
                top.source,
                top.input,
                tape.first(),
            );
            let streams = self.streams.insert(top.target.id, stream);
            let visit = Visit { source: top.source, target: top.target, input: top.input, output };
            match output {
                Err(error) => Outcome {
                    streams,
                    result: Err(GraphError::Stream(top.target, error)),
                    written,
                    visits: seq![visit],
                },
                Ok(blobs) => {
                    let next = stack.drop_last() + fan_out(
                        top.target,
                        self.edges[top.target.id],
                        blobs,
                    );
                    proof {
                        lemma_load_step(self.edges, stack, blobs);
                    }
                    let then = self.with_streams(streams).run_with(
                        next,
                        visitor,
                        tape.drop_first(),
                    );
                    Outcome {
                        streams: then.streams,
                        result: then.result,
                        written: written + then.written,
                        visits: seq![visit] + then.visits,
                    }
                },
            }
        }
    }

    /// Whether a tape is one that a dispatch with `mean` may leave: it has
    /// one entry for each delivery, and the entry of a delivery to a merge
    /// holds samples that `mean` may have made there.
    pub open spec fn follows<F: Fn(u64, u64, u64) -> u64>(
        self,
        stack: Seq<Task>,
        visitor: Visitor,
        mean: F,
        tape: Tape,
    ) -> bool
        decreases load(self.edges, stack),
        when self.wf() && deliverable(self.edges, stack)
    {
        if stack.len() == 0 {
            tape.len() == 0
        } else {
            let top = stack.last();
            let (stream, output, written) = visit_node_with(
                self.streams[top.target.id],
                visitor,
                top.source,
                top.input,
                tape.first(),
            );
            &&& tape.len() > 0
            &&& visitor == Visitor::OnNext ==> self.streams[top.target.id].makes(
                top.source,
                top.input,
                mean,
                tape.first(),
            )
            &&& match output {
                Err(error) => tape.len() == 1,
                Ok(blobs) => {
                    let next = stack.drop_last() + fan_out(
                        top.target,
                        self.edges[top.target.id],
                        blobs,
                    );
                    proof {
                        lemma_load_step(self.edges, stack, blobs);
                    }
                    self.with_streams(self.streams.insert(top.target.id, stream)).follows(
                        next,
                        visitor,
                        mean,
                        tape.drop_first(),
                    )
                },
            }
        }
    }

    /// Whether a dispatch went as a tape says: the tape is one that the
    /// dispatch may leave, and the nodes, the result and the log are what the
    /// dispatch gives with the samples of the tape.
    pub open spec fn went<F: Fn(u64, u64, u64) -> u64>(
        self,
        source: StreamRef,
        entry: StreamRef,
        data: Seq<Blob>,
        visitor: Visitor,
        mean: F,
        tape: Tape,
        streams: Map<usize, StreamView>,
        done: Result<(), GraphError>,
        before: Seq<PageWriteView>,
        logged: Seq<PageWriteView>,
    ) -> bool {
        let first = seq![Task { source, target: entry, input: data }];
        let outcome = self.run_with(first, visitor, tape);
        &&& self.follows(first, visitor, mean, tape)
        &&& streams == outcome.streams
        &&& done == outcome.result
        &&& logged == before + outcome.written
    }

    /// Whether a dispatch went as some tape says.
    pub open spec fn dispatched<F: Fn(u64, u64, u64) -> u64>(
        self,
        source: StreamRef,
        entry: StreamRef,
        data: Seq<Blob>,
        visitor: Visitor,
        mean: F,
        streams: Map<usize, StreamView>,
        done: Result<(), GraphError>,
        before: Seq<PageWriteView>,
        logged: Seq<PageWriteView>,
    ) -> bool {
        exists|tape: Tape| #[trigger]
            self.went(source, entry, data, visitor, mean, tape, streams, done, before, logged)
    }

    /// A dispatch that starts at `entry` with the batch `data`, which comes
    /// from `source`.
    pub open spec fn dispatch(
        self,
        source: StreamRef,
        entry: StreamRef,
        data: Seq<Blob>,
        visitor: Visitor,
        formula: Formula,
    ) -> Outcome {
        self.run(seq![Task { source, target: entry, input: data }], visitor, formula)
    }

    /// A dispatch that starts at `entry` with the batch `data`, which comes
    /// from the graph's root.
    pub open spec fn visit_from(
        self,
        entry: StreamRef,
        data: Seq<Blob>,
        visitor: Visitor,
        formula: Formula,
    ) -> Outcome {
        self.dispatch(self.root, entry, data, visitor, formula)
    }
}

/// How often a batch was delivered from a source to a target.
pub open spec fn deliveries(
    visits: Seq<Visit>,
    source: StreamRef,
    target: StreamRef,
    input: Seq<Blob>,
) -> nat
    decreases visits.len(),
{
    if visits.len() == 0 {
        0
    } else {
        let last = visits.last();
        deliveries(visits.drop_last(), source, target, input) + if last.source == source
            && last.target == target && last.input == input {
            1nat
        } else {
            0nat
        }
    }
}

/// How often a batch waits on a stack to be delivered from a source to a target.
pub open spec fn waiting(
    stack: Seq<Task>,
    source: StreamRef,
    target: StreamRef,
    input: Seq<Blob>,
) -> nat
    decreases stack.len(),
{
    if stack.len() == 0 {
        0
    } else {
        let last = stack.last();
        waiting(stack.drop_last(), source, target, input) + if last.source == source
            && last.target == target && last.input == input {
            1nat
        } else {
            0nat
        }
    }
}

/// How often a stream stands among the children of a node.
pub open spec fn occurrences(children: Seq<StreamRef>, child: StreamRef) -> nat
    decreases children.len(),
{
    if children.len() == 0 {
        0
    } else {
        occurrences(children.drop_last(), child) + if children.last() == child {
            1nat
        } else {
            0nat
        }
    }
}

/// What waits on two stacks, one on top of the other, is what waits on each.
pub proof fn lemma_waiting_add(
    below: Seq<Task>,
    above: Seq<Task>,
    source: StreamRef,
    target: StreamRef,
    input: Seq<Blob>,
)
    ensures
        waiting(below + above, source, target, input) == waiting(below, source, target, input)
            + waiting(above, source, target, input),
    decreases above.len(),
{
    if above.len() == 0 {
        assert(below + above =~= below);
    } else {
        assert((below + above).drop_last() =~= below + above.drop_last());
        assert((below + above).last() == above.last());
        lemma_waiting_add(below, above.drop_last(), source, target, input);
    }
}

/// The deliveries of one visit and of those that follow it.
pub proof fn lemma_deliveries_first(
    first: Visit,
    then: Seq<Visit>,
    source: StreamRef,
    target: StreamRef,
    input: Seq<Blob>,
)
    ensures
        deliveries(seq![first] + then, source, target, input) == deliveries(
            then,
            source,
            target,
            input,
        ) + if first.source == source && first.target == target && first.input == input {
            1nat
        } else {
            0nat
        },
    decreases then.len(),
{
    let all = seq![first] + then;
    if then.len() == 0 {
        assert(all.drop_last() =~= then);
        assert(all.last() == first);
        assert(deliveries(then, source, target, input) == 0);
    } else {
        assert(all.drop_last() =~= seq![first] + then.drop_last());
        assert(all.last() == then.last());
        lemma_deliveries_first(first, then.drop_last(), source, target, input);
    }
}

/// In a node's fan-out, a batch from the node waits for a child as often as
/// the child stands among the node's children, and it is the node's output;
/// nothing waits there that comes from another node.
pub proof fn lemma_waiting_fan_out(
    node: StreamRef,
    children: Seq<StreamRef>,
    output: Seq<Blob>,
    source: StreamRef,
    target: StreamRef,
    input: Seq<Blob>,
)
    ensures
        waiting(fan_out(node, children, output), source, target, input) == if node == source
            && input == output {
            occurrences(children, target)
        } else {
            0
        },
    decreases children.len(),
{
    let pushed = fan_out(node, children, output);
    if children.len() > 0 {
        assert(pushed.drop_last() =~= fan_out(node, children.drop_last(), output));
        assert(pushed.last() == (Task { source: node, target: children.last(), input: output }));
        lemma_waiting_fan_out(node, children.drop_last(), output, source, target, input);
    }
}

/// While every delivery on a stack is for a node below `source`, a dispatch
/// that no node refuses delivers from `source` what waited on the stack from
/// `source`, and nothing else.
pub proof fn lemma_run_deliveries(
    graph: GraphView,
    stack: Seq<Task>,
    visitor: Visitor,
    formula: Formula,
    source: StreamRef,
    target: StreamRef,
    input: Seq<Blob>,
)
    requires
        graph.wf(),
        deliverable(graph.edges, stack),
        forall|k: int|
            0 <= k < stack.len() ==> heights(graph.edges)((#[trigger] stack[k]).target.id)
                < heights(graph.edges)(source.id),
        graph.run(stack, visitor, formula).result is Ok,
    ensures
        deliveries(graph.run(stack, visitor, formula).visits, source, target, input) == waiting(
            stack,
            source,
            target,
            input,
        ),
    decreases load(graph.edges, stack),
{
    if stack.len() > 0 {
        let top = stack.last();
        let rest = stack.drop_last();
        assert(top == stack[stack.len() - 1]);
        let (stream, output, written) = visit_node(
            graph.streams[top.target.id],
            visitor,
            formula,
            top.source,
            top.input,
        );
        let streams = graph.streams.insert(top.target.id, stream);
        let visit = Visit { source: top.source, target: top.target, input: top.input, output };
        match output {
            Err(error) => {},
            Ok(blobs) => {
                let children = graph.edges[top.target.id];
                let pushed = fan_out(top.target, children, blobs);
                let next = rest + pushed;
                let after = graph.with_streams(streams);
                lemma_load_step(graph.edges, stack, blobs);
                assert(after.streams.dom() =~= graph.streams.dom());
                lemma_heights(graph.edges);
                assert forall|k: int| 0 <= k < next.len() implies heights(graph.edges)(
                    (#[trigger] next[k]).target.id,
                ) < heights(graph.edges)(source.id) by {
                    if k < rest.len() {
                        assert(next[k] == stack[k]);
                    } else {
                        assert(next[k].target == children[k - rest.len()]);
                    }
                }
                lemma_run_deliveries(after, next, visitor, formula, source, target, input);
                lemma_deliveries_first(
                    visit,
                    after.run(next, visitor, formula).visits,
                    source,
                    target,
                    input,
                );
                lemma_waiting_add(rest, pushed, source, target, input);
                lemma_waiting_fan_out(top.target, children, blobs, source, target, input);
            },
        }
    }
}

/// A dispatch that no node refuses delivers the output of its entry to each
/// child of the entry exactly as often as the child stands among the entry's
/// children, whatever lies behind the children, and delivers nothing else
/// from the entry: a child that was subscribed once is visited from the entry
/// exactly once, with what the entry handed on.
pub proof fn lemma_each_child_once(
    graph: GraphView,
    entry: StreamRef,
    data: Seq<Blob>,
    visitor: Visitor,
    formula: Formula,
    child: StreamRef,
    input: Seq<Blob>,
)
    requires
        graph.wf(),
        graph.streams.contains_key(entry.id),
        graph.visit_from(entry, data, visitor, formula).result is Ok,
    ensures
        ({
            let outcome = graph.visit_from(entry, data, visitor, formula);
            let output = visit_node(graph.streams[entry.id], visitor, formula, graph.root, data).1;
            &&& output is Ok
            &&& outcome.visits.len() > 0
            &&& outcome.visits[0] == (Visit {
                source: graph.root,
                target: entry,
                input: data,
                output,
            })
            &&& deliveries(outcome.visits.drop_first(), entry, child, input) == if input
                == output.unwrap() {
                occurrences(graph.edges[entry.id], child)
            } else {
                0
            }
        }),
{
    let first = Task { source: graph.root, target: entry, input: data };
    let stack = seq![first];
    assert(stack.last() == first);
    assert(deliverable(graph.edges, stack));
    let (stream, output, written) = visit_node(
        graph.streams[entry.id],
        visitor,
        formula,
        graph.root,
        data,
    );
    let streams = graph.streams.insert(entry.id, stream);
    let visit = Visit { source: graph.root, target: entry, input: data, output };
    match output {
        Err(error) => {},
        Ok(blobs) => {
            let children = graph.edges[entry.id];
            let pushed = fan_out(entry, children, blobs);
            let after = graph.with_streams(streams);
            lemma_load_step(graph.edges, stack, blobs);
            assert(stack.drop_last() + pushed =~= pushed);
            assert(after.streams.dom() =~= graph.streams.dom());
            let then = after.run(pushed, visitor, formula);
            assert(graph.visit_from(entry, data, visitor, formula).visits == seq![visit]
                + then.visits);
            assert((seq![visit] + then.visits).drop_first() =~= then.visits);
            lemma_heights(graph.edges);
            assert forall|k: int| 0 <= k < pushed.len() implies heights(graph.edges)(
                (#[trigger] pushed[k]).target.id,
            ) < heights(graph.edges)(entry.id) by {
                assert(pushed[k].target == children[k]);
            }
            lemma_run_deliveries(after, pushed, visitor, formula, entry, child, input);
            lemma_waiting_fan_out(entry, children, blobs, entry, child, input);
        },
    }
}

/// How a visit that ends a dispatch is reported.
pub open spec fn reported(target: StreamRef, output: Emitted) -> Result<(), GraphError> {
    match output {
        Ok(_) => Ok(()),
        Err(error) => Err(GraphError::Stream(target, error)),
    }
}

/// A dispatch to a node without children is one visit of that node: only
/// this node changes, and what it writes is all that is written.
pub proof fn lemma_dispatch_to_leaf(
    graph: GraphView,
    source: StreamRef,
    entry: StreamRef,
    data: Seq<Blob>,
    visitor: Visitor,
    formula: Formula,
)
    requires
        graph.wf(),
        graph.streams.contains_key(entry.id),
        graph.edges[entry.id].len() == 0,
    ensures
        ({
            let outcome = graph.dispatch(source, entry, data, visitor, formula);
            let (stream, output, written) = visit_node(
                graph.streams[entry.id],
                visitor,
                formula,
                source,
                data,
            );
            &&& outcome.streams == graph.streams.insert(entry.id, stream)
            &&& outcome.result == reported(entry, output)
            &&& outcome.written == written
            &&& outcome.visits == seq![Visit { source, target: entry, input: data, output }]
        }),
{
    let first = Task { source, target: entry, input: data };
    let stack = seq![first];
    assert(stack.last() == first);
    assert(deliverable(graph.edges, stack));
    let (stream, output, written) = visit_node(
        graph.streams[entry.id],
        visitor,
        formula,
        source,
        data,
    );
    let streams = graph.streams.insert(entry.id, stream);
    let visit = Visit { source, target: entry, input: data, output };
    match output {
        Err(error) => {},
        Ok(blobs) => {
            let pushed = fan_out(entry, graph.edges[entry.id], blobs);
            let after = graph.with_streams(streams);
            assert(stack.drop_last() + pushed =~= Seq::<Task>::empty());
            assert(after.streams.dom() =~= graph.streams.dom());
            assert(deliverable(after.edges, Seq::<Task>::empty()));
            let then = after.run(Seq::<Task>::empty(), visitor, formula);
            assert(written + then.written =~= written);
            assert(seq![visit] + then.visits =~= seq![visit]);
        },
    }
}

/// Whether a dispatch can be described with `formula`: a flush makes no
/// sample, so that any formula describes it; a dispatch of a batch is
/// described with a formula that `mean` computes.
pub open spec fn described<F: Fn(u64, u64, u64) -> u64>(
    mean: F,
    visitor: Visitor,
    formula: Formula,
) -> bool {
    visitor == Visitor::Flush || computes(mean, formula)
}

/// Whether a dispatch is on its course: what is left of it ends as the whole
/// of it ends, and what it has written and what is left to write is what the
/// whole writes.
pub open spec fn on_course(
    whole: Outcome,
    left: Outcome,
    before: Seq<PageWriteView>,
    logged: Seq<PageWriteView>,
) -> bool {
    &&& whole.streams == left.streams
    &&& whole.result == left.result
    &&& before + whole.written == logged + left.written
}

/// What is left of a dispatch after its next delivery, where the node takes
/// its batch: the dispatch stays on its course.
proof fn lemma_course_kept(
    whole: Outcome,
    graph: GraphView,
    stack: Seq<Task>,
    visitor: Visitor,
    formula: Formula,
    out: Seq<Blob>,
    before: Seq<PageWriteView>,
    logged: Seq<PageWriteView>,
)
    requires
        graph.wf(),
        deliverable(graph.edges, stack),
        stack.len() > 0,
        on_course(whole, graph.run(stack, visitor, formula), before, logged),
        visit_node(
            graph.streams[stack.last().target.id],
            visitor,
            formula,
            stack.last().source,
            stack.last().input,
        ).1 == Ok::<Seq<Blob>, StreamError>(out),
    ensures
        ({
            let top = stack.last();
            let step = visit_node(
                graph.streams[top.target.id],
                visitor,
                formula,
                top.source,
                top.input,
            );
            on_course(
                whole,
                graph.with_streams(graph.streams.insert(top.target.id, step.0)).run(
                    stack.drop_last() + fan_out(top.target, graph.edges[top.target.id], out),
                    visitor,
                    formula,
                ),
                before,
                logged + step.2,
            )
        }),
{
    let top = stack.last();
    let step = visit_node(graph.streams[top.target.id], visitor, formula, top.source, top.input);
    let after = graph.with_streams(graph.streams.insert(top.target.id, step.0));
    let next = stack.drop_last() + fan_out(top.target, graph.edges[top.target.id], out);
    assert(graph.edges.contains_key(stack[stack.len() - 1].target.id));
    lemma_load_step(graph.edges, stack, out);
    assert(after.streams.dom() =~= graph.streams.dom());
    let then = after.run(next, visitor, formula);
    assert(logged + (step.2 + then.written) =~= logged + step.2 + then.written);
}

/// What is left of a dispatch at the delivery that a node refuses: the
/// dispatch ends there.
proof fn lemma_course_ended(
    whole: Outcome,
    graph: GraphView,
    stack: Seq<Task>,
    visitor: Visitor,
    formula: Formula,
    error: StreamError,
    before: Seq<PageWriteView>,
    logged: Seq<PageWriteView>,
)
    requires
        graph.wf(),
        deliverable(graph.edges, stack),
        stack.len() > 0,
        on_course(whole, graph.run(stack, visitor, formula), before, logged),
        visit_node(
            graph.streams[stack.last().target.id],
            visitor,
            formula,
            stack.last().source,
            stack.last().input,
        ).1 == Err::<Seq<Blob>, StreamError>(error),
    ensures
        ({
            let top = stack.last();
            let step = visit_node(
                graph.streams[top.target.id],
                visitor,
                formula,
                top.source,
                top.input,
            );
            &&& whole.streams == graph.streams.insert(top.target.id, step.0)
            &&& whole.result == Err::<(), GraphError>(GraphError::Stream(top.target, error))
            &&& before + whole.written == logged + step.2
        }),
{
}

/// Whether a dispatch is on the track of a tape: the tape is one that the
/// whole dispatch may leave, and what is left of the dispatch is on the course
/// of the whole.
pub open spec fn on_track<F: Fn(u64, u64, u64) -> u64>(
    start: GraphView,
    first: Seq<Task>,
    visitor: Visitor,
    mean: F,
    tape: Tape,
    left: Outcome,
    before: Seq<PageWriteView>,
    logged: Seq<PageWriteView>,
) -> bool {
    &&& start.follows(first, visitor, mean, tape)
    &&& on_course(start.run_with(first, visitor, tape), left, before, logged)
}

/// A tape of what is left of a dispatch, behind the samples of the next
/// delivery, is a tape of the dispatch from that delivery on.
proof fn lemma_tape_grows<F: Fn(u64, u64, u64) -> u64>(
    graph: GraphView,
    stack: Seq<Task>,
    visitor: Visitor,
    mean: F,
    tape: Tape,
    out: Seq<Blob>,
)
    requires
        graph.wf(),
        deliverable(graph.edges, stack),
        stack.len() > 0,
        tape.len() > 0,
        visitor == Visitor::OnNext ==> graph.streams[stack.last().target.id].makes(
            stack.last().source,
            stack.last().input,
            mean,
            tape.first(),
        ),
        visit_node_with(
            graph.streams[stack.last().target.id],
            visitor,
            stack.last().source,
            stack.last().input,
            tape.first(),
        ).1 == Ok::<Seq<Blob>, StreamError>(out),
        graph.with_streams(
            graph.streams.insert(
                stack.last().target.id,
                visit_node_with(
                    graph.streams[stack.last().target.id],
                    visitor,
                    stack.last().source,
                    stack.last().input,
                    tape.first(),
                ).0,
            ),
        ).follows(
            stack.drop_last() + fan_out(
                stack.last().target,
                graph.edges[stack.last().target.id],
                out,
            ),
            visitor,
            mean,
            tape.drop_first(),
        ),
    ensures
        graph.follows(stack, visitor, mean, tape),
{
    let top = stack.last();
    let step = visit_node_with(
        graph.streams[top.target.id],
        visitor,
        top.source,
        top.input,
        tape.first(),
    );
    let after = graph.with_streams(graph.streams.insert(top.target.id, step.0));
    let next = stack.drop_last() + fan_out(top.target, graph.edges[top.target.id], out);
    assert(graph.edges.contains_key(stack[stack.len() - 1].target.id));
    lemma_load_step(graph.edges, stack, out);
    assert(after.streams.dom() =~= graph.streams.dom());
    assert(after.wf() && deliverable(after.edges, next));
    assert(after.follows(next, visitor, mean, tape.drop_first()));
}

/// What is left of a dispatch after its next delivery, where the node takes
/// its batch and the samples are read from a tape.
proof fn lemma_track_kept(
    whole: Outcome,
    graph: GraphView,
    stack: Seq<Task>,
    visitor: Visitor,
    made: Seq<Blob>,
    rest: Tape,
    out: Seq<Blob>,
    before: Seq<PageWriteView>,
    logged: Seq<PageWriteView>,
)
    requires
        graph.wf(),
        deliverable(graph.edges, stack),
        stack.len() > 0,
        on_course(whole, graph.run_with(stack, visitor, seq![made] + rest), before, logged),
        visit_node_with(
            graph.streams[stack.last().target.id],
            visitor,
            stack.last().source,
            stack.last().input,
            made,
        ).1 == Ok::<Seq<Blob>, StreamError>(out),
    ensures
        ({
            let top = stack.last();
            let step = visit_node_with(
                graph.streams[top.target.id],
                visitor,
                top.source,
                top.input,
                made,
            );
            on_course(
                whole,
                graph.with_streams(graph.streams.insert(top.target.id, step.0)).run_with(
                    stack.drop_last() + fan_out(top.target, graph.edges[top.target.id], out),
                    visitor,
                    rest,
                ),
                before,
                logged + step.2,
            )
        }),
{
    let tape = seq![made] + rest;
    assert(tape.first() == made);
    assert(tape.drop_first() =~= rest);
    let top = stack.last();
    let step = visit_node_with(graph.streams[top.target.id], visitor, top.source, top.input, made);
    let after = graph.with_streams(graph.streams.insert(top.target.id, step.0));
    let next = stack.drop_last() + fan_out(top.target, graph.edges[top.target.id], out);
    assert(graph.edges.contains_key(stack[stack.len() - 1].target.id));
    lemma_load_step(graph.edges, stack, out);
    assert(after.streams.dom() =~= graph.streams.dom());
    let then = after.run_with(next, visitor, rest);
    assert(logged + (step.2 + then.written) =~= logged + step.2 + then.written);
}

/// What is left of a dispatch at the delivery that a node refuses, where the
/// samples are read from a tape.
proof fn lemma_track_ended<F: Fn(u64, u64, u64) -> u64>(
    whole: Outcome,
    graph: GraphView,
    stack: Seq<Task>,
    visitor: Visitor,
    mean: F,
    made: Seq<Blob>,
    error: StreamError,
    before: Seq<PageWriteView>,
    logged: Seq<PageWriteView>,
)
    requires
        graph.wf(),
        deliverable(graph.edges, stack),
        stack.len() > 0,
        visitor == Visitor::OnNext ==> graph.streams[stack.last().target.id].makes(
            stack.last().source,
            stack.last().input,
            mean,
            made,
        ),
        visit_node_with(
            graph.streams[stack.last().target.id],
            visitor,
            stack.last().source,
            stack.last().input,
            made,
        ).1 == Err::<Seq<Blob>, StreamError>(error),
    ensures
        graph.follows(stack, visitor, mean, seq![made]),
        on_course(whole, graph.run_with(stack, visitor, seq![made]), before, logged) ==> ({
            let top = stack.last();
            let step = visit_node_with(
                graph.streams[top.target.id],
                visitor,
                top.source,
                top.input,
                made,
            );
            &&& whole.streams == graph.streams.insert(top.target.id, step.0)
            &&& whole.result == Err::<(), GraphError>(GraphError::Stream(top.target, error))
            &&& before + whole.written == logged + step.2
        }),
{
    let tape = seq![made];
    assert(tape.first() == made);
}

/// The waiting deliveries of a stack, as values.
pub open spec fn tasks(stack: Seq<(StreamRef, StreamRef, Vec<Blob>)>) -> Seq<Task> {
    stack.map_values(
        |entry: (StreamRef, StreamRef, Vec<Blob>)|
            Task { source: entry.0, target: entry.1, input: entry.2@ },
    )
}

/// Pushes a node's output onto the stack, once for each child.
fn push_fan_out(
    buf: &mut Vec<(StreamRef, StreamRef, Vec<Blob>)>,
    target: StreamRef,
    children: &Vec<StreamRef>,
    out: &Vec<Blob>,
)
    ensures
        tasks(final(buf)@) == tasks(old(buf)@) + fan_out(target, children@, out@),
{
    let ghost rest = tasks(buf@);
    let mut k: usize = 0;
    assert(children@.take(0) =~= Seq::empty());
    assert(rest + fan_out(target, children@.take(0), out@) =~= rest);
    while k < children.len()
        invariant
            k <= children@.len(),
            tasks(buf@) == rest + fan_out(target, children@.take(k as int), out@),
        decreases children@.len() - k,
    {
        let child = children[k];
        let ghost pushed = tasks(buf@);
        buf.push((target, child, out.clone()));
        proof {
            let more = fan_out(target, children@.take(k + 1), out@);
            let less = fan_out(target, children@.take(k as int), out@);
            let task = Task { source: target, target: child, input: out@ };
            assert(children@.take(k + 1) =~= children@.take(k as int).push(child));
            assert(more =~= less.push(task));
            assert(tasks(buf@) =~= pushed.push(task));
            assert(tasks(buf@) =~= rest + more);
        }
        k += 1;
    }
    assert(children@.take(children@.len() as int) =~= children@);
}

/// The stream nodes and the edges between them.
pub struct Graph {
    nodes: HashMap<usize, Node>,
    root: StreamRef,
}

impl View for Graph {
    type V = GraphView;

    closed spec fn view(&self) -> GraphView {
        GraphView {
            streams: Map::new(
                |id: usize| self.nodes@.contains_key(id),
                |id: usize| self.nodes@[id].stream@,
            ),
            edges: Map::new(
                |id: usize| self.nodes@.contains_key(id),
                |id: usize| self.nodes@[id].children@,
            ),
            root: self.root,
        }
    }
}

impl Graph {
    /// Every node is well formed and stands under the number of its stream,
    /// and the graph is well formed as a value.
    pub closed spec fn wf(&self) -> bool {
        &&& self@.wf()
        &&& forall|id: usize| #[trigger]
            self.nodes@.contains_key(id) ==> self.nodes@[id].stream.wf() && self.nodes@[id].defn.id
                == id
    }

    /// A well-formed graph is well formed as a value, and so is each of its nodes.
    pub proof fn lemma_view_wf(&self)
        requires
            self.wf(),
        ensures
            self@.wf(),
            forall|id: usize| #[trigger]
                self@.streams.contains_key(id) ==> self@.streams[id].wf(),
    {
        assert forall|id: usize| #[trigger] self@.streams.contains_key(id) implies self@.streams[id].wf() by {
            assert(self.nodes@.contains_key(id));
            self.nodes@[id].stream.lemma_view_wf();
        }
    }

    /// A graph without nodes. `root` is named as the source of every batch
    /// that enters the graph.
    pub fn new(root: StreamRef) -> (graph: Graph)
        ensures
            graph.wf(),
            graph@ == (GraphView { streams: Map::empty(), edges: Map::empty(), root }),
    {
        let graph = Graph { nodes: HashMap::new(), root };
        proof {
            assert(graph@.streams =~= Map::empty());
            assert(graph@.edges =~= Map::empty());
            assert(graph@.streams.dom() =~= graph@.edges.dom());
            let flat: Heights = |id: usize| 0nat;
            assert(ranked(graph@.edges, flat));
        }
        graph
    }

    /// Whether the graph holds a node for a stream.
    pub fn contains(&self, key: StreamRef) -> (yes: bool)
        ensures
            yes == self@.streams.contains_key(key.id),
    {
        self.nodes.contains_key(&key.id)
    }

    /// Puts a node without children into the graph, in the place of the node
    /// that the stream had before, if it had one.
    pub fn add(&mut self, stream_definition: StreamRef, stream: Stream)
        requires
            old(self).wf(),
            stream.wf(),
        ensures
            final(self).wf(),
            final(self)@ == (GraphView {
                streams: old(self)@.streams.insert(stream_definition.id, stream@),
                edges: old(self)@.edges.insert(stream_definition.id, Seq::empty()),
                root: old(self)@.root,
            }),
    {
        let node = Node::new(stream_definition, stream);
        self.nodes.insert(stream_definition.id, node);
        proof {
            assert(self@.streams =~= old(self)@.streams.insert(stream_definition.id, stream@));
            assert(self@.edges =~= old(self)@.edges.insert(stream_definition.id, Seq::empty()));
            assert(self@.streams.dom() =~= self@.edges.dom());
            let height = heights(old(self)@.edges);
            lemma_heights(old(self)@.edges);
            assert forall|id: usize, k: int|
                self@.edges.contains_key(id) && 0 <= k < self@.edges[id].len() implies height(
                (#[trigger] self@.edges[id][k]).id,
            ) < height(id) && self@.edges.contains_key(self@.edges[id][k].id) by {
                assert(old(self)@.edges.contains_key(id));
                assert(old(self)@.edges[id][k] == self@.edges[id][k]);
            }
            assert(ranked(self@.edges, height));
        }
    }

    /// Whether a path of edges leads from one node to another.
    pub fn leads_to(&self, from: StreamRef, to: StreamRef) -> (yes: bool)
        requires
            self.wf(),
            self@.edges.contains_key(from.id),
        ensures
            yes == reaches(self@.edges, from.id, to.id),
        decreases heights(self@.edges)(from.id),
    {
        if from.id == to.id {
            return true;
        }
        let ghost edges = self@.edges;
        let ghost height = heights(edges);
        proof {
            lemma_heights(edges);
        }
        let children = match self.nodes.get(&from.id) {
            Some(node) => &node.children,
            None => {
                return false;
            },
        };
        let mut k: usize = 0;
        assert(children@.take(0) =~= Seq::empty());
        while k < children.len()
            invariant
                k <= children@.len(),
                self.wf(),
                edges == self@.edges,
                height == heights(edges),
                ranked(edges, height),
                edges.contains_key(from.id),
                children@ == edges[from.id],
                !leads_any(edges, height, height(from.id), children@.take(k as int), to.id),
            decreases children@.len() - k,
        {
            let child = children[k];
            proof {
                assert(child == edges[from.id][k as int]);
                assert(height(child.id) < height(from.id));
                assert(children@.take(k + 1).drop_last() =~= children@.take(k as int));
                assert(children@.take(k + 1).last() == child);
            }
            if self.leads_to(child, to) {
                proof {
                    lemma_leads_step(edges, height, from.id, k as int, to.id);
                }
                return true;
            }
            k += 1;
        }
        assert(children@.take(children@.len() as int) =~= children@);
        false
    }

    /// Makes `target` a child of `source`. Both must be nodes of the graph,
    /// and no path may lead from `target` back to `source`: the edge would
    /// close a cycle.
    pub fn subscribe(&mut self, source: StreamRef, target: StreamRef) -> (done: Result<
        (),
        GraphError,
    >)
        requires
            old(self).wf(),
        ensures
            final(self).wf(),
            done == old(self)@.subscribed(source, target).1,
            final(self)@ == old(self)@.subscribed(source, target).0,
    {
        if !self.nodes.contains_key(&source.id) {
            return Err(GraphError::UnknownNode(source));
        }
        if !self.nodes.contains_key(&target.id) {
            return Err(GraphError::UnknownNode(target));
        }
        if self.leads_to(target, source) {
            return Err(GraphError::Cycle);
        }
        let mut source_node = self.nodes.remove(&source.id).unwrap();
        let ghost before = source_node.children@;
        source_node.children.push(target);
        self.nodes.insert(source.id, source_node);
        proof {
            assert(self@.streams =~= old(self)@.streams);
            assert(self@.edges =~= old(self)@.edges.insert(source.id, before.push(target)));
            assert(self@.streams.dom() =~= self@.edges.dom());
            lemma_edge_keeps_acyclic(old(self)@.edges, source.id, target);
        }
        Ok(())
    }

    /// The node of a stream, if the graph holds one.
    pub fn get_stream(&self, key: StreamRef) -> (found: Option<&Stream>)
        requires
            self.wf(),
        ensures
            match found {
                Some(stream) => self@.streams.contains_key(key.id) && stream@ == self@.streams[key.id]
                    && stream.wf(),
                None => !self@.streams.contains_key(key.id),
            },
    {
        match self.nodes.get(&key.id) {
            Some(node) => Some(&node.stream),
            None => None,
        }
    }

    /// The children of a stream's node, if the graph holds one.
    pub fn children(&self, key: StreamRef) -> (found: Option<&Vec<StreamRef>>)
        ensures
            match found {
                Some(children) => self@.edges.contains_key(key.id) && children@
                    == self@.edges[key.id],
                None => !self@.edges.contains_key(key.id),
            },
    {
        match self.nodes.get(&key.id) {
            Some(node) => Some(&node.children),
            None => None,
        }
    }

    /// A dispatch that starts at the node of `source`.
    pub fn visit<F: Fn(u64, u64, u64) -> u64>(
        &mut self,
        source: StreamRef,
        data: Vec<Blob>,
        visitor: Visitor,
        mean: &F,
        log: &mut Vec<PageWrite>,
    ) -> (done: Result<(), GraphError>)
        requires
            old(self).wf(),
            total(*mean),
        ensures
            final(self).wf(),
            final(self)@.edges == old(self)@.edges,
            final(self)@.root == old(self)@.root,
            !old(self)@.streams.contains_key(source.id) ==> done == Err::<(), GraphError>(
                GraphError::UnknownNode(source),
            ) && final(self)@ == old(self)@ && writes(final(log)@) == writes(old(log)@),
            writes(old(log)@).is_prefix_of(writes(final(log)@)),
            old(self)@.streams.contains_key(source.id) ==> old(self)@.dispatched(
                old(self)@.root,
                source,
                data@,
                visitor,
                *mean,
                final(self)@.streams,
                done,
                writes(old(log)@),
                writes(final(log)@),
            ),
            old(self)@.streams.contains_key(source.id) ==> forall|formula: Formula|
                #![trigger described(*mean, visitor, formula)]
                described(*mean, visitor, formula) ==> {
                    let outcome = old(self)@.visit_from(source, data@, visitor, formula);
                    &&& final(self)@.streams == outcome.streams
                    &&& done == outcome.result
                    &&& writes(final(log)@) == writes(old(log)@) + outcome.written
                },
    {
        if !self.nodes.contains_key(&source.id) {
            return Err(GraphError::UnknownNode(source));
        }
        self.visit_from(source, data, visitor, mean, log)
    }

    /// Dispatches a batch that comes from `source` through the graph, depth
    /// first, from the node of `def` on: each node that is reached is visited
    /// with what its parent handed on, once for each path that leads to it.
    /// The dispatch stops at the first node that refuses its batch.
    pub fn dispatch<F: Fn(u64, u64, u64) -> u64>(
        &mut self,
        source: StreamRef,
        def: StreamRef,
        data: Vec<Blob>,
        visitor: Visitor,
        mean: &F,
        log: &mut Vec<PageWrite>,
    ) -> (done: Result<(), GraphError>)
        requires
            old(self).wf(),
            total(*mean),
        ensures
            final(self).wf(),
            final(self)@.edges == old(self)@.edges,
            final(self)@.root == old(self)@.root,
            !old(self)@.streams.contains_key(def.id) ==> done == Err::<(), GraphError>(
                GraphError::UnknownNode(def),
            ) && final(self)@ == old(self)@ && writes(final(log)@) == writes(old(log)@),
            writes(old(log)@).is_prefix_of(writes(final(log)@)),
            old(self)@.streams.contains_key(def.id) ==> old(self)@.dispatched(
                source,
                def,
                data@,
                visitor,
                *mean,
                final(self)@.streams,
                done,
                writes(old(log)@),
                writes(final(log)@),
            ),
            old(self)@.streams.contains_key(def.id) ==> forall|formula: Formula|
                #![trigger described(*mean, visitor, formula)]
                described(*mean, visitor, formula) ==> {
                    let outcome = old(self)@.dispatch(source, def, data@, visitor, formula);
                    &&& final(self)@.streams == outcome.streams
                    &&& done == outcome.result
                    &&& writes(final(log)@) == writes(old(log)@) + outcome.written
                },
    {
        if !self.nodes.contains_key(&def.id) {
            return Err(GraphError::UnknownNode(def));
        }
        let ghost start = self@;
        let ghost before = writes(log@);
        let ghost given = data@;
        let mut buf: Vec<(StreamRef, StreamRef, Vec<Blob>)> = Vec::new();
        buf.push((source, def, data));
        let ghost first = seq![Task { source, target: def, input: given }];
        let ghost mut prefix: Tape = Seq::empty();
        proof {
            assert(tasks(buf@) =~= first);
            assert(before + Seq::<PageWriteView>::empty() =~= before);
            assert forall|rest: Tape| #[trigger]
                self@.follows(tasks(buf@), visitor, *mean, rest) implies on_track(
                start,
                first,
                visitor,
                *mean,
                prefix + rest,
                self@.run_with(tasks(buf@), visitor, rest),
                before,
                writes(log@),
            ) by {
                assert(prefix + rest =~= rest);
            }
        }
        while buf.len() > 0
            invariant
                self.wf(),
                total(*mean),
                start == old(self)@,
                before == writes(old(log)@),
                given == data@,
                start.streams.contains_key(def.id),
                self@.edges == start.edges,
                self@.root == start.root,
                deliverable(self@.edges, tasks(buf@)),
                before.is_prefix_of(writes(log@)),
                first == seq![Task { source, target: def, input: given }],
                forall|rest: Tape| #[trigger]
                    self@.follows(tasks(buf@), visitor, *mean, rest) ==> on_track(
                        start,
                        first,
                        visitor,
                        *mean,
                        prefix + rest,
                        self@.run_with(tasks(buf@), visitor, rest),
                        before,
                        writes(log@),
                    ),
                forall|formula: Formula|
                    #![trigger described(*mean, visitor, formula)]
                    described(*mean, visitor, formula) ==> on_course(
                        start.dispatch(source, def, given, visitor, formula),
                        self@.run(tasks(buf@), visitor, formula),
                        before,
                        writes(log@),
                    ),
            decreases load(self@.edges, tasks(buf@)),
        {
            let ghost stack = tasks(buf@);
            let ghost graph = self@;
            let (source_stream, target_stream, input_data) = buf.pop().unwrap();
            let ghost input = input_data@;
            proof {
                assert(stack.last() == (Task {
                    source: source_stream,
                    target: target_stream,
                    input,
                }));
                assert(tasks(buf@) =~= stack.drop_last());
                assert(graph.edges.contains_key(stack[stack.len() - 1].target.id));
            }
            let mut node = self.nodes.remove(&target_stream.id).unwrap();
            let ghost logged = writes(log@);
            let output = match visitor {
                Visitor::OnNext => node.stream.on_next(source_stream, input_data, mean, log),
                Visitor::Flush => {
                    node.stream.flush(log);
                    Ok(input_data)
                },
            };
            let ghost after = node.stream@;
            let ghost visited = graph.streams[target_stream.id];
            let ghost made = match visitor {
                Visitor::OnNext => {
                    let (made, written) = choose|made: Seq<Blob>, written: Seq<PageWriteView>|
                        writes(log@) == logged + written && #[trigger] visited.took(
                            source_stream,
                            input,
                            *mean,
                            made,
                            after,
                            output,
                            written,
                        );
                    made
                },
                Visitor::Flush => Seq::empty(),
            };
            let ghost step = visit_node_with(visited, visitor, source_stream, input, made);
            proof {
                assert(visitor == Visitor::OnNext ==> visited.makes(
                    source_stream,
                    input,
                    *mean,
                    made,
                ));
                assert(after == step.0);
                assert(emits(output, step.1));
                assert(writes(log@) == logged + step.2);
            }
            match output {
                Err(error) => {
                    self.nodes.insert(target_stream.id, node);
                    proof {
                        assert(self@.edges =~= graph.edges);
                        assert(self@.streams =~= graph.streams.insert(target_stream.id, after));
                        assert(self@.streams.dom() =~= self@.edges.dom());
                        assert forall|formula: Formula|
                            #![trigger described(*mean, visitor, formula)]
                            described(*mean, visitor, formula) implies {
                            let outcome = start.dispatch(source, def, given, visitor, formula);
                            &&& self@.streams == outcome.streams
                            &&& Err::<(), GraphError>(GraphError::Stream(target_stream, error))
                                == outcome.result
                            &&& writes(log@) == before + outcome.written
                        } by {
                            let whole = start.dispatch(source, def, given, visitor, formula);
                            assert(on_course(
                                whole,
                                graph.run(stack, visitor, formula),
                                before,
                                logged,
                            ));
                            lemma_course_ended(
                                whole,
                                graph,
                                stack,
                                visitor,
                                formula,
                                error,
                                before,
                                logged,
                            );
                        }
                    }
                    proof {
                        let tape = prefix + seq![made];
                        let whole = start.run_with(first, visitor, tape);
                        lemma_track_ended(
                            whole,
                            graph,
                            stack,
                            visitor,
                            *mean,
                            made,
                            error,
                            before,
                            logged,
                        );
                        assert(graph.follows(stack, visitor, *mean, seq![made]));
                        assert(start.went(
                            source,
                            def,
                            given,
                            visitor,
                            *mean,
                            tape,
                            self@.streams,
                            Err::<(), GraphError>(GraphError::Stream(target_stream, error)),
                            before,
                            writes(log@),
                        ));
                    }
                    return Err(GraphError::Stream(target_stream, error));
                },
                Ok(out) => {
                    push_fan_out(&mut buf, target_stream, &node.children, &out);
                    self.nodes.insert(target_stream.id, node);
                    proof {
                        assert(self@.edges =~= graph.edges);
                        assert(self@.streams =~= graph.streams.insert(target_stream.id, after));
                        assert(self@.streams.dom() =~= self@.edges.dom());
                        lemma_load_step(graph.edges, stack, out@);
                        assert forall|formula: Formula|
                            #![trigger described(*mean, visitor, formula)]
                            described(*mean, visitor, formula) implies on_course(
                            start.dispatch(source, def, given, visitor, formula),
                            self@.run(tasks(buf@), visitor, formula),
                            before,
                            writes(log@),
                        ) by {
                            let whole = start.dispatch(source, def, given, visitor, formula);
                            assert(on_course(
                                whole,
                                graph.run(stack, visitor, formula),
                                before,
                                logged,
                            ));
                            lemma_course_kept(
                                whole,
                                graph,
                                stack,
                                visitor,
                                formula,
                                out@,
                                before,
                                logged,
                            );
                        }
                        let grown = prefix.push(made);
                        assert forall|rest: Tape| #[trigger]
                            self@.follows(tasks(buf@), visitor, *mean, rest) implies on_track(
                            start,
                            first,
                            visitor,
                            *mean,
                            grown + rest,
                            self@.run_with(tasks(buf@), visitor, rest),
                            before,
                            writes(log@),
                        ) by {
                            let tape = seq![made] + rest;
                            assert(tape.first() == made);
                            assert(tape.drop_first() =~= rest);
                            assert(self@ == graph.with_streams(
                                graph.streams.insert(target_stream.id, step.0),
                            ));
                            lemma_tape_grows(graph, stack, visitor, *mean, tape, out@);
                            assert(graph.follows(stack, visitor, *mean, tape));
                            assert(prefix + tape =~= grown + rest);
                            lemma_track_kept(
                                start.run_with(first, visitor, prefix + tape),
                                graph,
                                stack,
                                visitor,
                                made,
                                rest,
                                out@,
                                before,
                                logged,
                            );
                        }
                        prefix = grown;
                    }
                },
            }
        }
        proof {
            assert(tasks(buf@) =~= Seq::empty());
            let none: Tape = Seq::empty();
            assert(self@.follows(tasks(buf@), visitor, *mean, none));
            assert(prefix + none =~= prefix);
            assert(writes(log@) + Seq::<PageWriteView>::empty() =~= writes(log@));
            assert(start.went(
                source,
                def,
                given,
                visitor,
                *mean,
                prefix,
                self@.streams,
                Ok::<(), GraphError>(()),
                before,
                writes(log@),
            ));
            assert forall|formula: Formula|
                #![trigger described(*mean, visitor, formula)]
                described(*mean, visitor, formula) implies {
                let outcome = start.dispatch(source, def, given, visitor, formula);
                &&& self@.streams == outcome.streams
                &&& Ok::<(), GraphError>(()) == outcome.result
                &&& writes(log@) == before + outcome.written
            } by {
                let whole = start.dispatch(source, def, given, visitor, formula);
                let found = self@.run(Seq::<Task>::empty(), visitor, formula);
                assert(tasks(buf@) == Seq::<Task>::empty());
                assert(on_course(whole, found, before, writes(log@)));
                assert(writes(log@) + Seq::<PageWriteView>::empty() =~= writes(log@));
            }
        }
        Ok(())
    }
    /// Dispatches a batch that enters the graph at the node of `def`: it comes
    /// from the graph's root. See [`Graph::dispatch`].
    pub fn visit_from<F: Fn(u64, u64, u64) -> u64>(
        &mut self,
        def: StreamRef,
        data: Vec<Blob>,
        visitor: Visitor,
        mean: &F,
        log: &mut Vec<PageWrite>,
    ) -> (done: Result<(), GraphError>)
        requires
            old(self).wf(),
            total(*mean),
        ensures
            final(self).wf(),
            final(self)@.edges == old(self)@.edges,
            final(self)@.root == old(self)@.root,
            !old(self)@.streams.contains_key(def.id) ==> done == Err::<(), GraphError>(
                GraphError::UnknownNode(def),
            ) && final(self)@ == old(self)@ && writes(final(log)@) == writes(old(log)@),
            writes(old(log)@).is_prefix_of(writes(final(log)@)),
            old(self)@.streams.contains_key(def.id) ==> old(self)@.dispatched(
                old(self)@.root,
                def,
                data@,
                visitor,
                *mean,
                final(self)@.streams,
                done,
                writes(old(log)@),
                writes(final(log)@),
            ),
            old(self)@.streams.contains_key(def.id) ==> forall|formula: Formula|
                #![trigger described(*mean, visitor, formula)]
                described(*mean, visitor, formula) ==> {
                    let outcome = old(self)@.visit_from(def, data@, visitor, formula);
                    &&& final(self)@.streams == outcome.streams
                    &&& done == outcome.result
                    &&& writes(final(log)@) == writes(old(log)@) + outcome.written
                },
    {
        let root = self.root;
        self.dispatch(root, def, data, visitor, mean, log)
    }
}

impl GraphView {
    /// The graph after an edge from `source` to `target` was asked for, and
    /// whether it was made: both must be nodes of the graph, and no path may
    /// lead from `target` to `source`.
    pub open spec fn subscribed(self, source: StreamRef, target: StreamRef) -> (
        GraphView,
        Result<(), GraphError>,
    ) {
        if !self.streams.contains_key(source.id) {
            (self, Err(GraphError::UnknownNode(source)))
        } else if !self.streams.contains_key(target.id) {
            (self, Err(GraphError::UnknownNode(target)))
        } else if reaches(self.edges, target.id, source.id) {
            (self, Err(GraphError::Cycle))
        } else {
            (
                GraphView {
                    edges: self.edges.insert(source.id, self.edges[source.id].push(target)),
                    ..self
                },
                Ok(()),
            )
        }
    }
}

} // verus!
