use rusty_vessel::data_structures::domain::{MergedStreamRef, StreamKind, StreamRef};
use rusty_vessel::data_structures::graph::{Graph, GraphError, Node, Visitor};
use rusty_vessel::storage::blob::Blob;
use rusty_vessel::storage::data_page::PageWrite;
use rusty_vessel::storage::record::{decode_page, ByteOrder};
use rusty_vessel::storage::vessel::Vessel;
use rusty_vessel::streaming::basic_stream::StreamError;
use rusty_vessel::streaming::domain::Calc;
use rusty_vessel::streaming::stream::{create_stream, Stream};

const ROOT: StreamRef = StreamRef { id: 0 };

fn blob(time: i64, value: f64) -> Blob {
    Blob::new(time, value.to_bits())
}

fn mean(high: u64, low: u64, close: u64) -> u64 {
    ((f64::from_bits(high) + f64::from_bits(low) + f64::from_bits(close)) / 3.0).to_bits()
}

fn dir(stream: StreamRef) -> String {
    format!("db/{}", stream.id)
}

fn node(stream: StreamRef, kind: StreamKind) -> Stream {
    let vessel = Vessel::new(dir(stream), 1_000, ByteOrder::Little, &vec![]).unwrap();
    create_stream(stream, kind, vessel).unwrap()
}

fn source(graph: &mut Graph, id: usize) -> StreamRef {
    let stream = StreamRef::new(id);
    graph.add(stream, node(stream, StreamKind::Source));
    stream
}

/// The samples that were handed over for each stream's directory, in order.
fn stored_in(log: &[PageWrite], stream: StreamRef) -> Vec<Blob> {
    let prefix = format!("{}/", dir(stream));
    log.iter()
        .filter(|write| write.file.path.starts_with(&prefix))
        .flat_map(|write| decode_page(&write.bytes, ByteOrder::Little))
        .collect()
}

fn flush(graph: &mut Graph, from: StreamRef, log: &mut Vec<PageWrite>) {
    graph.visit_from(from, vec![], Visitor::Flush, &mean, log).unwrap();
}

#[test]
fn a_new_node_has_no_children() {
    let mut graph = Graph::new(ROOT);
    let a = source(&mut graph, 1);
    assert!(graph.contains(a));
    assert!(!graph.contains(StreamRef::new(2)));
    assert_eq!(graph.children(a), Some(&vec![]));
    assert_eq!(graph.children(StreamRef::new(2)), None);
    assert!(graph.get_stream(a).is_some());
    assert!(graph.get_stream(StreamRef::new(2)).is_none());
    let made = Node::new(a, node(a, StreamKind::Source));
    assert_eq!(made.defn, a);
    assert!(made.children.is_empty());
}

#[test]
fn subscribe_appends_a_child() {
    let mut graph = Graph::new(ROOT);
    let a = source(&mut graph, 1);
    let b = source(&mut graph, 2);
    let c = source(&mut graph, 3);
    assert_eq!(graph.subscribe(a, c), Ok(()));
    assert_eq!(graph.subscribe(a, b), Ok(()));
    assert_eq!(graph.children(a), Some(&vec![c, b]));
    assert_eq!(graph.children(b), Some(&vec![]));
}

#[test]
fn subscribe_needs_both_ends() {
    let mut graph = Graph::new(ROOT);
    let a = source(&mut graph, 1);
    let missing = StreamRef::new(5);
    assert_eq!(graph.subscribe(a, missing), Err(GraphError::UnknownNode(missing)));
    assert_eq!(graph.subscribe(missing, a), Err(GraphError::UnknownNode(missing)));
    assert_eq!(graph.children(a), Some(&vec![]));
}

#[test]
fn an_edge_may_lead_to_an_earlier_stream() {
    let mut graph = Graph::new(ROOT);
    let a = source(&mut graph, 1);
    let b = source(&mut graph, 2);
    let c = source(&mut graph, 3);
    assert_eq!(graph.subscribe(b, a), Ok(()));
    assert_eq!(graph.subscribe(c, b), Ok(()));
    assert_eq!(graph.subscribe(c, a), Ok(()));
    assert_eq!(graph.children(b), Some(&vec![a]));
    assert_eq!(graph.children(c), Some(&vec![b, a]));
    let mut log = vec![];
    graph.visit_from(c, vec![blob(1, 1.0)], Visitor::OnNext, &mean, &mut log).unwrap();
    flush(&mut graph, c, &mut log);
    assert_eq!(stored_in(&log, a), vec![blob(1, 1.0), blob(1, 1.0)]);
    assert_eq!(stored_in(&log, b), vec![blob(1, 1.0)]);
}

#[test]
fn an_edge_that_closes_a_cycle_is_refused() {
    let mut graph = Graph::new(ROOT);
    let a = source(&mut graph, 1);
    let b = source(&mut graph, 2);
    let c = source(&mut graph, 3);
    assert_eq!(graph.subscribe(a, a), Err(GraphError::Cycle));
    graph.subscribe(a, b).unwrap();
    assert_eq!(graph.subscribe(b, a), Err(GraphError::Cycle));
    graph.subscribe(b, c).unwrap();
    assert_eq!(graph.subscribe(c, a), Err(GraphError::Cycle));
    assert_eq!(graph.subscribe(c, b), Err(GraphError::Cycle));
    assert_eq!(graph.children(c), Some(&vec![]));
    assert_eq!(graph.subscribe(a, c), Ok(()));
    assert_eq!(graph.children(a), Some(&vec![b, c]));
}

#[test]
fn paths_lead_along_the_edges() {
    let mut graph = Graph::new(ROOT);
    let a = source(&mut graph, 3);
    let b = source(&mut graph, 2);
    let c = source(&mut graph, 1);
    let d = source(&mut graph, 4);
    graph.subscribe(a, b).unwrap();
    graph.subscribe(b, c).unwrap();
    assert!(graph.leads_to(a, a));
    assert!(graph.leads_to(a, c));
    assert!(graph.leads_to(b, c));
    assert!(!graph.leads_to(c, a));
    assert!(!graph.leads_to(a, d));
    assert!(!graph.leads_to(d, a));
    assert!(!graph.leads_to(a, StreamRef::new(9)));
}

#[test]
fn a_batch_can_be_dispatched_as_coming_from_a_source() {
    let mut graph = Graph::new(ROOT);
    let high = source(&mut graph, 1);
    let hlc3 = StreamRef::new(2);
    graph.add(hlc3, node(hlc3, StreamKind::Merge(MergedStreamRef::Hlc3 { high, low: high, close: high })));
    let mut log = vec![];
    assert_eq!(
        graph.dispatch(high, hlc3, vec![blob(1, 1.0)], Visitor::OnNext, &mean, &mut log),
        Ok(())
    );
    assert_eq!(
        graph.dispatch(ROOT, hlc3, vec![blob(1, 1.0)], Visitor::OnNext, &mean, &mut log),
        Err(GraphError::Stream(hlc3, StreamError::UnknownSource))
    );
    assert_eq!(
        graph.dispatch(high, StreamRef::new(7), vec![], Visitor::OnNext, &mean, &mut log),
        Err(GraphError::UnknownNode(StreamRef::new(7)))
    );
}

#[test]
fn adding_a_stream_again_replaces_its_node() {
    let mut graph = Graph::new(ROOT);
    let a = source(&mut graph, 1);
    let b = source(&mut graph, 2);
    graph.subscribe(a, b).unwrap();
    graph.add(a, node(a, StreamKind::Source));
    assert_eq!(graph.children(a), Some(&vec![]));
}

#[test]
fn a_dispatch_to_a_stream_without_a_node_is_an_error() {
    let mut graph = Graph::new(ROOT);
    let mut log = vec![];
    let missing = StreamRef::new(3);
    assert_eq!(
        graph.visit_from(missing, vec![blob(1, 1.0)], Visitor::OnNext, &mean, &mut log),
        Err(GraphError::UnknownNode(missing))
    );
    assert_eq!(
        graph.visit(missing, vec![], Visitor::Flush, &mean, &mut log),
        Err(GraphError::UnknownNode(missing))
    );
    assert!(log.is_empty());
}

#[test]
fn fan_out_reaches_each_child_once_whatever_lies_behind() {
    let mut graph = Graph::new(ROOT);
    let entry = source(&mut graph, 1);
    let left = source(&mut graph, 2);
    let right = source(&mut graph, 3);
    graph.subscribe(entry, left).unwrap();
    graph.subscribe(entry, right).unwrap();
    let mut behind = left;
    for id in 4..12 {
        let next = source(&mut graph, id);
        graph.subscribe(behind, next).unwrap();
        behind = next;
    }
    let far = source(&mut graph, 12);
    graph.subscribe(right, far).unwrap();
    let mut log = vec![];
    let batch = vec![blob(1, 1.0), blob(2, 2.0)];
    graph.visit_from(entry, batch.clone(), Visitor::OnNext, &mean, &mut log).unwrap();
    flush(&mut graph, entry, &mut log);
    for id in 1..=12 {
        assert_eq!(stored_in(&log, StreamRef::new(id)), batch, "stream {id}");
    }
}

#[test]
fn a_node_is_visited_once_for_each_path() {
    let mut graph = Graph::new(ROOT);
    let entry = source(&mut graph, 1);
    let left = source(&mut graph, 2);
    let right = source(&mut graph, 3);
    let join = source(&mut graph, 4);
    graph.subscribe(entry, left).unwrap();
    graph.subscribe(entry, right).unwrap();
    graph.subscribe(left, join).unwrap();
    graph.subscribe(right, join).unwrap();
    let mut log = vec![];
    graph.visit(entry, vec![blob(1, 1.0)], Visitor::OnNext, &mean, &mut log).unwrap();
    flush(&mut graph, join, &mut log);
    assert_eq!(stored_in(&log, join), vec![blob(1, 1.0), blob(1, 1.0)]);
}

#[test]
fn children_get_what_their_parent_hands_on() {
    let mut graph = Graph::new(ROOT);
    let entry = source(&mut graph, 1);
    let max = StreamRef::new(2);
    graph.add(max, node(max, StreamKind::Aggregate(Calc::Max, 3, 1)));
    let copy = source(&mut graph, 3);
    let first = StreamRef::new(4);
    graph.add(first, node(first, StreamKind::Aggregate(Calc::First, 2, 3)));
    graph.subscribe(entry, max).unwrap();
    graph.subscribe(max, copy).unwrap();
    graph.subscribe(max, first).unwrap();
    let mut log = vec![];
    let batch: Vec<Blob> = (0..12).map(|i| blob(i, ((i * 5) % 7) as f64)).collect();
    graph.visit_from(entry, batch.clone(), Visitor::OnNext, &mean, &mut log).unwrap();
    flush(&mut graph, entry, &mut log);
    let maxima = vec![blob(0, 5.0), blob(3, 6.0), blob(6, 5.0), blob(9, 6.0)];
    assert_eq!(stored_in(&log, entry), batch);
    assert_eq!(stored_in(&log, max), maxima);
    assert_eq!(stored_in(&log, copy), maxima);
    assert_eq!(stored_in(&log, first), vec![blob(0, 5.0), blob(6, 5.0)]);
}

#[test]
fn a_merge_is_fed_from_its_inputs() {
    let mut graph = Graph::new(ROOT);
    let high = source(&mut graph, 1);
    let low = source(&mut graph, 2);
    let close = source(&mut graph, 3);
    let hlc3 = StreamRef::new(4);
    graph.add(hlc3, node(hlc3, StreamKind::Merge(MergedStreamRef::Hlc3 { high, low, close })));
    let copy = source(&mut graph, 5);
    for input in [high, low, close] {
        graph.subscribe(input, hlc3).unwrap();
    }
    graph.subscribe(hlc3, copy).unwrap();
    let mut log = vec![];
    graph.visit_from(high, vec![blob(60, 10.0)], Visitor::OnNext, &mean, &mut log).unwrap();
    graph.visit_from(close, vec![blob(60, 7.0)], Visitor::OnNext, &mean, &mut log).unwrap();
    graph.visit_from(low, vec![blob(60, 4.0)], Visitor::OnNext, &mean, &mut log).unwrap();
    graph.visit_from(low, vec![blob(60, 4.0)], Visitor::OnNext, &mean, &mut log).unwrap();
    flush(&mut graph, high, &mut log);
    assert_eq!(stored_in(&log, hlc3), vec![blob(60, 7.0)]);
    assert_eq!(stored_in(&log, copy), vec![blob(60, 7.0)]);
    assert_eq!(stored_in(&log, high), vec![blob(60, 10.0)]);
}

#[test]
fn a_dispatch_stops_at_the_node_that_refuses() {
    let mut graph = Graph::new(ROOT);
    let stranger = source(&mut graph, 1);
    let high = source(&mut graph, 2);
    let hlc3 = StreamRef::new(3);
    let inputs = MergedStreamRef::Hlc3 { high, low: high, close: high };
    graph.add(hlc3, node(hlc3, StreamKind::Merge(inputs)));
    let sibling = source(&mut graph, 4);
    graph.subscribe(stranger, sibling).unwrap();
    graph.subscribe(stranger, hlc3).unwrap();
    let mut log = vec![];
    assert_eq!(
        graph.visit_from(stranger, vec![blob(1, 1.0)], Visitor::OnNext, &mean, &mut log),
        Err(GraphError::Stream(hlc3, StreamError::UnknownSource))
    );
    flush(&mut graph, stranger, &mut log);
    assert_eq!(stored_in(&log, stranger), vec![blob(1, 1.0)]);
    assert_eq!(stored_in(&log, sibling), vec![]);
}

#[test]
fn the_entry_is_fed_from_the_root() {
    let mut graph = Graph::new(ROOT);
    let high = source(&mut graph, 1);
    let hlc3 = StreamRef::new(2);
    graph.add(hlc3, node(hlc3, StreamKind::Merge(MergedStreamRef::Hlc3 { high, low: high, close: high })));
    let mut log = vec![];
    assert_eq!(
        graph.visit_from(hlc3, vec![blob(1, 1.0)], Visitor::OnNext, &mean, &mut log),
        Err(GraphError::Stream(hlc3, StreamError::UnknownSource))
    );
}

#[test]
fn a_flush_goes_through_the_graph_and_changes_no_batch() {
    let mut graph = Graph::new(ROOT);
    let entry = source(&mut graph, 1);
    let child = source(&mut graph, 2);
    graph.subscribe(entry, child).unwrap();
    let mut log = vec![];
    graph.visit_from(entry, vec![blob(1, 1.0)], Visitor::OnNext, &mean, &mut log).unwrap();
    assert!(log.iter().all(|write| write.bytes.is_empty()));
    log.clear();
    flush(&mut graph, entry, &mut log);
    assert_eq!(log.len(), 2);
    assert_eq!(stored_in(&log, entry), vec![blob(1, 1.0)]);
    assert_eq!(stored_in(&log, child), vec![blob(1, 1.0)]);
    log.clear();
    flush(&mut graph, entry, &mut log);
    assert!(log.is_empty());
}
