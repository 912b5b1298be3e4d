use std::cmp::Ordering;
use std::collections::VecDeque;
use stract::entity_image::respond;
use stract::index_files::{MANAGED_FILE_NAME, META_FILE_NAME};
use stract::store_writer::{
    store_file_name, EdgeEnd, EdgeStoreWriter, InnerEdge, NodeID, SortableEdge,
    SortedEdgeIterator, MAX_BATCH_SIZE,
};

fn edge(from: u128, to: u128, label: &str) -> InnerEdge<String> {
    InnerEdge {
        from: EdgeEnd { id: NodeID(from) },
        to: EdgeEnd { id: NodeID(to) },
        label: label.to_string(),
    }
}

fn sortable(from: u128, to: u128, label: &str) -> SortableEdge<String> {
    SortableEdge {
        sort_node: NodeID(from),
        secondary_node: NodeID(to),
        edge: edge(from, to, label),
    }
}

fn labels(edges: &Vec<InnerEdge<String>>) -> Vec<&str> {
    edges.iter().map(|edge| edge.label.as_str()).collect()
}

#[test]
fn edges_come_out_in_order() {
    let mut writer = EdgeStoreWriter::new(false);
    assert!(writer.put(edge(2, 1, "c")).is_none());
    assert!(writer.put(edge(1, 9, "b")).is_none());
    assert!(writer.put(edge(1, 3, "a")).is_none());
    assert!(writer.put(edge(3, 0, "d")).is_none());
    assert_eq!(labels(&writer.finalize(VecDeque::new())), vec!["a", "b", "c", "d"]);
}

#[test]
fn reversed_edges_are_sorted_by_where_they_lead() {
    let mut writer = EdgeStoreWriter::new(true);
    writer.put(edge(2, 1, "b"));
    writer.put(edge(1, 9, "d"));
    writer.put(edge(1, 1, "a"));
    writer.put(edge(7, 3, "c"));
    assert_eq!(labels(&writer.finalize(VecDeque::new())), vec!["a", "b", "c", "d"]);
}

#[test]
fn the_first_edge_with_a_key_stays() {
    let mut writer = EdgeStoreWriter::new(false);
    writer.put(edge(1, 2, "first"));
    writer.put(edge(1, 2, "second"));
    let edges = writer.finalize(VecDeque::new());
    assert_eq!(labels(&edges), vec!["first"]);
    assert_eq!(edges[0].from.id, NodeID(1));
    assert_eq!(edges[0].to.id, NodeID(2));
}

#[test]
fn stored_edges_come_first_where_nodes_are_equal() {
    let mut writer = EdgeStoreWriter::new(false);
    writer.put(edge(1, 1, "m11"));
    writer.put(edge(2, 5, "m25"));
    writer.put(edge(4, 4, "m44"));
    let stored = VecDeque::from(vec![
        sortable(1, 7, "f17"),
        sortable(2, 5, "f25"),
        sortable(2, 5, "f25 again"),
        sortable(3, 1, "f31"),
    ]);
    let edges = writer.finalize(stored);
    assert_eq!(labels(&edges), vec!["f17", "m11", "f25", "f31", "m44"]);
}

#[test]
fn a_common_key_apart_comes_out_twice() {
    let mut writer = EdgeStoreWriter::new(false);
    writer.put(edge(1, 1, "m11"));
    let stored = VecDeque::from(vec![sortable(1, 1, "f11"), sortable(1, 2, "f12")]);
    assert_eq!(labels(&writer.finalize(stored)), vec!["f11", "f12", "m11"]);
}

#[test]
fn nothing_comes_out_of_nothing() {
    let writer = EdgeStoreWriter::new(true);
    assert!(writer.finalize(VecDeque::new()).is_empty());
    let mut none = SortedEdgeIterator::new(VecDeque::new(), VecDeque::new());
    assert!(none.next().is_none());
    assert!(none.next().is_none());
}

#[test]
fn a_merge_takes_the_lower_node() {
    let mem = VecDeque::from(vec![sortable(1, 0, "m1"), sortable(3, 0, "m3")]);
    let file = VecDeque::from(vec![sortable(2, 0, "f2")]);
    let mut edges = SortedEdgeIterator::new(mem, file);
    assert_eq!(edges.next().unwrap().edge.label, "m1");
    assert_eq!(edges.next().unwrap().edge.label, "f2");
    assert_eq!(edges.next().unwrap().edge.label, "m3");
    assert!(edges.next().is_none());
}

#[test]
fn edges_are_ordered_by_both_nodes() {
    let a = sortable(1, 5, "a");
    let b = sortable(2, 1, "b");
    let c = sortable(2, 1, "c");
    let d = sortable(2, 3, "d");
    assert_eq!(a.partial_cmp(&b), Some(Ordering::Less));
    assert_eq!(b.partial_cmp(&c), Some(Ordering::Equal));
    assert_eq!(d.partial_cmp(&c), Some(Ordering::Greater));
    assert!(b == c);
    assert!(b != d);
    assert!(c < d);
}

#[test]
fn batches_have_numbered_names() {
    assert_eq!(store_file_name(0), "0.store");
    assert_eq!(store_file_name(9), "9.store");
    assert_eq!(store_file_name(10), "10.store");
    assert_eq!(store_file_name(1207), "1207.store");
}

#[test]
fn a_full_memory_is_handed_out() {
    let mut writer = EdgeStoreWriter::new(false);
    for i in 1..MAX_BATCH_SIZE as u128 {
        assert!(writer.put(edge(i, 0, "")).is_none());
    }
    assert!(writer.put(edge(1, 0, "again")).is_none());
    let batch = writer.put(edge(0, 0, "last")).unwrap();
    assert_eq!(batch.file_name, "0.store");
    assert_eq!(batch.edges.len(), MAX_BATCH_SIZE);
    assert_eq!(batch.edges[0].edge.label, "last");
    assert_eq!(batch.edges[1].sort_node, NodeID(1));
    assert!(writer.put(edge(5, 5, "new")).is_none());
    let edges = writer.finalize(batch.edges);
    assert_eq!(edges.len(), MAX_BATCH_SIZE + 1);
    assert_eq!(edges[0].label, "last");
    assert_eq!(edges[5].from.id, NodeID(5));
    assert_eq!(edges[6].label, "new");
    assert_eq!(edges[7].from.id, NodeID(6));
}

#[test]
fn a_missing_image_is_an_empty_answer() {
    let missing = respond(None);
    assert_eq!(missing.status, 200);
    assert!(missing.body.is_empty());
    let image = respond(Some(vec![1, 2, 3]));
    assert_eq!(image.status, 200);
    assert_eq!(image.body, vec![1, 2, 3]);
}

#[test]
fn index_files_have_their_names() {
    assert_eq!(META_FILE_NAME, "meta.json");
    assert_eq!(MANAGED_FILE_NAME, ".managed.json");
}
