use handlegraph2::graph::{GraphError, HashGraph, PathStep};
use handlegraph2::handle::{Direction, Edge, Handle, NodeId};

fn h(n: u64) -> Handle {
    Handle::from_integer(n * 2)
}

fn create(graph: &mut HashGraph, seq: &[u8], id: u64) -> Handle {
    graph.create_handle(seq, NodeId(id)).unwrap()
}

#[test]
fn can_create_handles() {
    let mut graph = HashGraph::new();
    let h1 = graph.append_handle(b"CAAATAAG").unwrap();
    let h2 = graph.append_handle(b"A").unwrap();
    let h3 = graph.append_handle(b"G").unwrap();

    let n1 = graph.get_node_unchecked(&h1.id());
    let n2 = graph.get_node_unchecked(&h2.id());
    let n3 = graph.get_node_unchecked(&h3.id());

    assert_eq!(u64::from(h1.id()), 1);
    assert_eq!(u64::from(h3.id()), 3);

    assert_eq!(n1.sequence.as_slice(), b"CAAATAAG");
    assert_eq!(n2.sequence.as_slice(), b"A");
    assert_eq!(n3.sequence.as_slice(), b"G");
}

#[test]
fn can_create_edges() {
    let mut graph = HashGraph::new();
    let h1 = graph.append_handle(b"CAAATAAG").unwrap();
    let h2 = graph.append_handle(b"A").unwrap();
    let h3 = graph.append_handle(b"G").unwrap();
    let h4 = graph.append_handle(b"TTG").unwrap();

    graph.create_edge(Edge(h1, h2));
    graph.create_edge(Edge(h1, h3));
    graph.create_edge(Edge(h2, h4));
    graph.create_edge(Edge(h3, h4));

    let n1 = graph.get_node_unchecked(&h1.id());
    let n2 = graph.get_node_unchecked(&h2.id());
    let n3 = graph.get_node_unchecked(&h3.id());
    let n4 = graph.get_node_unchecked(&h4.id());

    assert_eq!(true, n1.right_edges.contains(&h2));
    assert_eq!(true, n1.right_edges.contains(&h3));

    assert_eq!(true, n2.left_edges.contains(&h1.flip()));
    assert_eq!(true, n2.right_edges.contains(&h4));
    assert_eq!(true, n3.left_edges.contains(&h1.flip()));
    assert_eq!(true, n3.right_edges.contains(&h4));

    assert_eq!(true, n4.left_edges.contains(&h2.flip()));
    assert_eq!(true, n4.left_edges.contains(&h3.flip()));
}

/// Nodes 11, 12, 13, edges 11+ -> 12-, 12- -> 13+, 11+ -> 13+, and the
/// paths "14" = 11+ 12- 13+ and "15" = 11+ 13+.
fn small_graph() -> HashGraph {
    let mut graph = HashGraph::new();
    let h1 = create(&mut graph, b"ACCTT", 11);
    let h2 = create(&mut graph, b"TCAAGG", 12);
    let h3 = create(&mut graph, b"CTTGATT", 13);
    graph.create_edge(Edge(h2.flip(), h3));
    graph.create_edge(Edge(h1, h2.flip()));
    graph.create_edge(Edge(h1, h3));
    let p = graph.create_path_handle(b"14", false);
    graph.append_step(&p, h1);
    graph.append_step(&p, h2.flip());
    graph.append_step(&p, h3);
    let q = graph.create_path_handle(b"15", false);
    graph.append_step(&q, h1);
    graph.append_step(&q, h3);
    graph
}

#[test]
fn reverse_node_reads_reverse_complement_and_edges_are_canonical() {
    let graph = small_graph();
    let h2 = Handle::pack(NodeId(12), true);
    assert_eq!(graph.sequence(h2), b"CCTTGA".to_vec());
    assert_eq!(graph.sequence(h2.flip()), b"TCAAGG".to_vec());
    let edges = graph.all_edges();
    assert_eq!(edges.len(), 3);
    for e in edges.iter() {
        assert_eq!(Edge::edge_handle(e.0, e.1), *e);
    }
}

#[test]
fn can_reverse_complement() {
    let mut graph = HashGraph::new();
    let h1 = create(&mut graph, b"ACCTT", 11);
    let h2 = create(&mut graph, b"TCAAGG", 12);
    let h3 = create(&mut graph, b"CTTGATT", 13);

    // use .flip() to apply reverse complement to the node
    let r = graph.apply_orientation(h2.flip());
    assert_eq!(r, h2);
    assert_eq!(graph.sequence(h2), b"CCTTGA".to_vec());

    graph.create_edge(Edge(h1, h2));
    graph.create_edge(Edge(h2, h3));
    graph.create_edge(Edge(h1, h3));
    assert!(graph.has_edge(h1, h2));
    assert!(graph.has_edge(h2, h3));
    assert!(graph.has_edge(h1, h3));
}

#[test]
fn apply_orientation_twice_restores_the_node() {
    let mut graph = small_graph();
    let r12 = Handle::pack(NodeId(12), true);
    let left_before = graph.get_node_unchecked(&NodeId(12)).left_edges.clone();
    let right_before = graph.get_node_unchecked(&NodeId(12)).right_edges.clone();
    let out = graph.apply_orientation(r12);
    assert_eq!(out, r12.flip());
    assert_eq!(graph.sequence(out), b"CCTTGA".to_vec());
    // the step of path "14" on node 12 is flipped
    let p = graph.name_to_path_handle(b"14").unwrap();
    assert_eq!(graph.handle_of_step(&PathStep::Step(p, 1)), Some(Handle::pack(NodeId(12), false)));
    // a forward handle is left alone
    assert_eq!(graph.apply_orientation(out), out);
    graph.apply_orientation(r12);
    assert_eq!(graph.sequence(r12.flip()), b"TCAAGG".to_vec());
    assert_eq!(graph.get_node_unchecked(&NodeId(12)).left_edges, left_before);
    assert_eq!(graph.get_node_unchecked(&NodeId(12)).right_edges, right_before);
    assert_eq!(graph.handle_of_step(&PathStep::Step(p, 1)), Some(r12));
}

fn path_graph() -> HashGraph {
    let mut graph = HashGraph::new();
    let h1 = create(&mut graph, b"A", 1);
    let h2 = create(&mut graph, b"AA", 2);
    let h3 = create(&mut graph, b"AAA", 3);
    let h4 = create(&mut graph, b"AAAA", 4);
    let h5 = create(&mut graph, b"AAAAA", 5);
    let h6 = create(&mut graph, b"AAAAAA", 6);

    /*
    edges
    1  -> 2 -> 5 -> 6
      \\-> 3 -> 4 /
     */
    graph.create_edge(Edge(h1, h2));
    graph.create_edge(Edge(h2, h5));
    graph.create_edge(Edge(h5, h6));

    graph.create_edge(Edge(h1, h3));
    graph.create_edge(Edge(h3, h4));
    graph.create_edge(Edge(h4, h6));

    graph
}

#[test]
fn graph_neighbors_iter() {
    let mut graph = path_graph();

    graph.create_edge(Edge(h(1), h(4)));
    graph.create_edge(Edge(h(1), h(6)));

    let mut iter = graph.neighbors(h(1), Direction::Right).into_iter();

    assert_eq!(Some(h(2)), iter.next());
    assert_eq!(Some(h(3)), iter.next());
    assert_eq!(Some(h(4)), iter.next());
    assert_eq!(Some(h(6)), iter.next());
    assert_eq!(None, iter.next());
}

#[test]
fn neighbors_of_a_reverse_handle_come_in_reverse_order() {
    let mut graph = path_graph();
    graph.create_edge(Edge(h(1), h(4)));
    let fwd = graph.neighbors(h(1), Direction::Right);
    assert_eq!(fwd, vec![h(2), h(3), h(4)]);
    // the left side of 1- is the right side of 1+
    let rev = graph.neighbors(h(1).flip(), Direction::Left);
    assert_eq!(rev, vec![h(4), h(3), h(2)]);
    assert_eq!(graph.degree(h(1), Direction::Right), 3);
    assert_eq!(graph.degree(h(1).flip(), Direction::Left), 3);
    assert_eq!(graph.degree(h(1), Direction::Left), 0);
    assert_eq!(graph.neighbors(h(6), Direction::Left), vec![h(5).flip(), h(4).flip()]);
}

#[test]
fn graph_all_handles_iter() {
    let graph = path_graph();

    let iter = graph.all_handles();

    let nodes: Vec<_> = vec![h(1), h(2), h(3), h(4), h(5), h(6)]
        .into_iter()
        .map(|x| x.id())
        .collect();

    let mut iter_nodes: Vec<NodeId> = vec![];

    for h in iter {
        iter_nodes.push(h.id())
    }

    assert!(iter_nodes.iter().all(|n| graph.get_node(n).is_some()));
    assert!(nodes.iter().all(|n| iter_nodes.contains(n)));
}

#[test]
fn graph_all_edges_iter() {
    let mut graph = path_graph();

    graph.create_edge(Edge(h(1), h(4)));
    graph.create_edge(Edge(h(1), h(6)));

    graph.create_edge(Edge(h(4), h(2)));
    graph.create_edge(Edge(h(6), h(2)));

    graph.create_edge(Edge(h(3), h(5)));

    let mut edges_found: Vec<_> = graph.all_edges();

    edges_found.sort();

    let mut edges: Vec<_> = vec![
        Edge::edge_handle(h(1), h(2)),
        Edge::edge_handle(h(1), h(3)),
        Edge::edge_handle(h(1), h(4)),
        Edge::edge_handle(h(1), h(6)),
        Edge::edge_handle(h(2), h(5)),
        Edge::edge_handle(h(4), h(2)),
        Edge::edge_handle(h(6), h(2)),
        Edge::edge_handle(h(3), h(4)),
        Edge::edge_handle(h(3), h(5)),
        Edge::edge_handle(h(4), h(6)),
        Edge::edge_handle(h(5), h(6)),
    ];

    edges.sort();

    assert_eq!(edges, edges_found);
}

#[test]
fn create_edge_twice_adds_one_entry() {
    let mut graph = path_graph();
    assert!(!graph.create_edge(Edge(h(1), h(2))));
    assert!(graph.create_edge(Edge(h(2), h(6))));
    assert!(!graph.create_edge(Edge(h(2), h(6))));
    assert!(!graph.create_edge(Edge(h(6).flip(), h(2).flip())));
    let n2 = graph.get_node_unchecked(&NodeId(2));
    assert_eq!(n2.right_edges.iter().filter(|x| **x == h(6)).count(), 1);
    let n6 = graph.get_node_unchecked(&NodeId(6));
    assert_eq!(n6.left_edges.iter().filter(|x| **x == h(2).flip()).count(), 1);
}

#[test]
fn self_reverse_edge_is_stored_once() {
    let mut graph = HashGraph::new();
    let a = create(&mut graph, b"AC", 1);
    assert!(graph.create_edge(Edge(a, a.flip())));
    assert_eq!(graph.get_node_unchecked(&NodeId(1)).right_edges, vec![a.flip()]);
    assert!(graph.get_node_unchecked(&NodeId(1)).left_edges.is_empty());
    assert_eq!(graph.all_edges(), vec![Edge(a, a.flip())]);
}

#[test]
fn append_prepend_path() {
    let mut graph = path_graph();

    // Add a path 3 -> 5
    let p1 = graph.create_path_handle(b"path-1", false);
    graph.append_step(&p1, h(3));
    graph.append_step(&p1, h(5));

    // Add another path 1 -> 3 -> 4 -> 6
    let p2 = graph.create_path_handle(b"path-2", false);
    graph.append_step(&p2, h(1));
    let p2_3 = graph.append_step(&p2, h(3));
    let p2_4 = graph.append_step(&p2, h(4));
    graph.append_step(&p2, h(6));

    let test_node = |graph: &HashGraph, nid: u64, o1: Option<&usize>, o2: Option<&usize>| {
        let n = graph.get_node(&NodeId::from(nid)).unwrap();
        assert_eq!(o1, n.occurrences.get(&p1));
        assert_eq!(o2, n.occurrences.get(&p2));
    };

    test_node(&graph, 3, Some(&0), Some(&1));
    test_node(&graph, 1, None, Some(&0));
    test_node(&graph, 6, None, Some(&3));

    graph.append_step(&p1, h(6));

    test_node(&graph, 6, Some(&2), Some(&3));
    test_node(&graph, 1, None, Some(&0));
    test_node(&graph, 4, None, Some(&2));
    test_node(&graph, 3, Some(&0), Some(&1));
    test_node(&graph, 5, Some(&1), None);

    graph.prepend_step(&p1, h(1));

    test_node(&graph, 1, Some(&0), Some(&0));
    test_node(&graph, 3, Some(&1), Some(&1));
    test_node(&graph, 5, Some(&2), None);
    test_node(&graph, 6, Some(&3), Some(&3));
    test_node(&graph, 4, None, Some(&2));

    // Rewrite the segment 3 -> 4 in path 2 with the empty path
    graph.rewrite_segment(&p2_3, &p2_4, vec![]).unwrap();

    test_node(&graph, 1, Some(&0), Some(&0));
    test_node(&graph, 6, Some(&3), Some(&1));
    test_node(&graph, 3, Some(&1), None);
    test_node(&graph, 4, None, None);

    graph
        .rewrite_segment(&PathStep::Step(1, 0), &PathStep::Step(1, 1), vec![h(6), h(4), h(5), h(3), h(1), h(2)])
        .unwrap();

    test_node(&graph, 1, Some(&0), Some(&4));
    test_node(&graph, 2, None, Some(&5));
    test_node(&graph, 3, Some(&1), Some(&3));
    test_node(&graph, 4, None, Some(&1));
    test_node(&graph, 5, Some(&2), Some(&2));
    test_node(&graph, 6, Some(&3), Some(&0));

    graph.rewrite_segment(&PathStep::Front(0), &PathStep::Step(0, 2), vec![h(2), h(3)]).unwrap();

    test_node(&graph, 1, None, Some(&4));
    test_node(&graph, 2, Some(&0), Some(&5));
    test_node(&graph, 3, Some(&1), Some(&3));
    test_node(&graph, 5, None, Some(&2));
    test_node(&graph, 6, Some(&2), Some(&0));

    graph.rewrite_segment(&PathStep::Step(1, 3), &PathStep::End(1), vec![h(1)]).unwrap();

    test_node(&graph, 1, None, Some(&3));
    test_node(&graph, 2, Some(&0), None);
    test_node(&graph, 3, Some(&1), None);
    test_node(&graph, 4, None, Some(&1));
    test_node(&graph, 5, None, Some(&2));
    test_node(&graph, 6, Some(&2), Some(&0));
}

#[test]
fn rewrite_segment_removes_a_middle_range() {
    let mut graph = path_graph();
    let p = graph.create_path_handle(b"p", false);
    graph.append_step(&p, h(1));
    let b = graph.append_step(&p, h(3));
    let e = graph.append_step(&p, h(4));
    graph.append_step(&p, h(6));
    let r = graph.rewrite_segment(&b, &e, vec![]).unwrap();
    assert_eq!(r, (PathStep::Step(p, 1), PathStep::Step(p, 1)));
    let steps: Vec<_> = graph.steps_iter(&p).iter().map(|s| graph.handle_of_step(s).unwrap()).collect();
    assert_eq!(steps, vec![h(1), h(6)]);
    assert!(graph.get_node_unchecked(&NodeId(3)).occurrences.get(&p).is_none());
    assert!(graph.get_node_unchecked(&NodeId(4)).occurrences.get(&p).is_none());
    assert_eq!(graph.get_node_unchecked(&NodeId(6)).occurrences.get(&p), Some(&1));
    assert_eq!(graph.get_node_unchecked(&NodeId(1)).occurrences.get(&p), Some(&0));
}

#[test]
fn rewrite_segment_across_paths_is_refused() {
    let mut graph = path_graph();
    let p = graph.create_path_handle(b"p", false);
    let q = graph.create_path_handle(b"q", false);
    graph.append_step(&p, h(1));
    graph.append_step(&q, h(2));
    let r = graph.rewrite_segment(&PathStep::Step(p, 0), &PathStep::Step(q, 0), vec![]);
    assert_eq!(r, Err(GraphError::CrossPathRewrite));
    assert_eq!(graph.step_count(&p), 1);
    assert_eq!(graph.step_count(&q), 1);
}

#[test]
fn repeated_visit_records_the_last_step() {
    let mut graph = path_graph();
    let p = graph.create_path_handle(b"p", false);
    graph.append_step(&p, h(1));
    graph.append_step(&p, h(2));
    graph.append_step(&p, h(1));
    assert_eq!(graph.get_node_unchecked(&NodeId(1)).occurrences.get(&p), Some(&2));
    graph.prepend_step(&p, h(3));
    assert_eq!(graph.get_node_unchecked(&NodeId(1)).occurrences.get(&p), Some(&3));
    assert_eq!(graph.get_node_unchecked(&NodeId(2)).occurrences.get(&p), Some(&2));
    assert_eq!(graph.get_node_unchecked(&NodeId(3)).occurrences.get(&p), Some(&0));
}

#[test]
fn graph_path_steps_iter() {
    let mut graph = path_graph();

    let p1 = graph.create_path_handle(b"path-1", false);
    graph.append_step(&p1, h(1));
    graph.append_step(&p1, h(2));
    graph.append_step(&p1, h(5));
    graph.append_step(&p1, h(6));

    let mut iter = graph.steps_iter(&p1).into_iter();

    assert_eq!(Some(PathStep::Step(p1, 0)), iter.next());
    assert_eq!(Some(PathStep::Step(p1, 1)), iter.next());
    assert_eq!(Some(PathStep::Step(p1, 2)), iter.next());
    assert_eq!(Some(PathStep::Step(p1, 3)), iter.next());
    assert_eq!(None, iter.next());
}

#[test]
fn step_navigation_clamps_at_the_sentinels() {
    let mut graph = path_graph();
    let p = graph.create_path_handle(b"p", true);
    graph.append_step(&p, h(1));
    graph.append_step(&p, h(2));
    assert!(graph.is_circular(&p));
    assert_eq!(graph.next_step(&PathStep::Front(p)), PathStep::Step(p, 0));
    assert_eq!(graph.next_step(&PathStep::Step(p, 0)), PathStep::Step(p, 1));
    assert_eq!(graph.next_step(&PathStep::Step(p, 1)), PathStep::End(p));
    assert_eq!(graph.next_step(&PathStep::End(p)), PathStep::End(p));
    assert_eq!(graph.previous_step(&PathStep::End(p)), PathStep::Step(p, 1));
    assert_eq!(graph.previous_step(&PathStep::Step(p, 1)), PathStep::Step(p, 0));
    assert_eq!(graph.previous_step(&PathStep::Step(p, 0)), PathStep::Front(p));
    assert_eq!(graph.previous_step(&PathStep::Front(p)), PathStep::Front(p));
    assert!(graph.has_next_step(&PathStep::End(p)));
    assert!(graph.has_previous_step(&PathStep::Front(p)));
    assert_eq!(graph.handle_of_step(&PathStep::Front(p)), None);
    assert_eq!(graph.handle_of_step(&PathStep::Step(p, 1)), Some(h(2)));
    assert_eq!(graph.path_handle_to_name(&p), b"p".to_vec());
    assert_eq!(graph.path_back(&p), PathStep::Step(p, 1));
}

#[test]
fn graph_divide_handle() {
    let mut graph = HashGraph::new();
    graph.append_handle(b"ABCD").unwrap();
    graph.append_handle(b"EFGHIJKLMN").unwrap();
    graph.append_handle(b"OPQ").unwrap();

    graph.create_edge(Edge(h(1), h(2)));
    graph.create_edge(Edge(h(2), h(3)));

    let path = graph.create_path_handle(b"path-1", false);

    let walk_path = |graph: &HashGraph| {
        let mut last = graph.path_front_end(&path);
        let mut handles = vec![];
        for _ in 0..graph.step_count(&path) {
            let next = graph.next_step(&last);
            handles.push(graph.handle_of_step(&next));
            last = next;
        }
        handles
    };

    graph.append_step(&path, h(1));
    graph.append_step(&path, h(2));
    graph.append_step(&path, h(3));

    assert_eq!(b"ABCD", graph.sequence(h(1)).as_slice());
    assert_eq!(b"EFGHIJKLMN", graph.sequence(h(2)).as_slice());
    assert_eq!(b"OPQ", graph.sequence(h(3)).as_slice());

    assert!(graph.has_edge(h(1), h(2)));
    assert!(graph.has_edge(h(2), h(3)));

    let handles = walk_path(&graph);

    let expected_handles: Vec<_> = [h(1), h(2), h(3)].iter().map(|h| Some(*h)).collect();

    assert_eq!(expected_handles, handles);

    graph.divide_handle(h(2), vec![3, 7, 9]);

    assert!(graph.has_edge(h(1), h(2)));
    assert!(!graph.has_edge(h(2), h(3)));

    assert!(graph.has_edge(h(2), h(4)));
    assert!(graph.has_edge(h(4), h(5)));
    assert!(graph.has_edge(h(5), h(6)));
    assert!(graph.has_edge(h(6), h(3)));

    assert_eq!(graph.sequence(h(1)), b"ABCD");
    assert_eq!(graph.sequence(h(3)), b"OPQ");

    assert_eq!(graph.sequence(h(2)), b"EFG");

    assert_eq!(graph.sequence(h(4)), b"HIJK");
    assert_eq!(graph.sequence(h(5)), b"LM");
    assert_eq!(graph.sequence(h(6)), b"N");

    let handles = walk_path(&graph);

    let expected_handles: Vec<_> = [h(1), h(2), h(4), h(5), h(6), h(3)].iter().map(|h| Some(*h)).collect();

    assert_eq!(expected_handles, handles);
}

#[test]
fn divide_reverse_handle_reads_in_its_orientation() {
    let mut graph = HashGraph::new();
    let a = graph.append_handle(b"ACGTT").unwrap();
    let b = graph.append_handle(b"GG").unwrap();
    graph.create_edge(Edge(a, b));
    // offsets 1 and 3 of the reverse reading are 4 and 2 in the forward frame
    let pieces = graph.divide_handle(a.flip(), vec![1, 3]);
    assert_eq!(pieces, vec![h(4).flip(), h(3).flip(), h(1).flip()]);
    assert_eq!(graph.sequence(h(1)), b"AC".to_vec());
    assert_eq!(graph.sequence(h(3)), b"GT".to_vec());
    assert_eq!(graph.sequence(h(4)), b"T".to_vec());
    let mut read: Vec<u8> = Vec::new();
    for p in pieces.iter() {
        read.extend(graph.sequence(*p));
    }
    assert_eq!(read, graph_revcomp(b"ACGTT"));
    assert!(graph.has_edge(h(4), b));
    assert!(!graph.has_edge(a, b));
    assert!(graph.has_edge(h(1), h(3)));
    assert!(graph.has_edge(h(3), h(4)));
    assert_eq!(graph.get_node_unchecked(&NodeId(2)).left_edges, vec![h(4).flip()]);
}

fn graph_revcomp(s: &[u8]) -> Vec<u8> {
    let mut g = HashGraph::new();
    let x = g.append_handle(s).unwrap();
    g.sequence(x.flip())
}

#[test]
fn divide_with_no_offsets_changes_nothing() {
    let mut graph = path_graph();
    let r = graph.divide_handle(h(3), vec![]);
    assert_eq!(r, vec![h(3)]);
    assert_eq!(graph.node_count(), 6);
    let (x, y) = graph.split_handle(h(6), 2);
    assert_eq!((x, y), (h(6), h(7)));
    assert_eq!(graph.sequence(x), b"AA".to_vec());
    assert_eq!(graph.sequence(y), b"AAAA".to_vec());
    assert!(graph.has_edge(h(4), h(6)));
    assert!(graph.has_edge(h(6), h(7)));
    assert_eq!(graph.degree(h(6), Direction::Left), 2);
    assert_eq!(graph.degree(h(7), Direction::Right), 0);
}

#[test]
fn append_handle_assigns_consecutive_ids() {
    let mut graph = HashGraph::new();
    assert_eq!(graph.max_node_id(), NodeId(0));
    assert_eq!(graph.min_node_id(), NodeId(u64::MAX));
    let a = graph.append_handle(b"A").unwrap();
    let b = graph.append_handle(b"C").unwrap();
    let c = graph.append_handle(b"G").unwrap();
    assert_eq!((a.id(), b.id(), c.id()), (NodeId(1), NodeId(2), NodeId(3)));
    assert_eq!(graph.min_node_id(), NodeId(1));
    assert_eq!(graph.max_node_id(), NodeId(3));
    assert_eq!(graph.total_length(), 3);
}

#[test]
fn create_handle_errors() {
    let mut graph = HashGraph::new();
    assert_eq!(graph.create_handle(b"", NodeId(1)), Err(GraphError::EmptySequence));
    assert_eq!(graph.create_handle(b"A", NodeId(1u64 << 63)), Err(GraphError::InvalidId));
    assert_eq!(graph.create_handle(b"A", NodeId(5)), Ok(h(5)));
    assert_eq!(graph.create_handle(b"C", NodeId(5)), Err(GraphError::DuplicateId));
    assert_eq!(graph.append_handle(b""), Err(GraphError::EmptySequence));
    graph.create_handle(b"T", NodeId((1u64 << 63) - 1)).unwrap();
    assert_eq!(graph.append_handle(b"A"), Err(GraphError::InvalidId));
    assert_eq!(graph.node_count(), 2);
    assert_eq!(graph.min_node_id(), NodeId(5));
}

#[test]
fn remove_node_from_graph() {
    let mut graph = small_graph();
    assert!(graph.remove_handle(NodeId(12)));
    assert!(!graph.has_node(NodeId(12)));
    assert!(!graph.remove_handle(NodeId(12)));
    assert!(graph.get_node_unchecked(&NodeId(11)).right_edges.iter().all(|x| x.id() != NodeId(12)));
    assert!(graph.get_node_unchecked(&NodeId(13)).left_edges.iter().all(|x| x.id() != NodeId(12)));
    assert!(!graph.has_path(b"14"));
    assert!(graph.has_path(b"15"));
    assert_eq!(graph.all_edges().len(), 1);
}

#[test]
fn remove_node_from_a_chain() {
    let mut graph = HashGraph::new();
    let a = create(&mut graph, b"A", 11);
    let b = create(&mut graph, b"C", 12);
    let c = create(&mut graph, b"G", 13);
    graph.create_edge(Edge(a, b));
    graph.create_edge(Edge(b, c));
    let p = graph.create_path_handle(b"through", false);
    graph.append_step(&p, a);
    graph.append_step(&p, b);
    graph.append_step(&p, c);
    assert!(graph.remove_handle(NodeId(12)));
    assert!(graph.get_node_unchecked(&NodeId(11)).right_edges.is_empty());
    assert!(graph.get_node_unchecked(&NodeId(13)).left_edges.is_empty());
    assert!(!graph.has_path(b"through"));
    assert!(graph.get_node_unchecked(&NodeId(11)).occurrences.is_empty());
    assert_eq!(graph.max_node_id(), NodeId(13));
}

#[test]
fn remove_edge_from_graph() {
    let mut graph = HashGraph::new();

    let h1 = create(&mut graph, b"1", 1);
    let h2 = create(&mut graph, b"2", 2);
    let h3 = create(&mut graph, b"3", 3);
    let h4 = create(&mut graph, b"4", 4);
    let h5 = create(&mut graph, b"5", 5);
    let h6 = create(&mut graph, b"6", 6);

    graph.create_edge(Edge(h1, h2));
    graph.create_edge(Edge(h1, h3));
    graph.create_edge(Edge(h1, h6));
    graph.create_edge(Edge(h2, h4));
    graph.create_edge(Edge(h2, h5));

    let p1 = graph.create_path_handle(b"path-1", false);
    graph.append_step(&p1, h1);
    graph.append_step(&p1, h2);
    graph.append_step(&p1, h5);

    let p2 = graph.create_path_handle(b"path-2", false);
    graph.append_step(&p2, h1);
    graph.append_step(&p2, h6);

    assert!(graph.remove_edge(Edge(h1, h3)));
    assert!(!graph.has_edge(h1, h3));
    assert!(!graph.has_edge(h3.flip(), h1.flip()));
    assert!(!graph.remove_edge(Edge(h1, h3)));
    assert!(graph.has_path(b"path-1"));

    assert!(graph.remove_edge(Edge(h1, h6)));
    assert!(!graph.has_path(b"path-2"));
    assert!(graph.has_path(b"path-1"));
    assert!(graph.get_node_unchecked(&NodeId(1)).occurrences.get(&p2).is_none());
}

#[test]
fn remove_path_from_graph() {
    let mut graph = small_graph();
    assert!(graph.remove_path(b"15"));
    assert!(!graph.has_path(b"15"));
    assert!(!graph.remove_path(b"15"));
    let p = graph.name_to_path_handle(b"14").unwrap();
    assert_eq!(graph.get_node_unchecked(&NodeId(13)).occurrences.len(), 1);
    assert_eq!(graph.get_node_unchecked(&NodeId(13)).occurrences.get(&p), Some(&2));
    assert_eq!(graph.paths_iter(), vec![p]);
}

#[test]
fn clear_graph() {
    let mut graph = small_graph();
    graph.clear_graph();
    assert_eq!(graph.node_count(), 0);
    assert_eq!(graph.max_node_id(), NodeId(0));
    assert_eq!(graph.min_node_id(), NodeId(u64::MAX));
    assert!(!graph.has_path(b"14"));
    assert!(graph.all_handles().is_empty());
}

#[test]
fn modify_node_from_graph() {
    let mut graph = small_graph();
    assert!(graph.modify_handle(NodeId(12), b"TEST_SEQUENCE"));
    assert_eq!(graph.sequence(Handle::pack(NodeId(12), false)), b"TEST_SEQUENCE".to_vec());
    assert!(!graph.modify_handle(NodeId(99), b"A"));
}

#[test]
fn modify_edge_from_graph() {
    let mut graph = HashGraph::new();

    let h1 = create(&mut graph, b"1", 1);
    let h2 = create(&mut graph, b"2", 2);
    let h3 = create(&mut graph, b"3", 3);
    let h4 = create(&mut graph, b"4", 4);
    let h5 = create(&mut graph, b"5", 5);
    let h6 = create(&mut graph, b"6", 6);

    graph.create_edge(Edge(h1, h2));
    graph.create_edge(Edge(h1, h3));
    graph.create_edge(Edge(h1, h6));
    graph.create_edge(Edge(h2, h4));
    graph.create_edge(Edge(h2, h5));

    let p1 = graph.create_path_handle(b"path-1", false);
    graph.append_step(&p1, h1);
    graph.append_step(&p1, h2);
    graph.append_step(&p1, h5);

    let p2 = graph.create_path_handle(b"path-2", false);
    graph.append_step(&p2, h1);
    graph.append_step(&p2, h6);

    assert!(graph.modify_edge(Edge(h1, h2), Some(h2), Some(h1)));
    assert!(!graph.has_edge(h1, h2));
    assert!(graph.has_edge(h2, h1));
    assert!(!graph.has_path(b"path-1"));
    assert!(graph.modify_edge(Edge(h1, h3), None, None));
    assert!(graph.has_edge(h1, h3));
    assert!(!graph.modify_edge(Edge(h3, h4), None, Some(h5)));
}

#[test]
fn modify_path_from_graph() {
    let mut graph = small_graph();
    let left = Handle::pack(NodeId(11), false);
    let right = Handle::pack(NodeId(13), false);
    assert!(graph.modify_edge(Edge(left, right), Some(left), Some(left)));
    assert!(graph.has_edge(left, left));
    let path_handles: Vec<Handle> = vec![
        Handle::pack(NodeId(11), false),
        Handle::pack(NodeId(11), false),
        Handle::pack(NodeId(12), false),
        Handle::pack(NodeId(13), false),
    ];
    assert!(graph.modify_path(b"14", path_handles.clone()));
    let p = graph.name_to_path_handle(b"14").unwrap();
    let steps: Vec<_> = graph.steps_iter(&p).iter().map(|s| graph.handle_of_step(s).unwrap()).collect();
    assert_eq!(steps, path_handles);
    assert!(!graph.is_circular(&p));
    assert_eq!(graph.get_node_unchecked(&NodeId(11)).occurrences.get(&p), Some(&1));
    assert!(!graph.modify_path(b"nope", vec![]));
}

#[test]
fn occurrences_iter_lists_each_path() {
    let graph = small_graph();
    let mut occ = graph.occurrences_iter(Handle::pack(NodeId(13), false));
    occ.sort_by_key(|s| match s {
        PathStep::Step(p, _) => *p,
        _ => usize::MAX,
    });
    assert_eq!(occ, vec![PathStep::Step(0, 2), PathStep::Step(1, 1)]);
}

#[test]
fn remove_edge_with_a_missing_node_reports_false() {
    let mut graph = path_graph();
    assert!(!graph.remove_edge(Edge(h(1), h(42))));
    assert!(!graph.remove_edge(Edge(h(42), h(1))));
    assert_eq!(graph.all_edges().len(), 6);
}

#[test]
fn remove_edge_drops_every_copy() {
    let mut graph = path_graph();
    graph.graph.get_mut(&1).unwrap().right_edges.push(h(2));
    assert!(graph.remove_edge(Edge(h(1), h(2))));
    assert!(!graph.has_edge(h(1), h(2)));
    assert!(!graph.has_edge(h(2).flip(), h(1).flip()));
    assert_eq!(graph.get_node_unchecked(&NodeId(1)).right_edges, vec![h(3)]);
}

#[test]
fn create_edge_completes_a_missing_end() {
    let mut graph = path_graph();
    graph.graph.get_mut(&2).unwrap().left_edges.clear();
    assert!(graph.create_edge(Edge(h(1), h(2))));
    assert_eq!(graph.get_node_unchecked(&NodeId(2)).left_edges, vec![h(1).flip()]);
    assert_eq!(graph.get_node_unchecked(&NodeId(1)).right_edges, vec![h(2), h(3)]);
    assert!(!graph.create_edge(Edge(h(2).flip(), h(1).flip())));
}

#[test]
fn a_taken_path_name_is_replaced() {
    let mut graph = path_graph();
    let p = graph.create_path_handle(b"same", false);
    graph.append_step(&p, h(1));
    let q = graph.create_path_handle(b"same", true);
    assert_ne!(p, q);
    assert_eq!(graph.paths_iter(), vec![q]);
    assert_eq!(graph.name_to_path_handle(b"same"), Some(q));
    assert!(graph.get_node_unchecked(&NodeId(1)).occurrences.get(&p).is_none());
    assert!(graph.remove_path(b"same"));
    assert!(!graph.has_path(b"same"));
}

#[test]
fn prepend_records_the_new_step_at_zero() {
    let mut graph = path_graph();
    let p = graph.create_path_handle(b"p", false);
    graph.append_step(&p, h(1));
    graph.append_step(&p, h(2));
    graph.append_step(&p, h(1));
    graph.prepend_step(&p, h(1));
    assert_eq!(graph.get_node_unchecked(&NodeId(1)).occurrences.get(&p), Some(&0));
    assert_eq!(graph.get_node_unchecked(&NodeId(2)).occurrences.get(&p), Some(&2));
    assert_eq!(graph.step_count(&p), 4);
}

#[test]
fn turning_a_node_flips_the_neighbours_entries() {
    let mut graph = path_graph();
    graph.apply_orientation(h(3).flip());
    // 1+ -> 3+ becomes 1+ -> 3-, and 3+ -> 4+ becomes 3- -> 4+
    assert!(graph.has_edge(h(1), h(3).flip()));
    assert!(graph.has_edge(h(3).flip(), h(4)));
    assert!(graph.has_edge(h(3), h(1).flip()));
    assert!(graph.has_edge(h(4).flip(), h(3)));
    assert!(!graph.has_edge(h(1), h(3)));
    graph.apply_orientation(h(3).flip());
    assert!(graph.has_edge(h(1), h(3)));
    assert!(graph.has_edge(h(3), h(4)));
    assert_eq!(graph.get_node_unchecked(&NodeId(1)).right_edges, vec![h(2), h(3)]);
    assert_eq!(graph.get_node_unchecked(&NodeId(4)).left_edges, vec![h(3).flip()]);
}
