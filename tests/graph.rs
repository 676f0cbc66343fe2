use graph_csr::reading::{from_adjacency_list, reader_to_iter, CsrBuilder};
use graph_csr::text::parse_edge_line;
use graph_csr::util::ValidGraphType;
use graph_csr::{Graph, GraphError};

fn basic_edges() -> Vec<(u32, u32)> {
    vec![(0u32, 1u32), (0, 2), (1, 5), (1, 2), (4, 7)]
}

fn collect_iter(graph: &Graph<u32>) -> Vec<(usize, Vec<u32>)> {
    let mut it = graph.iter();
    let mut res = Vec::new();
    let mut i = 0usize;
    while let Some(edges) = it.next() {
        res.push((i, edges.to_vec()));
        i += 1;
    }
    res
}

#[test]
fn parse_from_file() {
    let edges = vec![(0u32, 1u32), (0, 2), (1, 5), (1, 2), (4, 7)];

    let expected_nodes = vec![0usize, 2, 4, 4, 4, 5, 5, 5, 5];
    let expected_edges = vec![1u32, 2, 5, 2, 7];

    let mut text = String::new();
    for edge in edges {
        text.push_str(&format!("{} {}\n", edge.0, edge.1));
    }

    let mut parsed = Vec::new();
    for line in text.lines() {
        parsed.push(parse_edge_line::<u32>(line.as_bytes()).unwrap());
    }
    let files = match from_adjacency_list(&parsed) {
        Ok(files) => files,
        Err(e) => panic!("{:?}", e),
    };
    let graph = Graph::from_files(&files);

    assert_eq!(graph.iterate_nodes().to_vec(), expected_nodes);
    assert_eq!(graph.iterate_edges().to_vec(), expected_edges);
}

#[test]
fn parse_from_binary() {
    let edges = vec![(0u32, 1u32), (0, 2), (1, 5), (1, 2), (4, 7)];
    let expected_nodes = vec![0usize, 2, 4, 4, 4, 5, 5, 5, 5];
    let expected_edges = vec![1u32, 2, 5, 2, 7];

    let mut bytes: Vec<u8> = Vec::new();
    for (s, d) in &edges {
        bytes.extend_from_slice(&s.to_ne_bytes());
        bytes.extend_from_slice(&d.to_ne_bytes());
    }

    let mut it = reader_to_iter::<u32>(bytes);
    let mut parsed = Vec::new();
    while let Some(pair) = it.next() {
        parsed.push(pair);
    }
    assert_eq!(parsed, edges);

    let files = match from_adjacency_list(&parsed) {
        Ok(files) => files,
        Err(e) => panic!("{:?}", e),
    };
    let graph = Graph::from_files(&files);

    assert_eq!(graph.iterate_nodes().to_vec(), expected_nodes);
    assert_eq!(graph.iterate_edges().to_vec(), expected_edges);
}

#[test]
fn parse_from_general_stream() {
    let edges = vec![(0u32, 1u32), (0, 2), (1, 5), (1, 2), (4, 7)];

    let expected_nodes = vec![0usize, 2, 4, 4, 4, 5, 5, 5, 5];
    let expected_edges = vec![1u32, 2, 5, 2, 7];

    let files = match from_adjacency_list(&edges) {
        Ok(files) => files,
        Err(e) => panic!("{:?}", e),
    };
    let graph = Graph::from_files(&files);

    assert_eq!(graph.iterate_nodes().to_vec(), expected_nodes);
    assert_eq!(graph.iterate_edges().to_vec(), expected_edges);
    assert_eq!(graph.n_nodes(), 8);
    assert_eq!(graph.n_edges(), 5);
}

#[test]
fn load_u64_graph() {
    let edges = vec![(0u64, 1u64), (0, 2), (1, 5), (1, 2), (4, 7)];

    let expected_nodes = vec![0usize, 2, 4, 4, 4, 5, 5, 5, 5];
    let expected_edges = vec![1u64, 2, 5, 2, 7];

    let files = match from_adjacency_list(&edges) {
        Ok(files) => files,
        Err(e) => panic!("{:?}", e),
    };
    let graph = Graph::from_files(&files);

    assert_eq!(graph.iterate_nodes().to_vec(), expected_nodes);
    assert_eq!(graph.iterate_edges().to_vec(), expected_edges);
}

#[test]
fn test_graph_load() {
    let edges = vec![(0u32, 1u32), (0, 2), (1, 5), (1, 2), (4, 7)];
    let expected_nodes = vec![0usize, 2, 4, 4, 4, 5, 5, 5, 5];
    let expected_edges = vec![1u32, 2, 5, 2, 7];

    let files = match from_adjacency_list(&edges) {
        Ok(files) => files,
        Err(e) => panic!("{:?}", e),
    };

    // Load the graph from the stored arrays
    let graph = match Graph::<u32>::new(files.vertex(), files.edge()) {
        Ok(graph) => graph,
        Err(e) => panic!("{:?}", e),
    };

    assert_eq!(graph.iterate_nodes().to_vec(), expected_nodes);
    assert_eq!(graph.iterate_edges().to_vec(), expected_edges);
}

#[test]
fn iterate_graph() {
    let edges = vec![(0u32, 1u32), (0, 2), (1, 5), (1, 2), (4, 7)];
    let expected_res = vec![
        (0usize, vec![1, 2]),
        (1, vec![5, 2]),
        (2, vec![]),
        (3, vec![]),
        (4, vec![7]),
        (5, vec![]),
        (6, vec![]),
        (7, vec![]),
    ];

    let files = match from_adjacency_list(&edges) {
        Ok(g) => g,
        Err(e) => panic!("{:?}", e),
    };
    let graph = Graph::from_files(&files);

    assert_eq!(collect_iter(&graph), expected_res);
}

#[test]
fn invalid() {}

#[test]
fn iterator_ends_and_stays_ended() {
    let files = from_adjacency_list(&basic_edges()).unwrap();
    let graph = Graph::from_files(&files);
    let mut it = graph.iter();
    for _ in 0..8 {
        assert!(it.next().is_some());
    }
    assert!(it.next().is_none());
    assert!(it.next().is_none());
}

#[test]
fn out_edges_slices() {
    let files = from_adjacency_list(&basic_edges()).unwrap();
    let graph = Graph::from_files(&files);
    assert_eq!(graph.out_edges(0), &[1, 2]);
    assert_eq!(graph.out_edges(1), &[5, 2]);
    assert_eq!(graph.out_edges(3), &[] as &[u32]);
    assert_eq!(graph.out_edges(4), &[7]);
}

#[test]
fn enumeration_gives_back_the_input() {
    let edges = basic_edges();
    let files = from_adjacency_list(&edges).unwrap();
    let graph = Graph::from_files(&files);
    let mut out = Vec::new();
    for (i, targets) in collect_iter(&graph) {
        for d in targets {
            out.push((i as u32, d));
        }
    }
    assert_eq!(out, edges);
}

#[test]
fn offsets_never_decrease() {
    let edges = vec![(2u32, 0u32), (2, 9), (5, 5), (5, 5), (7, 1)];
    let files = from_adjacency_list(&edges).unwrap();
    let v = files.vertex();
    for i in 0..v.len() - 1 {
        assert!(v[i] <= v[i + 1]);
    }
    assert_eq!(v[v.len() - 1], files.edge().len());
    // Largest id is the destination 9: ten vertices, eleven offsets.
    assert_eq!(v.to_vec(), vec![0, 0, 0, 2, 2, 2, 4, 4, 5, 5, 5]);
    assert_eq!(files.edge().to_vec(), vec![0, 9, 5, 5, 1]);
    assert_eq!(files.n_nodes(), 10);
}

#[test]
fn last_source_beyond_destinations_keeps_its_edges() {
    let edges = vec![(5u32, 0u32)];
    let files = from_adjacency_list(&edges).unwrap();
    assert_eq!(files.vertex().to_vec(), vec![0, 0, 0, 0, 0, 0, 1]);
    let graph = Graph::from_files(&files);
    assert_eq!(graph.n_nodes(), 6);
    assert_eq!(graph.out_edges(5), &[0]);
}

#[test]
fn empty_stream_has_no_vertices() {
    let edges: Vec<(u32, u32)> = Vec::new();
    let files = from_adjacency_list(&edges).unwrap();
    assert_eq!(files.vertex().to_vec(), vec![0]);
    assert!(files.edge().is_empty());
    let graph = Graph::from_files(&files);
    assert_eq!(graph.n_nodes(), 0);
    assert_eq!(graph.n_edges(), 0);
    assert!(graph.iter().next().is_none());
}

#[test]
fn self_loops_and_duplicates_are_kept() {
    let edges = vec![(0u32, 0u32), (0, 0), (1, 1)];
    let files = from_adjacency_list(&edges).unwrap();
    assert_eq!(files.vertex().to_vec(), vec![0, 2, 3]);
    assert_eq!(files.edge().to_vec(), vec![0, 0, 1]);
}

#[test]
fn unsorted_stream_is_refused() {
    let edges = vec![(1u32, 2u32), (0, 1)];
    assert_eq!(from_adjacency_list(&edges).err(), Some(GraphError::ParseError));
}

#[test]
fn builder_streams_offsets() {
    let mut b = CsrBuilder::new();
    let o = b.push_edge(0u32, 1u32).unwrap();
    assert_eq!((o.count, o.value), (0, 0));
    let o = b.push_edge(3u32, 1u32).unwrap();
    assert_eq!((o.count, o.value), (3, 1));
    assert_eq!(b.push_edge(2u32, 1u32).err(), Some(GraphError::ParseError));
    let o = b.push_edge(3u32, 8u32).unwrap();
    assert_eq!((o.count, o.value), (0, 2));
    let o = b.finish();
    // Vertices 4 ..= 8 and the sentinel.
    assert_eq!((o.count, o.value), (6, 3));
}

#[test]
fn builder_with_no_edges_writes_nothing_more() {
    let b = CsrBuilder::new();
    let o = b.finish();
    assert_eq!(o.count, 0);
}

#[test]
fn invalid_arrays_are_refused() {
    let nodes = vec![0usize, 2, 1, 3];
    let edges = vec![1u32, 2, 0];
    assert_eq!(Graph::new(&nodes, &edges).err(), Some(GraphError::LoadError));
    let nodes = vec![1usize, 2];
    let edges = vec![0u32, 0];
    assert_eq!(Graph::new(&nodes, &edges).err(), Some(GraphError::LoadError));
    let nodes = vec![0usize, 1, 2];
    let edges = vec![0u32, 2];
    assert_eq!(Graph::new(&nodes, &edges).err(), Some(GraphError::LoadError));
    let nodes: Vec<usize> = vec![];
    let edges: Vec<u32> = vec![];
    assert_eq!(Graph::new(&nodes, &edges).err(), Some(GraphError::LoadError));
    let nodes = vec![0usize, 1, 2];
    let edges = vec![1u32, 0];
    assert!(Graph::new(&nodes, &edges).is_ok());
}

#[test]
fn text_lines() {
    assert_eq!(parse_edge_line::<u32>(b"12 7"), Ok((12, 7)));
    assert_eq!(parse_edge_line::<u32>(b"0\t\t3"), Ok((0, 3)));
    assert_eq!(parse_edge_line::<u64>(b"18446744073709551615 1"), Ok((u64::MAX, 1)));
    assert_eq!(parse_edge_line::<u32>(b"4294967296 1"), Err(GraphError::ParseError));
    assert_eq!(parse_edge_line::<u64>(b"18446744073709551616 1"), Err(GraphError::ParseError));
    assert_eq!(parse_edge_line::<u32>(b""), Err(GraphError::ParseError));
    assert_eq!(parse_edge_line::<u32>(b"1"), Err(GraphError::ParseError));
    assert_eq!(parse_edge_line::<u32>(b"1 2 "), Err(GraphError::ParseError));
    assert_eq!(parse_edge_line::<u32>(b" 1 2"), Err(GraphError::ParseError));
    assert_eq!(parse_edge_line::<u32>(b"1 2 3"), Err(GraphError::ParseError));
    assert_eq!(parse_edge_line::<u32>(b"1,2"), Err(GraphError::ParseError));
    assert_eq!(parse_edge_line::<u32>(b"-1 2"), Err(GraphError::ParseError));
}

#[test]
fn binary_records_ignore_a_partial_tail() {
    let mut bytes: Vec<u8> = Vec::new();
    bytes.extend_from_slice(&3u64.to_ne_bytes());
    bytes.extend_from_slice(&9u64.to_ne_bytes());
    bytes.extend_from_slice(&4u64.to_ne_bytes());
    let mut it = reader_to_iter::<u64>(bytes);
    assert_eq!(it.next(), Some((3, 9)));
    assert_eq!(it.next(), None);
    assert_eq!(it.next(), None);
}

#[test]
fn serialize_round_trips() {
    assert_eq!(7u32.serialize(), 7u32.to_ne_bytes().to_vec());
    assert_eq!(u32::from_bytes(&0x0a0b0c0du32.to_ne_bytes()), 0x0a0b0c0d);
    assert_eq!(u64::from_bytes(&0x0102030405060708u64.serialize()), 0x0102030405060708);
}

#[test]
fn decode_pair_reads_host_order() {
    let mut record: Vec<u8> = Vec::new();
    record.extend_from_slice(&0x0102_0304u32.to_ne_bytes());
    record.extend_from_slice(&0x0a0b_0c0du32.to_ne_bytes());
    assert_eq!(graph_csr::reading::decode_pair::<u32>(&record), (0x0102_0304, 0x0a0b_0c0d));
    let x = 0x1122_3344_5566_7788u64;
    assert_eq!(u64::from_bytes(&x.serialize()), x);
    assert_eq!(x.serialize(), x.to_ne_bytes().to_vec());
}
