use graph_csr::compute::{atomic_min, ComputeGraph};
use graph_csr::reading::{from_adjacency_list, GraphFiles};
use graph_csr::Graph;

fn get_basic_files() -> GraphFiles<u32> {
    // Default graph
    let edges = vec![(0u32, 1u32), (0, 2), (1, 5), (1, 2), (4, 7)];

    from_adjacency_list(&edges).unwrap()
}

fn data_of(compute: &ComputeGraph<u32, u32>) -> Vec<u32> {
    compute.get_data_as_slice().to_vec()
}

#[test]
fn basic_graph_traversal() {
    let files = get_basic_files();
    let graph = Graph::from_files(&files);

    let mut compute = ComputeGraph::<u32, u32>::new(&graph);

    // All nodes on, and data is 0
    compute.fill_active(true);
    compute.fill_data(0);
    compute.step();

    compute.push(|_, new_res| (new_res + 1, true));
    compute.step();

    assert_eq!(&data_of(&compute), &vec![0, 1, 2, 0, 0, 1, 0, 1]);
}

#[test]
fn filtered_graph_traversal() {
    let files = get_basic_files();
    let graph = Graph::from_files(&files);

    let mut compute = ComputeGraph::<u32, u32>::new(&graph);

    // Even nodes are on, and data is 0
    for id in 0..graph.n_nodes() {
        compute.set_active(id, id % 2 == 0);
    }
    compute.fill_data(0);
    compute.step();

    compute.push(|_, new_res| (new_res + 1, true));
    compute.step();

    assert_eq!(&data_of(&compute), &vec![0, 1, 1, 0, 0, 0, 0, 1]);
}

#[test]
fn bfs_disconnected() {
    let files = get_basic_files();
    let graph = Graph::from_files(&files);

    let mut compute = ComputeGraph::<u32, u32>::new(&graph);

    // All nodes are off, and data is u32::MAX
    compute.fill_active(false);
    compute.fill_data(u32::MAX);

    // Initialize source
    compute.set_active(0, true);
    compute.set_data(0, 0);
    compute.step();

    while compute.n_active() > 0 {
        compute.push(|local, res| atomic_min(local, res, |v| v + 1));
        compute.step();
    }

    assert_eq!(
        &data_of(&compute),
        &vec![0, 1, 1, u32::MAX, u32::MAX, 2, u32::MAX, u32::MAX]
    );
}

#[test]
fn bfs_cycle() {
    let edges = vec![
        (0u32, 1u32),
        (1, 2),
        (2, 3),
        (3, 4),
        (4, 5),
        (5, 6),
        (6, 7),
        (7, 0),
    ];

    let files = from_adjacency_list(&edges).unwrap();
    let graph = Graph::from_files(&files);

    let mut compute = ComputeGraph::<u32, u32>::new(&graph);

    compute.fill_active(false);
    compute.fill_data(u32::MAX);

    compute.set_active(0, true);
    compute.set_data(0, 0);
    compute.step();

    while compute.n_active() > 0 {
        compute.push(|local, res| atomic_min(local, res, |v| v + 1));
        compute.step();
    }

    assert_eq!(&data_of(&compute), &vec![0, 1, 2, 3, 4, 5, 6, 7]);
}

#[test]
fn wcc() {
    let files = get_basic_files();
    let graph = Graph::from_files(&files);

    let mut compute = ComputeGraph::<u32, u32>::new(&graph);

    // All nodes are ON, and data is the node id
    compute.fill_active(true);
    for id in 0..graph.n_nodes() {
        compute.set_data(id, id as u32);
    }
    compute.step();

    while compute.n_active() > 0 {
        compute.push(|local, res| atomic_min(local, res, |v| v));
        compute.step();
    }

    assert_eq!(&data_of(&compute), &vec![0, 0, 0, 3, 4, 0, 6, 4]);
}

#[test]
fn save_file() {
    let files = get_basic_files();
    let graph = Graph::from_files(&files);
    let mut compute = ComputeGraph::<u32, u32>::new(&graph);

    for id in 0..graph.n_nodes() {
        compute.set_data(id, id as u32);
    }
    compute.step();

    let output = compute.data_to_bytes();

    for i in 0..graph.n_nodes() {
        assert_eq!(
            i as u32,
            <byteorder::NativeEndian as byteorder::ByteOrder>::read_u32(&output[4 * i..])
        );
    }
}

#[test]
fn save_file_is_exact_dump() {
    let files = get_basic_files();
    let graph = Graph::from_files(&files);
    let mut compute = ComputeGraph::<u32, u32>::new(&graph);
    for id in 0..graph.n_nodes() {
        compute.set_data(id, id as u32);
    }
    compute.step();

    let output = compute.data_to_bytes();
    let mut expected: Vec<u8> = Vec::new();
    for id in 0..8u32 {
        expected.extend_from_slice(&id.to_ne_bytes());
    }
    assert_eq!(output.len(), 32);
    assert_eq!(output, expected);
}

#[test]
fn save_u64_data() {
    let files = get_basic_files();
    let graph = Graph::from_files(&files);
    let mut compute = ComputeGraph::<u32, u64>::new(&graph);
    compute.fill_data(0x0102_0304_0506_0708);
    compute.step();
    let output = compute.data_to_bytes();
    assert_eq!(output.len(), 64);
    assert_eq!(&output[8..16], &0x0102_0304_0506_0708u64.to_ne_bytes());
}

#[test]
fn new_engine_is_default_and_inactive() {
    let files = get_basic_files();
    let graph = Graph::from_files(&files);
    let compute = ComputeGraph::<u32, u64>::new(&graph);
    assert_eq!(compute.n_active(), 0);
    assert_eq!(compute.get_data_as_slice().to_vec(), vec![0u64; 8]);
}

#[test]
fn step_resets_new_buffers() {
    let files = get_basic_files();
    let graph = Graph::from_files(&files);
    let mut compute = ComputeGraph::<u32, u32>::new(&graph);
    compute.fill_active(true);
    compute.fill_data(5);
    compute.step();
    assert_eq!(compute.n_active(), 8);
    // Nothing set for the next iteration: after a step no vertex is active
    // and the data carries over.
    compute.step();
    assert_eq!(compute.n_active(), 0);
    assert_eq!(data_of(&compute), vec![5; 8]);
}

#[test]
fn idle_push_changes_nothing() {
    let files = get_basic_files();
    let graph = Graph::from_files(&files);
    let mut compute = ComputeGraph::<u32, u32>::new(&graph);
    for id in 0..graph.n_nodes() {
        compute.set_data(id, 10 * id as u32);
    }
    compute.step();
    assert_eq!(compute.n_active(), 0);
    let before = data_of(&compute);
    compute.push(|_, _| (0, true));
    compute.step();
    assert_eq!(data_of(&compute), before);
    assert_eq!(compute.n_active(), 0);
}

#[test]
fn monotone_push_never_raises() {
    let files = get_basic_files();
    let graph = Graph::from_files(&files);
    let mut compute = ComputeGraph::<u32, u32>::new(&graph);
    compute.fill_active(true);
    for id in 0..graph.n_nodes() {
        compute.set_data(id, 100 - id as u32);
    }
    compute.step();
    let before = data_of(&compute);
    compute.push(|local, res| atomic_min(local, res, |v| v / 2));
    compute.step();
    let after = data_of(&compute);
    for i in 0..8 {
        assert!(after[i] <= before[i]);
    }
    // 0 -> 1, 0 -> 2, 1 -> 5, 1 -> 2, 4 -> 7 with halved values.
    assert_eq!(after, vec![100, 50, 49, 97, 96, 49, 94, 48]);
}

#[test]
fn min_push_is_order_free() {
    // Vertex 2 has in-edges from 0, 1 and 3; the smallest candidate arrives
    // second in one run and first in the other.
    let edges = vec![(0u32, 2u32), (1, 2), (3, 2)];
    let files = from_adjacency_list(&edges).unwrap();
    let graph = Graph::from_files(&files);
    let mut results = Vec::new();
    for data in [[7u32, 3, 9, 5], [3, 7, 9, 5]] {
        let mut c = ComputeGraph::<u32, u32>::new(&graph);
        c.fill_active(true);
        for (i, d) in data.iter().enumerate() {
            c.set_data(i, *d);
        }
        c.step();
        c.push(|local, res| atomic_min(local, res, |v| v));
        c.step();
        assert_eq!(c.n_active(), 1);
        results.push(data_of(&c));
    }
    assert_eq!(results[0], vec![7, 3, 3, 5]);
    assert_eq!(results[1], vec![3, 7, 3, 5]);
}

#[test]
fn atomic_min_lowers_only_when_smaller() {
    assert_eq!(atomic_min(3u32, 10u32, |v| v + 1), (4, true));
    assert_eq!(atomic_min(9u32, 10u32, |v| v + 1), (10, false));
    assert_eq!(atomic_min(12u32, 10u32, |v| v), (10, false));
    assert_eq!(atomic_min(2u64, 7u64, |v| v * 2), (4, true));
}

#[test]
fn push_changes_only_targets_of_active_vertices() {
    let files = get_basic_files();
    let graph = Graph::from_files(&files);
    let mut compute = ComputeGraph::<u32, u32>::new(&graph);
    compute.fill_data(10);
    compute.set_active(4, true);
    compute.step();
    compute.push(|_, cur| (cur + 5, true));
    compute.step();
    // Only vertex 7, the target of vertex 4, changed and became active.
    assert_eq!(data_of(&compute), vec![10, 10, 10, 10, 10, 10, 10, 15]);
    assert_eq!(compute.n_active(), 1);
}
