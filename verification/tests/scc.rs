use mycos::chunk::{Action, Connection, MycosChunk, Section, Trigger};
use mycos::scc::{build_internal_graph, scc_ids_and_topo_levels};

fn conn(from_section: Section, from_index: u32, to_section: Section, to_index: u32) -> Connection {
    Connection {
        from_section,
        to_section,
        trigger: Trigger::On,
        action: Action::Enable,
        from_index,
        to_index,
        order_tag: 0,
    }
}

fn chunk(ni: u32, no: u32, nn: u32, connections: Vec<Connection>) -> MycosChunk {
    MycosChunk {
        input_bits: vec![0; ni.div_ceil(8) as usize],
        output_bits: vec![0; no.div_ceil(8) as usize],
        internal_bits: vec![0; nn.div_ceil(8) as usize],
        input_count: ni,
        output_count: no,
        internal_count: nn,
        connections,
        name: None,
        note: None,
        build_hash: None,
    }
}

fn oscillator() -> MycosChunk {
    chunk(
        0,
        0,
        2,
        vec![
            conn(Section::Internal, 0, Section::Internal, 1),
            conn(Section::Internal, 1, Section::Internal, 0),
        ],
    )
}

fn fixtures() -> Vec<MycosChunk> {
    vec![
        oscillator(),
        chunk(
            1,
            1,
            1,
            vec![
                conn(Section::Input, 0, Section::Internal, 0),
                conn(Section::Internal, 0, Section::Output, 0),
            ],
        ),
        chunk(2, 3, 0, vec![]),
        chunk(
            1,
            1,
            5,
            vec![
                conn(Section::Input, 0, Section::Internal, 0),
                conn(Section::Internal, 0, Section::Internal, 1),
                conn(Section::Internal, 1, Section::Internal, 2),
                conn(Section::Internal, 2, Section::Internal, 1),
                conn(Section::Internal, 2, Section::Internal, 3),
                conn(Section::Internal, 0, Section::Internal, 3),
                conn(Section::Internal, 3, Section::Output, 0),
            ],
        ),
    ]
}

#[test]
fn graph_node_and_edge_counts_match() {
    for chunk in fixtures() {
        let graph = build_internal_graph(&chunk);
        assert_eq!(graph.node_count() as u32, chunk.internal_count);
        let expected_edges = chunk
            .connections
            .iter()
            .filter(|c| {
                matches!(c.from_section, Section::Internal)
                    && matches!(c.to_section, Section::Internal)
            })
            .count();
        assert_eq!(graph.edge_count(), expected_edges);
    }
}

#[test]
fn oscillator_two_cycle_scc() {
    let chunk = oscillator();
    let (scc_ids, levels) = scc_ids_and_topo_levels(&chunk);
    assert_eq!(scc_ids, vec![0, 0]);
    assert_eq!(levels, vec![0]);
}

#[test]
fn levels_grow_along_the_condensation() {
    // 0 -> {1, 2} -> 3, 0 -> 3, and 4 on its own.
    let chunk = fixtures().pop().unwrap();
    let (ids, levels) = scc_ids_and_topo_levels(&chunk);
    assert_eq!(ids.len(), 5);
    assert_eq!(levels.len(), 4);
    assert_eq!(ids[1], ids[2]);
    assert_ne!(ids[0], ids[1]);
    assert_ne!(ids[1], ids[3]);
    assert_ne!(ids[0], ids[4]);
    assert_eq!(levels[ids[0]], 0);
    assert_eq!(levels[ids[1]], 1);
    assert_eq!(levels[ids[3]], 2);
    assert_eq!(levels[ids[4]], 0);
    for c in &chunk.connections {
        if c.from_section == Section::Internal && c.to_section == Section::Internal {
            let (u, v) = (ids[c.from_index as usize], ids[c.to_index as usize]);
            assert!(v <= u);
            if u != v {
                assert!(levels[v] > levels[u]);
            }
        }
    }
    let mut used = ids.clone();
    used.sort();
    used.dedup();
    assert_eq!(used, vec![0, 1, 2, 3]);
}

#[test]
fn no_internals_no_components() {
    let (ids, levels) = scc_ids_and_topo_levels(&chunk(2, 3, 0, vec![]));
    assert!(ids.is_empty());
    assert!(levels.is_empty());
}

#[test]
fn parallel_arcs_and_self_loops() {
    let chunk = chunk(
        0,
        0,
        2,
        vec![
            conn(Section::Internal, 0, Section::Internal, 0),
            conn(Section::Internal, 0, Section::Internal, 1),
            conn(Section::Internal, 0, Section::Internal, 1),
        ],
    );
    let graph = build_internal_graph(&chunk);
    assert_eq!(graph.edge_count(), 3);
    let (ids, levels) = scc_ids_and_topo_levels(&chunk);
    assert_eq!(ids, vec![1, 0]);
    assert_eq!(levels, vec![1, 0]);
}
