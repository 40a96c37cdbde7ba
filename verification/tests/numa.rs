use wal_server::numa::detection::{node_id_of, parse_cpulist, NodeEntry, NumaNode, NumaTopology};
use wal_server::numa::placement::ShardPlacement;

#[test]
fn test_parse_cpulist_range() {
    assert_eq!(parse_cpulist("0-3"), vec![0, 1, 2, 3]);
}

#[test]
fn test_parse_cpulist_mixed() {
    assert_eq!(parse_cpulist("0-2,5,7-9"), vec![0, 1, 2, 5, 7, 8, 9]);
}

#[test]
fn test_parse_cpulist_single() {
    assert_eq!(parse_cpulist("3"), vec![3]);
}

#[test]
fn cpulist_skips_what_it_cannot_read() {
    assert_eq!(parse_cpulist(""), Vec::<usize>::new());
    assert_eq!(parse_cpulist(" 1 , ,x, 4-5 ,3-1,6-,+7,2-y"), vec![1, 4, 5, 7]);
    assert_eq!(parse_cpulist("99999999999999999999999"), Vec::<usize>::new());
    assert_eq!(parse_cpulist("4-4"), vec![4]);
}

#[test]
fn test_single_node_fallback() {
    let topo = NumaTopology::single_node_fallback(None);
    assert_eq!(topo.nodes.len(), 1);
    assert!(!topo.nodes[0].cpu_ids.is_empty());
}

#[test]
fn fallback_numbers_all_cpus() {
    let topo = NumaTopology::single_node_fallback(Some(3));
    assert_eq!(topo.nodes[0].node_id, 0);
    assert_eq!(topo.nodes[0].cpu_ids, vec![0, 1, 2]);
    assert_eq!(topo.total_cpus(), 3);
}

#[test]
fn topology_comes_from_the_node_entries() {
    let entry = |name: &str, list: Option<&str>| NodeEntry {
        name: name.to_string(),
        cpulist: list.map(|s| s.to_string()),
    };
    let entries = vec![
        entry("possible", Some("0-1")),
        entry("node1", Some("4-7\n")),
        entry("nodeX", Some("9")),
        entry("node0", Some("0-3\n")),
        entry("node2", None),
    ];
    let topo = NumaTopology::from_entries(&entries).unwrap();
    assert_eq!(topo.nodes.len(), 2);
    assert_eq!(topo.nodes[0].node_id, 0);
    assert_eq!(topo.nodes[0].cpu_ids, vec![0, 1, 2, 3]);
    assert_eq!(topo.nodes[1].node_id, 1);
    assert_eq!(topo.nodes[1].cpu_ids, vec![4, 5, 6, 7]);
    assert_eq!(topo.total_cpus(), 8);
    assert!(NumaTopology::from_entries(&vec![entry("cpu0", Some("0"))]).is_none());
    assert_eq!(node_id_of(&"node12".to_string()), Some(12));
    assert_eq!(node_id_of(&"node".to_string()), None);
    assert_eq!(node_id_of(&"has_cpu".to_string()), None);
}

#[test]
fn test_placement_single_node() {
    let topo = NumaTopology {
        nodes: vec![NumaNode {
            node_id: 0,
            cpu_ids: vec![0, 1, 2, 3],
        }],
    };

    let placement = ShardPlacement::compute(&topo, None);
    assert_eq!(placement.acceptor_cpus, vec![0]);
    assert_eq!(placement.shard_assignments.len(), 3);
    assert_eq!(placement.shard_assignments[0].cpu_id, 1);
    assert_eq!(placement.shard_assignments[1].cpu_id, 2);
    assert_eq!(placement.shard_assignments[2].cpu_id, 3);
}

#[test]
fn test_placement_multi_numa() {
    let topo = NumaTopology {
        nodes: vec![
            NumaNode {
                node_id: 0,
                cpu_ids: vec![0, 1, 2, 3],
            },
            NumaNode {
                node_id: 1,
                cpu_ids: vec![4, 5, 6, 7],
            },
        ],
    };

    let placement = ShardPlacement::compute(&topo, None);
    assert_eq!(placement.acceptor_cpus, vec![0, 4]);
    assert_eq!(placement.shard_assignments.len(), 6);
}

#[test]
fn test_placement_with_limit() {
    let topo = NumaTopology {
        nodes: vec![NumaNode {
            node_id: 0,
            cpu_ids: vec![0, 1, 2, 3, 4, 5, 6, 7],
        }],
    };

    let placement = ShardPlacement::compute(&topo, Some(3));
    assert_eq!(placement.shard_assignments.len(), 3);
}

#[test]
fn a_single_cpu_is_shared() {
    let topo = NumaTopology {
        nodes: vec![
            NumaNode {
                node_id: 5,
                cpu_ids: vec![],
            },
            NumaNode {
                node_id: 6,
                cpu_ids: vec![9],
            },
        ],
    };
    let placement = ShardPlacement::compute(&topo, Some(4));
    assert_eq!(placement.acceptor_cpus, vec![9]);
    assert_eq!(placement.shard_assignments.len(), 1);
    assert_eq!(placement.shard_assignments[0].cpu_id, 9);
    assert_eq!(placement.shard_assignments[0].numa_node, 5);
}

#[test]
fn shards_stay_off_acceptor_cpus_and_apart() {
    let topo = NumaTopology {
        nodes: vec![
            NumaNode {
                node_id: 0,
                cpu_ids: vec![2, 0, 1],
            },
            NumaNode {
                node_id: 1,
                cpu_ids: vec![5, 3],
            },
        ],
    };
    let placement = ShardPlacement::compute(&topo, None);
    assert_eq!(placement.acceptor_cpus, vec![2, 5]);
    let cpus: Vec<usize> = placement.shard_assignments.iter().map(|a| a.cpu_id).collect();
    let nodes: Vec<usize> = placement.shard_assignments.iter().map(|a| a.numa_node).collect();
    let ids: Vec<u16> = placement.shard_assignments.iter().map(|a| a.shard_id).collect();
    assert_eq!(cpus, vec![0, 1, 3]);
    assert_eq!(nodes, vec![0, 0, 1]);
    assert_eq!(ids, vec![0, 1, 2]);
}
