use std::collections::HashMap;

use osmgraph::coords::Coord;
use osmgraph::osm2graph::{EdgeID, Graph, NodeID, Way, WayID};
use osmgraph::tags::Tags;

fn pt(x: i64, y: i64) -> Coord {
    Coord { x, y }
}

/// Two ways crossing at raw node 2: 1-2-3 and 4-2-5.
fn crossing() -> Graph {
    let mut node_mapping = HashMap::new();
    node_mapping.insert(1, pt(0, 0));
    node_mapping.insert(2, pt(100, 0));
    node_mapping.insert(3, pt(200, 0));
    node_mapping.insert(4, pt(100, -100));
    node_mapping.insert(5, pt(100, 100));
    let ways = vec![
        Way {
            id: WayID(10),
            node_ids: vec![NodeID(1), NodeID(2), NodeID(3)],
            tags: Tags::empty(),
        },
        Way {
            id: WayID(20),
            node_ids: vec![NodeID(4), NodeID(2), NodeID(5)],
            tags: Tags::empty(),
        },
    ];
    Graph::from_scraped_osm(node_mapping, ways)
}

fn live_edges(g: &Graph) -> usize {
    g.edges.iter().filter(|e| e.is_some()).count()
}

fn live_intersections(g: &Graph) -> usize {
    g.intersections.iter().filter(|i| i.is_some()).count()
}

fn intersection_nodes(g: &Graph) -> Vec<i64> {
    let mut nodes: Vec<i64> = g
        .intersections
        .iter()
        .flatten()
        .map(|i| i.osm_node.0)
        .collect();
    nodes.sort();
    nodes
}

#[test]
fn crossing_ways_split_at_the_shared_node() {
    let g = crossing();
    // The shared node 2 is a junction; each way splits into two edges.
    assert_eq!(live_edges(&g), 4);
    // Four way endpoints plus the junction.
    assert_eq!(live_intersections(&g), 5);
    assert_eq!(intersection_nodes(&g), vec![1, 2, 3, 4, 5]);
    // The junction has degree four.
    let junction = g
        .intersections
        .iter()
        .flatten()
        .find(|i| i.osm_node.0 == 2)
        .unwrap();
    assert_eq!(junction.edges.len(), 4);
    // Every edge's geometry runs from its source's point to its destination's.
    for e in g.edges.iter().flatten() {
        let src = g.intersections[e.src.0].as_ref().unwrap();
        let dst = g.intersections[e.dst.0].as_ref().unwrap();
        assert_eq!(*e.linestring.first().unwrap(), src.point);
        assert_eq!(*e.linestring.last().unwrap(), dst.point);
    }
    // All five raw nodes landed in the node index.
    let mut indexed: Vec<i64> = g.node_to_edge.iter().map(|p| p.0 .0).collect();
    indexed.sort();
    indexed.dedup();
    assert_eq!(indexed, vec![1, 2, 3, 4, 5]);
}

#[test]
fn single_way_makes_one_edge() {
    let mut node_mapping = HashMap::new();
    node_mapping.insert(1, pt(0, 0));
    node_mapping.insert(2, pt(50, 50));
    node_mapping.insert(3, pt(100, 100));
    let ways = vec![Way {
        id: WayID(7),
        node_ids: vec![NodeID(1), NodeID(2), NodeID(3)],
        tags: Tags::empty(),
    }];
    let g = Graph::from_scraped_osm(node_mapping, ways);
    // No internal junction: the whole way is a single edge with full geometry.
    assert_eq!(live_edges(&g), 1);
    assert_eq!(live_intersections(&g), 2);
    let e = g.edges[0].as_ref().unwrap();
    assert_eq!(e.linestring, vec![pt(0, 0), pt(50, 50), pt(100, 100)]);
    assert_eq!(e.osm_node1, NodeID(1));
    assert_eq!(e.osm_node2, NodeID(3));
    assert_eq!(e.osm_way, WayID(7));
}

#[test]
fn edges_carry_their_way_provenance() {
    let mut node_mapping = HashMap::new();
    node_mapping.insert(1, pt(0, 0));
    node_mapping.insert(2, pt(100, 0));
    let mut tags = Tags::empty();
    tags.insert("highway", "path");
    let ways = vec![Way {
        id: WayID(42),
        node_ids: vec![NodeID(1), NodeID(2)],
        tags,
    }];
    let g = Graph::from_scraped_osm(node_mapping, ways);
    let e = g.edges[0].as_ref().unwrap();
    assert_eq!(e.osm_way, WayID(42));
    assert!(e.osm_tags.is("highway", "path"));
    assert_eq!(e.osm_node1, NodeID(1));
    assert_eq!(e.osm_node2, NodeID(2));
    assert_eq!(e.linestring, vec![pt(0, 0), pt(100, 0)]);
}

#[test]
fn closed_way_makes_a_self_loop_edge() {
    let mut node_mapping = HashMap::new();
    node_mapping.insert(1, pt(0, 0));
    node_mapping.insert(2, pt(100, 0));
    let ways = vec![Way {
        id: WayID(9),
        node_ids: vec![NodeID(1), NodeID(2), NodeID(1)],
        tags: Tags::empty(),
    }];
    let g = Graph::from_scraped_osm(node_mapping, ways);
    // Node 1 is referenced twice but the whole way stays one edge: its two
    // boundary nodes coincide, so src == dst on a single intersection whose
    // incident list holds the edge once per incidence.
    assert_eq!(live_edges(&g), 1);
    assert_eq!(live_intersections(&g), 1);
    let e = g.edges[0].as_ref().unwrap();
    assert_eq!(e.src, e.dst);
    let i = g.intersections[e.src.0].as_ref().unwrap();
    assert_eq!(i.edges, vec![e.id, e.id]);
    assert_eq!(e.linestring, vec![pt(0, 0), pt(100, 0), pt(0, 0)]);
}

#[test]
fn removing_edges_prunes_isolated_intersections() {
    let mut g = crossing();
    // Remove the edge between nodes 1 and 2.
    let doomed: Vec<EdgeID> = g
        .edges
        .iter()
        .flatten()
        .filter(|e| e.osm_node1.0 == 1 || e.osm_node2.0 == 1)
        .map(|e| e.id)
        .collect();
    assert_eq!(doomed.len(), 1);
    g.remove_edges(doomed.clone());

    assert_eq!(live_edges(&g), 3);
    // Node 1's intersection lost its only edge and is gone.
    assert_eq!(intersection_nodes(&g), vec![2, 3, 4, 5]);
    // No surviving incident list mentions the removed edge.
    for i in g.intersections.iter().flatten() {
        assert!(!i.edges.contains(&doomed[0]));
        assert!(!i.edges.is_empty());
    }
    // The node index no longer points at the removed edge.
    for (_, e) in &g.node_to_edge {
        assert!(g.edges[e.0].is_some());
        assert_ne!(*e, doomed[0]);
    }
}

#[test]
fn compacting_makes_ids_dense_and_consistent() {
    let mut g = crossing();
    let doomed: Vec<EdgeID> = g
        .edges
        .iter()
        .flatten()
        .filter(|e| e.osm_node1.0 == 1 || e.osm_node2.0 == 1)
        .map(|e| e.id)
        .collect();
    g.remove_edges(doomed);
    g.compact_ids();

    // Edge IDs exactly cover 0..E and intersection IDs 0..I.
    assert_eq!(g.edges.len(), 3);
    assert_eq!(g.intersections.len(), 4);
    for (idx, e) in g.edges.iter().enumerate() {
        let e = e.as_ref().expect("dense edge slot");
        assert_eq!(e.id.0, idx);
        // Cross-references stay mutually consistent.
        let src = g.intersections[e.src.0].as_ref().unwrap();
        let dst = g.intersections[e.dst.0].as_ref().unwrap();
        assert!(src.edges.contains(&e.id));
        assert!(dst.edges.contains(&e.id));
    }
    for (idx, i) in g.intersections.iter().enumerate() {
        let i = i.as_ref().expect("dense intersection slot");
        assert_eq!(i.id.0, idx);
        for e in &i.edges {
            let edge = g.edges[e.0].as_ref().unwrap();
            assert!(edge.src == i.id || edge.dst == i.id);
        }
    }
    for (_, e) in &g.node_to_edge {
        assert!(e.0 < g.edges.len());
    }
}
