use railgraph::entity::{Entity, EntityId, NodeData, Tag, WayData};
use railgraph::graph::{EdgeModel, Network};
use railgraph::pathfind::{astar, isqrt, CostPolicy};

fn tag(key: &str, value: &str) -> Tag {
    Tag { key: key.to_string(), value: value.to_string() }
}

fn rail_node_at(id: i64, lat: i32, lon: i32) -> Entity {
    Entity::Node(NodeData {
        id,
        tags: vec![tag("railway", "rail")],
        decimicro_lat: lat,
        decimicro_lon: lon,
    })
}

fn rail_node(id: i64) -> Entity {
    rail_node_at(id, 0, 0)
}

fn rail_way(id: i64, nodes: Vec<i64>) -> Entity {
    Entity::Way(WayData { id, tags: vec![tag("railway", "rail")], nodes })
}

fn zero_heur(net: &Network) -> Vec<u64> {
    vec![0; net.index.ids.len()]
}

/// Independent breadth-first hop count between two vertex handles, used as
/// the reference the search is checked against.
fn bfs_hops(net: &Network, src: usize, dst: usize) -> Option<u64> {
    let n = net.index.ids.len();
    let mut dist: Vec<Option<u64>> = vec![None; n];
    let mut queue: std::collections::VecDeque<usize> = std::collections::VecDeque::new();
    dist[src] = Some(0);
    queue.push_back(src);
    while let Some(v) = queue.pop_front() {
        let d = dist[v].unwrap();
        for e in &net.edges {
            let succ = if e.a == v {
                e.b
            } else if e.b == v {
                e.a
            } else {
                continue;
            };
            if dist[succ].is_none() {
                dist[succ] = Some(d + 1);
                queue.push_back(succ);
            }
        }
    }
    dist[dst]
}

#[test]
fn three_nodes_one_way_round_trip() {
    // Three rail nodes joined by one way under the entity-centric (node to
    // way) convention: four vertices and three edges; the unit-cost path
    // between the end nodes runs through the way vertex at cost two.
    let net = Network::from_entities(
        EdgeModel::EntityCentric,
        vec![rail_node(1), rail_node(2), rail_node(3), rail_way(10, vec![1, 2, 3])],
    );
    assert_eq!(net.index.ids.len(), 4);
    assert_eq!(net.edges.len(), 3);

    let src = net.lookup(EntityId::Node(1)).unwrap();
    let dst = net.lookup(EntityId::Node(3)).unwrap();
    let wv = net.lookup(EntityId::Way(10)).unwrap();
    let (cost, path) = astar(&net, src, dst, CostPolicy::Unit, &zero_heur(&net)).unwrap();
    assert_eq!(cost, 2);
    assert_eq!(path, vec![src, wv, dst]);
}

#[test]
fn unit_cost_path_length_matches_bfs_reference() {
    // A line with a shortcut and a stub branch; every vertex pair's
    // unit-cost distance must equal the independent breadth-first count.
    let net = Network::from_entities(
        EdgeModel::NodeCentric,
        vec![
            rail_node(1),
            rail_node(2),
            rail_node(3),
            rail_node(4),
            rail_node(5),
            rail_node(6),
            rail_way(20, vec![1, 2, 3, 4, 5]),
            rail_way(21, vec![1, 5]),
            rail_way(22, vec![2, 6]),
        ],
    );
    let n = net.index.ids.len();
    let heur = zero_heur(&net);
    for src in 0..n {
        for dst in 0..n {
            let expect = bfs_hops(&net, src, dst);
            match astar(&net, src, dst, CostPolicy::Unit, &heur) {
                Some((cost, path)) => {
                    assert_eq!(Some(cost as u64), expect, "pair {} -> {}", src, dst);
                    assert_eq!(path.len() as u128, cost + 1);
                    assert_eq!(path[0], src);
                    assert_eq!(*path.last().unwrap(), dst);
                }
                None => assert_eq!(expect, None, "pair {} -> {}", src, dst),
            }
        }
    }
}

#[test]
fn source_equal_to_target_costs_nothing() {
    let net = Network::from_entities(
        EdgeModel::NodeCentric,
        vec![rail_node(1), rail_node(2), rail_way(20, vec![1, 2])],
    );
    let v = net.lookup(EntityId::Node(1)).unwrap();
    let (cost, path) = astar(&net, v, v, CostPolicy::Unit, &zero_heur(&net)).unwrap();
    assert_eq!(cost, 0);
    assert_eq!(path, vec![v]);
}

#[test]
fn unreachable_target_returns_nothing() {
    let net = Network::from_entities(
        EdgeModel::NodeCentric,
        vec![
            rail_node(1),
            rail_node(2),
            rail_node(3),
            rail_node(4),
            rail_way(20, vec![1, 2]),
            rail_way(21, vec![3, 4]),
        ],
    );
    let src = net.lookup(EntityId::Node(1)).unwrap();
    let dst = net.lookup(EntityId::Node(3)).unwrap();
    assert!(astar(&net, src, dst, CostPolicy::Unit, &zero_heur(&net)).is_none());
}

#[test]
fn kind_based_cost_weighs_both_endpoints() {
    // Entity-centric: node(1) -- way(10) -- node(2); each hop joins a way
    // vertex (weight two) and a node vertex (weight four), so each edge
    // costs six and the two-hop path costs twelve.
    let net = Network::from_entities(
        EdgeModel::EntityCentric,
        vec![rail_node(1), rail_node(2), rail_way(10, vec![1, 2])],
    );
    let src = net.lookup(EntityId::Node(1)).unwrap();
    let dst = net.lookup(EntityId::Node(2)).unwrap();
    let (cost, path) = astar(&net, src, dst, CostPolicy::ByKind, &zero_heur(&net)).unwrap();
    assert_eq!(cost, 12);
    assert_eq!(path.len(), 3);
}

#[test]
fn geometric_cost_is_planar_distance_in_decimicro_degrees() {
    // A three-four-five triangle's hypotenuse: the edge between nodes at
    // (0, 0) and (30000, 40000) decimicro-degrees costs exactly 50000.
    let net = Network::from_entities(
        EdgeModel::NodeCentric,
        vec![
            rail_node_at(1, 0, 0),
            rail_node_at(2, 30000, 40000),
            rail_way(20, vec![1, 2]),
        ],
    );
    let src = net.lookup(EntityId::Node(1)).unwrap();
    let dst = net.lookup(EntityId::Node(2)).unwrap();
    let (cost, _) = astar(&net, src, dst, CostPolicy::Geometric, &zero_heur(&net)).unwrap();
    assert_eq!(cost, 50000);
}

#[test]
fn geometric_cost_falls_back_to_zero_without_coordinates() {
    // The way's member nodes were never read, so the dangling endpoints
    // have no stored coordinates and the edge costs nothing.
    let net = Network::from_entities(EdgeModel::NodeCentric, vec![rail_way(20, vec![1, 2])]);
    let src = net.lookup(EntityId::Node(1)).unwrap();
    let dst = net.lookup(EntityId::Node(2)).unwrap();
    let (cost, _) = astar(&net, src, dst, CostPolicy::Geometric, &zero_heur(&net)).unwrap();
    assert_eq!(cost, 0);
}

#[test]
fn nonzero_heuristic_still_returns_a_real_walk() {
    let net = Network::from_entities(
        EdgeModel::NodeCentric,
        vec![
            rail_node(1),
            rail_node(2),
            rail_node(3),
            rail_way(20, vec![1, 2, 3]),
        ],
    );
    let n = net.index.ids.len();
    let heur: Vec<u64> = (0..n).map(|i| (n - i) as u64).collect();
    let src = net.lookup(EntityId::Node(1)).unwrap();
    let dst = net.lookup(EntityId::Node(3)).unwrap();
    let (cost, path) = astar(&net, src, dst, CostPolicy::Unit, &heur).unwrap();
    // Under unit costs any returned walk's cost is its edge count.
    assert_eq!(cost, (path.len() - 1) as u128);
    assert_eq!(path[0], src);
    assert_eq!(*path.last().unwrap(), dst);
}

#[test]
fn isqrt_matches_exact_squares_and_neighbors() {
    assert_eq!(isqrt(0), 0);
    assert_eq!(isqrt(1), 1);
    assert_eq!(isqrt(2), 1);
    assert_eq!(isqrt(3), 1);
    assert_eq!(isqrt(4), 2);
    assert_eq!(isqrt(15), 3);
    assert_eq!(isqrt(16), 4);
    assert_eq!(isqrt(2500000000), 50000);
    assert_eq!(isqrt(u128::from(u64::MAX)), 4294967295);
    assert_eq!(isqrt(u128::MAX), u64::MAX);
}
