use railgraph::entity::{Entity, EntityId, NodeData, Tag, WayData};
use railgraph::graph::{EdgeModel, Network};
use railgraph::partition::{partition, Assignment, Partition, Seed};

fn tag(key: &str, value: &str) -> Tag {
    Tag { key: key.to_string(), value: value.to_string() }
}

fn rail_node(id: i64) -> Entity {
    Entity::Node(NodeData {
        id,
        tags: vec![tag("railway", "rail")],
        decimicro_lat: 0,
        decimicro_lon: 0,
    })
}

fn rail_way(id: i64, nodes: Vec<i64>) -> Entity {
    Entity::Way(WayData { id, tags: vec![tag("railway", "rail")], nodes })
}

fn seed(label: &str, id: EntityId) -> Seed {
    Seed { label: label.to_string(), id }
}

fn line_of_five() -> Network {
    Network::from_entities(
        EdgeModel::NodeCentric,
        vec![
            rail_node(1),
            rail_node(2),
            rail_node(3),
            rail_node(4),
            rail_node(5),
            rail_way(20, vec![1, 2, 3, 4, 5]),
        ],
    )
}

fn assignment_of(p: &Partition, net: &Network, id: EntityId) -> Assignment {
    let v = net.lookup(id).unwrap();
    p.regions[v].clone().unwrap()
}

#[test]
fn line_of_five_splits_between_two_seeds() {
    // A line of five nodes joined by one way, seeded at both ends. The
    // frontier from "X" claims the middle node: seeds are enqueued in list
    // order and edges scanned in insertion order, so "X" reaches node 3
    // one round before "Y" would.
    let net = line_of_five();
    let seeds = vec![seed("X", EntityId::Node(1)), seed("Y", EntityId::Node(5))];
    let p = partition(&net, &seeds).unwrap();

    assert_eq!(assignment_of(&p, &net, EntityId::Node(1)).label.as_str(), "X");
    assert_eq!(assignment_of(&p, &net, EntityId::Node(2)).label.as_str(), "X");
    assert_eq!(assignment_of(&p, &net, EntityId::Node(3)).label.as_str(), "X");
    assert_eq!(assignment_of(&p, &net, EntityId::Node(4)).label.as_str(), "Y");
    assert_eq!(assignment_of(&p, &net, EntityId::Node(5)).label.as_str(), "Y");

    assert_eq!(p.boundaries.len(), 1);
    let b = &p.boundaries[0];
    assert_eq!(b.a.as_str(), "X");
    assert_eq!(b.b.as_str(), "Y");
    // The crossing path threads from seed 1 through node 3 to seed 5.
    let w = EntityId::Way(20);
    let expected = vec![
        EntityId::Node(1),
        w,
        EntityId::Node(2),
        w,
        EntityId::Node(3),
        EntityId::Node(4),
        w,
        EntityId::Node(5),
    ];
    assert_eq!(b.path, expected);
}

#[test]
fn seed_paths_start_with_their_own_identifier() {
    let net = line_of_five();
    let seeds = vec![seed("X", EntityId::Node(1)), seed("Y", EntityId::Node(5))];
    let p = partition(&net, &seeds).unwrap();
    assert_eq!(assignment_of(&p, &net, EntityId::Node(1)).path, vec![EntityId::Node(1)]);
    assert_eq!(assignment_of(&p, &net, EntityId::Node(5)).path, vec![EntityId::Node(5)]);
    assert_eq!(
        assignment_of(&p, &net, EntityId::Node(2)).path,
        vec![EntityId::Node(1), EntityId::Way(20), EntityId::Node(2)]
    );
}

#[test]
fn missing_seed_fails_fast_naming_the_label() {
    let net = line_of_five();
    let seeds = vec![seed("X", EntityId::Node(1)), seed("Z", EntityId::Node(99))];
    match partition(&net, &seeds) {
        Err(e) => {
            assert_eq!(e.label.as_str(), "Z");
            assert_eq!(e.id, EntityId::Node(99));
        }
        Ok(_) => panic!("expected the unresolved seed to fail the run"),
    }
}

fn partitions_equal(p1: &Partition, p2: &Partition) -> bool {
    if p1.regions.len() != p2.regions.len() || p1.boundaries.len() != p2.boundaries.len() {
        return false;
    }
    for (a, b) in p1.regions.iter().zip(p2.regions.iter()) {
        match (a, b) {
            (None, None) => {}
            (Some(x), Some(y)) => {
                if x.label != y.label || x.path != y.path {
                    return false;
                }
            }
            _ => return false,
        }
    }
    for (x, y) in p1.boundaries.iter().zip(p2.boundaries.iter()) {
        if x.a != y.a || x.b != y.b || x.path != y.path {
            return false;
        }
    }
    true
}

#[test]
fn rerunning_gives_identical_results() {
    let net = line_of_five();
    let seeds = vec![seed("X", EntityId::Node(1)), seed("Y", EntityId::Node(5))];
    let p1 = partition(&net, &seeds).unwrap();
    let p2 = partition(&net, &seeds).unwrap();
    assert!(partitions_equal(&p1, &p2));
}

#[test]
fn boundary_keys_are_canonical_and_first_discovery_wins() {
    // Two regions joined by two parallel crossings: only the first is kept,
    // under the lexicographically ordered key, even though the second seed's
    // label comes first in the seed list.
    let net = Network::from_entities(
        EdgeModel::NodeCentric,
        vec![
            rail_node(1),
            rail_node(2),
            rail_way(30, vec![1, 2]),
            rail_way(31, vec![1, 2]),
        ],
    );
    let seeds = vec![seed("Q", EntityId::Node(2)), seed("P", EntityId::Node(1))];
    let p = partition(&net, &seeds).unwrap();
    assert_eq!(p.boundaries.len(), 1);
    let b = &p.boundaries[0];
    assert!(b.a.as_str() < b.b.as_str());
    assert_eq!(b.a.as_str(), "P");
    assert_eq!(b.b.as_str(), "Q");
    // First discovery: while visiting Q's seed (queued first), the crossing
    // over way 30 is met before the one over way 31; the path runs from P's
    // seed to Q's.
    assert_eq!(b.path, vec![EntityId::Node(1), EntityId::Node(2)]);
}

#[test]
fn unreachable_vertices_stay_unassigned() {
    let net = Network::from_entities(
        EdgeModel::NodeCentric,
        vec![
            rail_node(1),
            rail_node(2),
            rail_node(3),
            rail_way(20, vec![1, 2]),
            rail_way(21, vec![3]),
        ],
    );
    let seeds = vec![seed("X", EntityId::Node(1))];
    let p = partition(&net, &seeds).unwrap();
    let v3 = net.lookup(EntityId::Node(3)).unwrap();
    assert!(p.regions[v3].is_none());
    let v2 = net.lookup(EntityId::Node(2)).unwrap();
    assert_eq!(p.regions[v2].clone().unwrap().label.as_str(), "X");
    assert_eq!(p.boundaries.len(), 0);
}

#[test]
fn empty_seed_list_assigns_nothing() {
    let net = line_of_five();
    let p = partition(&net, &vec![]).unwrap();
    assert!(p.regions.iter().all(|r| r.is_none()));
    assert!(p.boundaries.is_empty());
}
