use railgraph::entity::{Entity, EntityId, NodeData, RelMember, RelationData, Tag, WayData};
use railgraph::graph::{EdgeLabel, EdgeModel, Network};

fn tag(key: &str, value: &str) -> Tag {
    Tag { key: key.to_string(), value: value.to_string() }
}

fn rail_node(id: i64, lat: i32, lon: i32) -> Entity {
    Entity::Node(NodeData {
        id,
        tags: vec![tag("railway", "rail")],
        decimicro_lat: lat,
        decimicro_lon: lon,
    })
}

fn rail_way(id: i64, nodes: Vec<i64>) -> Entity {
    Entity::Way(WayData { id, tags: vec![tag("railway", "rail")], nodes })
}

#[test]
fn index_is_idempotent() {
    let mut net = Network::new(EdgeModel::NodeCentric);
    let a = net.index(EntityId::Node(5));
    let b = net.index(EntityId::Node(5));
    let c = net.index(EntityId::Node(6));
    assert_eq!(a, b);
    assert_ne!(a, c);
    assert_eq!(net.index.ids.len(), 2);
}

#[test]
fn kinds_are_distinct_namespaces() {
    let mut net = Network::new(EdgeModel::NodeCentric);
    let a = net.index(EntityId::Node(7));
    let b = net.index(EntityId::Way(7));
    let c = net.index(EntityId::Relation(7));
    assert_ne!(a, b);
    assert_ne!(b, c);
    assert_eq!(net.index.ids.len(), 3);
}

#[test]
fn node_centric_way_chains_consecutive_nodes() {
    let net = Network::from_entities(
        EdgeModel::NodeCentric,
        vec![rail_node(1, 0, 0), rail_node(2, 0, 0), rail_node(3, 0, 0), rail_way(20, vec![1, 2, 3])],
    );
    assert_eq!(net.index.ids.len(), 3);
    assert_eq!(net.edges.len(), 2);
    for e in &net.edges {
        match &e.label {
            EdgeLabel::Via(EntityId::Way(20)) => {}
            other => panic!("unexpected label {:?}", other),
        }
    }
    // The way itself gets no vertex but is stored.
    assert!(net.lookup(EntityId::Way(20)).is_none());
    assert!(net.store_get(EntityId::Way(20)).is_some());
}

#[test]
fn entity_centric_way_fans_out_from_way_vertex() {
    let net = Network::from_entities(
        EdgeModel::EntityCentric,
        vec![rail_node(1, 0, 0), rail_node(2, 0, 0), rail_node(3, 0, 0), rail_way(10, vec![1, 2, 3])],
    );
    // Three node vertices plus the way vertex.
    assert_eq!(net.index.ids.len(), 4);
    assert_eq!(net.edges.len(), 3);
    let wv = net.lookup(EntityId::Way(10)).unwrap();
    for e in &net.edges {
        assert!(e.a == wv);
        assert!(matches!(e.label, EdgeLabel::Plain));
    }
}

#[test]
fn admission_drops_untagged_entities() {
    let plain_node = Entity::Node(NodeData {
        id: 9,
        tags: vec![tag("name", "somewhere")],
        decimicro_lat: 0,
        decimicro_lon: 0,
    });
    let net = Network::from_entities(EdgeModel::NodeCentric, vec![plain_node.clone()]);
    assert_eq!(net.index.ids.len(), 0);
    assert!(net.store_get(EntityId::Node(9)).is_none());

    let net2 = Network::from_entities(EdgeModel::EntityCentric, vec![plain_node]);
    assert_eq!(net2.index.ids.len(), 0);
}

#[test]
fn route_train_is_relevant_entity_centric_only() {
    let route = Entity::Relation(RelationData {
        id: 40,
        tags: vec![tag("route", "train")],
        members: vec![],
    });
    let net = Network::from_entities(EdgeModel::EntityCentric, vec![route.clone()]);
    assert!(net.lookup(EntityId::Relation(40)).is_some());

    // Node-centric relations are admitted only as stop areas.
    let net2 = Network::from_entities(EdgeModel::NodeCentric, vec![route]);
    assert!(net2.lookup(EntityId::Relation(40)).is_none());
}

#[test]
fn stop_area_connects_member_nodes_pairwise() {
    let rel = Entity::Relation(RelationData {
        id: 50,
        tags: vec![tag("public_transport", "stop_area")],
        members: vec![
            RelMember { member: EntityId::Node(1), role: "platform".to_string() },
            RelMember { member: EntityId::Node(2), role: "stop".to_string() },
            RelMember { member: EntityId::Node(3), role: "stop".to_string() },
            RelMember { member: EntityId::Way(60), role: "platform".to_string() },
        ],
    });
    let net = Network::from_entities(EdgeModel::NodeCentric, vec![rel]);
    // Only the three member nodes get vertices; pairs (1,2), (1,3), (2,3).
    assert_eq!(net.index.ids.len(), 3);
    assert_eq!(net.edges.len(), 3);
    for e in &net.edges {
        assert!(matches!(e.label, EdgeLabel::Via(EntityId::Relation(50))));
    }
}

#[test]
fn entity_centric_relation_edges_carry_roles() {
    let rel = Entity::Relation(RelationData {
        id: 70,
        tags: vec![tag("railway", "station")],
        members: vec![
            RelMember { member: EntityId::Node(1), role: "stop".to_string() },
            RelMember { member: EntityId::Way(2), role: "platform".to_string() },
        ],
    });
    let net = Network::from_entities(EdgeModel::EntityCentric, vec![rel]);
    assert_eq!(net.edges.len(), 2);
    match &net.edges[0].label {
        EdgeLabel::Role(r) => assert_eq!(r.as_str(), "stop"),
        other => panic!("unexpected label {:?}", other),
    }
    match &net.edges[1].label {
        EdgeLabel::Role(r) => assert_eq!(r.as_str(), "platform"),
        other => panic!("unexpected label {:?}", other),
    }
}

#[test]
fn dangling_vertices_have_no_stored_entity() {
    // The way references nodes that were never read: they still get
    // vertices, to keep connectivity, but lookups return absent.
    let net = Network::from_entities(EdgeModel::NodeCentric, vec![rail_way(20, vec![1, 2])]);
    assert_eq!(net.index.ids.len(), 2);
    assert_eq!(net.edges.len(), 1);
    let v = net.lookup(EntityId::Node(1)).unwrap();
    assert_eq!(net.id_by_idx(v), Some(EntityId::Node(1)));
    assert!(net.obj_by_idx(v).is_none());
}

#[test]
fn store_replaces_entity_with_same_id() {
    let first = Entity::Node(NodeData {
        id: 3,
        tags: vec![tag("railway", "halt")],
        decimicro_lat: 1,
        decimicro_lon: 1,
    });
    let second = Entity::Node(NodeData {
        id: 3,
        tags: vec![tag("railway", "station")],
        decimicro_lat: 2,
        decimicro_lon: 2,
    });
    let net = Network::from_entities(EdgeModel::NodeCentric, vec![first, second]);
    assert_eq!(net.index.ids.len(), 1);
    assert_eq!(net.store.entities.len(), 1);
    match net.store_get(EntityId::Node(3)).unwrap() {
        Entity::Node(n) => assert_eq!(n.decimicro_lat, 2),
        other => panic!("unexpected entity {:?}", other),
    }
}

#[test]
fn station_codes_resolve_to_nodes() {
    let station = Entity::Node(NodeData {
        id: 11,
        tags: vec![tag("railway", "station"), tag("ref:crs", "HYS")],
        decimicro_lat: 0,
        decimicro_lon: 0,
    });
    let net = Network::from_entities(EdgeModel::NodeCentric, vec![station]);
    assert_eq!(net.code_get("HYS"), Some(11));
    assert_eq!(net.code_get("WWI"), None);
}
