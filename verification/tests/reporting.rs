use railgraph::entity::{Entity, EntityId, NodeData, RelMember, RelationData, Tag, WayData};
use railgraph::graph::{EdgeModel, Network};
use railgraph::partition::seeds_from_codes;
use railgraph::report::{tag_value_counts, EntityKind};
use railgraph::traverse::member_tree;

fn tag(key: &str, value: &str) -> Tag {
    Tag { key: key.to_string(), value: value.to_string() }
}

fn node_with(id: i64, tags: Vec<Tag>) -> Entity {
    Entity::Node(NodeData { id, tags, decimicro_lat: 0, decimicro_lon: 0 })
}

#[test]
fn railway_values_counted_per_kind_sorted() {
    let entities = vec![
        node_with(1, vec![tag("railway", "station")]),
        node_with(2, vec![tag("railway", "halt")]),
        node_with(3, vec![tag("railway", "station")]),
        node_with(4, vec![tag("name", "plain")]),
        Entity::Way(WayData { id: 5, tags: vec![tag("railway", "rail")], nodes: vec![] }),
    ];
    let rows = tag_value_counts(&entities, EntityKind::Node, "railway");
    assert_eq!(rows.len(), 2);
    assert_eq!(rows[0].value.as_str(), "halt");
    assert_eq!(rows[0].count, 1);
    assert_eq!(rows[1].value.as_str(), "station");
    assert_eq!(rows[1].count, 2);

    let way_rows = tag_value_counts(&entities, EntityKind::Way, "railway");
    assert_eq!(way_rows.len(), 1);
    assert_eq!(way_rows[0].value.as_str(), "rail");
    assert_eq!(way_rows[0].count, 1);

    let rel_rows = tag_value_counts(&entities, EntityKind::Relation, "railway");
    assert!(rel_rows.is_empty());
}

#[test]
fn member_tree_lists_preorder_with_depths() {
    // relation 100 -> [way 10, node 1]; way 10 -> [node 1, node 2];
    // node 2 is absent from the store and contributes nothing.
    let entities = vec![
        node_with(1, vec![tag("railway", "stop")]),
        Entity::Way(WayData { id: 10, tags: vec![tag("railway", "rail")], nodes: vec![1, 2] }),
        Entity::Relation(RelationData {
            id: 100,
            tags: vec![tag("route", "train")],
            members: vec![
                RelMember { member: EntityId::Way(10), role: "".to_string() },
                RelMember { member: EntityId::Node(1), role: "stop".to_string() },
            ],
        }),
    ];
    let net = Network::from_entities(EdgeModel::EntityCentric, entities);
    let listing = member_tree(&net.store, EntityId::Relation(100), 10);
    let expected = vec![
        (0usize, EntityId::Relation(100)),
        (1, EntityId::Way(10)),
        (2, EntityId::Node(1)),
        (1, EntityId::Node(1)),
    ];
    assert_eq!(listing, expected);
}

#[test]
fn member_tree_depth_limit_prunes_and_guards_cycles() {
    // Two relations referencing each other: the depth bound stops the walk.
    let entities = vec![
        Entity::Relation(RelationData {
            id: 1,
            tags: vec![tag("route", "train")],
            members: vec![RelMember { member: EntityId::Relation(2), role: "".to_string() }],
        }),
        Entity::Relation(RelationData {
            id: 2,
            tags: vec![tag("route", "train")],
            members: vec![RelMember { member: EntityId::Relation(1), role: "".to_string() }],
        }),
    ];
    let net = Network::from_entities(EdgeModel::EntityCentric, entities);
    let listing = member_tree(&net.store, EntityId::Relation(1), 4);
    assert_eq!(listing.len(), 4);
    assert_eq!(listing[0], (0, EntityId::Relation(1)));
    assert_eq!(listing[3], (3, EntityId::Relation(2)));

    let nothing = member_tree(&net.store, EntityId::Relation(1), 0);
    assert!(nothing.is_empty());
}

#[test]
fn seeds_from_codes_come_out_sorted_by_label() {
    let entities = vec![
        node_with(11, vec![tag("railway", "station"), tag("ref:crs", "WWI")]),
        node_with(12, vec![tag("railway", "station"), tag("ref:crs", "EDN")]),
        node_with(13, vec![tag("railway", "station"), tag("ref:crs", "HYS")]),
    ];
    let net = Network::from_entities(EdgeModel::NodeCentric, entities);
    let seeds = seeds_from_codes(&net);
    let labels: Vec<&str> = seeds.iter().map(|s| s.label.as_str()).collect();
    assert_eq!(labels, vec!["EDN", "HYS", "WWI"]);
    assert_eq!(seeds[0].id, EntityId::Node(12));
    assert_eq!(seeds[1].id, EntityId::Node(13));
    assert_eq!(seeds[2].id, EntityId::Node(11));
}
