use railgraph::entity::{has_key, key_is, tag_value, Tag};
use railgraph::strutil::{str_eq, str_le, str_lt};

fn tag(key: &str, value: &str) -> Tag {
    Tag { key: key.to_string(), value: value.to_string() }
}

#[test]
fn lexicographic_order_on_labels() {
    assert!(str_lt("ABC", "ABD"));
    assert!(str_lt("AB", "ABC"));
    assert!(str_lt("", "A"));
    assert!(!str_lt("ABD", "ABC"));
    assert!(!str_lt("ABC", "ABC"));
    assert!(!str_lt("B", "AZ"));
    assert!(str_le("ABC", "ABC"));
    assert!(str_le("HYS", "WWI"));
}

#[test]
fn string_equality_is_by_characters() {
    assert!(str_eq("stop_area", "stop_area"));
    assert!(!str_eq("stop_area", "stop"));
    assert!(!str_eq("", "a"));
    assert!(str_eq("", ""));
}

#[test]
fn tag_lookup_takes_the_first_match() {
    let tags = vec![tag("railway", "rail"), tag("railway", "halt"), tag("route", "train")];
    assert_eq!(tag_value(&tags, "railway").unwrap().as_str(), "rail");
    assert!(tag_value(&tags, "public_transport").is_none());
    assert!(has_key(&tags, "route"));
    assert!(!has_key(&tags, "ref:crs"));
    assert!(key_is(&tags, "route", "train"));
    assert!(!key_is(&tags, "route", "bus"));
    assert!(!key_is(&tags, "absent", "train"));
}
