use influent::measurement::Measurement;
use influent::measurement::Value;
use influent::ordmap::OrdMap;

#[test]
fn construct_yields_empty_record() {
    let m = Measurement::new("key");
    assert_eq!(m.key.as_str(), "key");
    assert!(m.timestamp.is_none());
    assert_eq!(m.fields.len(), 0);
    assert_eq!(m.tags.len(), 0);
}

#[test]
fn construct_accepts_empty_key() {
    let m = Measurement::new("");
    assert_eq!(m.key.as_str(), "");
    assert!(m.timestamp.is_none());
    assert_eq!(m.fields.len(), 0);
    assert_eq!(m.tags.len(), 0);
}

#[test]
fn add_field_stores_each_variant() {
    let mut m = Measurement::new("k");
    m.add_field("s", Value::Text("hello".to_owned()));
    m.add_field("f", Value::Float(2.25f64.to_bits()));
    m.add_field("i", Value::Integer(-7));
    m.add_field("b", Value::Boolean(false));
    assert_eq!(m.fields.len(), 4);
    assert!(matches!(m.fields.get("s"), Some(Value::Text(s)) if s.as_str() == "hello"));
    assert!(matches!(m.fields.get("f"), Some(Value::Float(bits)) if f64::from_bits(*bits) == 2.25));
    assert!(matches!(m.fields.get("i"), Some(Value::Integer(-7))));
    assert!(matches!(m.fields.get("b"), Some(Value::Boolean(false))));
}

#[test]
fn last_write_wins_fields() {
    let mut m = Measurement::new("k");
    m.add_field("a", Value::Integer(1));
    m.add_field("b", Value::Integer(2));
    m.add_field("a", Value::Integer(3));
    m.add_field("a", Value::Integer(4));
    assert_eq!(m.fields.len(), 2);
    assert!(matches!(m.fields.get("a"), Some(Value::Integer(4))));
    assert!(matches!(m.fields.get("b"), Some(Value::Integer(2))));
}

#[test]
fn last_write_wins_tags() {
    let mut m = Measurement::new("k");
    m.add_tag("host", "one");
    m.add_tag("region", "west");
    m.add_tag("host", "two");
    assert_eq!(m.tags.len(), 2);
    assert_eq!(m.tags.get("host").unwrap().as_str(), "two");
    assert_eq!(m.tags.get("region").unwrap().as_str(), "west");
}

#[test]
fn field_and_tag_namespaces_are_independent() {
    let mut m = Measurement::new("k");
    m.add_field("x", Value::Integer(1));
    m.add_tag("x", "tagged");
    assert_eq!(m.fields.len(), 1);
    assert_eq!(m.tags.len(), 1);
    assert!(matches!(m.fields.get("x"), Some(Value::Integer(1))));
    assert_eq!(m.tags.get("x").unwrap().as_str(), "tagged");
    m.add_tag("y", "other");
    assert!(matches!(m.fields.get("x"), Some(Value::Integer(1))));
    m.add_field("y", Value::Boolean(true));
    assert_eq!(m.tags.get("y").unwrap().as_str(), "other");
}

#[test]
fn set_timestamp_overwrites_and_is_idempotent() {
    let mut m = Measurement::new("k");
    m.set_timestamp(10);
    assert_eq!(m.timestamp, Some(10));
    m.set_timestamp(99);
    assert_eq!(m.timestamp, Some(99));
    m.set_timestamp(99);
    assert_eq!(m.timestamp, Some(99));
    assert_eq!(m.key.as_str(), "k");
    assert_eq!(m.fields.len(), 0);
    assert_eq!(m.tags.len(), 0);
}

#[test]
fn iteration_ascends_lexicographically() {
    let mut m = Measurement::new("k");
    m.add_field("beta", Value::Integer(2));
    m.add_field("alpha", Value::Integer(1));
    m.add_field("gamma", Value::Integer(3));
    assert_eq!(m.fields.key_at(0).as_str(), "alpha");
    assert_eq!(m.fields.key_at(1).as_str(), "beta");
    assert_eq!(m.fields.key_at(2).as_str(), "gamma");
    assert!(matches!(m.fields.value_at(0), Value::Integer(1)));
    assert!(matches!(m.fields.value_at(1), Value::Integer(2)));
    assert!(matches!(m.fields.value_at(2), Value::Integer(3)));
    m.add_tag("z", "3");
    m.add_tag("", "1");
    m.add_tag("a", "2");
    assert_eq!(m.tags.key_at(0).as_str(), "");
    assert_eq!(m.tags.key_at(1).as_str(), "a");
    assert_eq!(m.tags.key_at(2).as_str(), "z");
}

#[test]
fn iteration_orders_prefixes_and_code_points() {
    let mut om: OrdMap<Value> = OrdMap::new();
    om.insert("ab".to_owned(), Value::Integer(0));
    om.insert("b".to_owned(), Value::Integer(1));
    om.insert("a".to_owned(), Value::Integer(2));
    om.insert("z".to_owned(), Value::Integer(3));
    om.insert("\u{e9}".to_owned(), Value::Integer(4));
    assert_eq!(om.len(), 5);
    assert_eq!(om.key_at(0).as_str(), "a");
    assert_eq!(om.key_at(1).as_str(), "ab");
    assert_eq!(om.key_at(2).as_str(), "b");
    assert_eq!(om.key_at(3).as_str(), "z");
    assert_eq!(om.key_at(4).as_str(), "\u{e9}");
}

#[test]
fn overwrite_keeps_position_everywhere() {
    let mut om: OrdMap<Value> = OrdMap::new();
    om.insert("a".to_owned(), Value::Integer(1));
    om.insert("m".to_owned(), Value::Integer(2));
    om.insert("z".to_owned(), Value::Integer(3));
    om.insert("a".to_owned(), Value::Integer(10));
    om.insert("m".to_owned(), Value::Integer(20));
    om.insert("z".to_owned(), Value::Integer(30));
    assert_eq!(om.len(), 3);
    assert!(matches!(om.value_at(0), Value::Integer(10)));
    assert!(matches!(om.value_at(1), Value::Integer(20)));
    assert!(matches!(om.value_at(2), Value::Integer(30)));
}

#[test]
fn get_absent_name_is_none() {
    let mut m = Measurement::new("k");
    assert!(m.fields.get("a").is_none());
    m.add_field("a", Value::Integer(1));
    assert!(m.fields.get("b").is_none());
    assert!(m.tags.get("a").is_none());
}

#[test]
fn empty_field_name_is_accepted() {
    let mut m = Measurement::new("k");
    m.add_field("", Value::Integer(1));
    m.add_field("", Value::Integer(2));
    assert_eq!(m.fields.len(), 1);
    assert!(matches!(m.fields.get(""), Some(Value::Integer(2))));
}

#[test]
fn scenario_cpu_record() {
    let mut m = Measurement::new("cpu");
    m.add_field("usage", Value::Float(64.5f64.to_bits()));
    m.add_tag("host", "server01");
    m.set_timestamp(1440924047);
    assert_eq!(m.key.as_str(), "cpu");
    assert_eq!(m.timestamp, Some(1440924047));
    assert_eq!(m.fields.len(), 1);
    assert_eq!(m.fields.key_at(0).as_str(), "usage");
    match m.fields.value_at(0) {
        Value::Float(bits) => assert_eq!(f64::from_bits(*bits), 64.5),
        _ => panic!("the field holds the wrong variant"),
    }
    assert_eq!(m.tags.len(), 1);
    assert_eq!(m.tags.key_at(0).as_str(), "host");
    assert_eq!(m.tags.value_at(0).as_str(), "server01");
}

#[test]
fn scenario_second_write_replaces_variant() {
    let mut m = Measurement::new("k");
    m.add_field("a", Value::Integer(1));
    m.add_field("a", Value::Boolean(true));
    assert_eq!(m.fields.len(), 1);
    assert!(matches!(m.fields.get("a"), Some(Value::Boolean(true))));
}
