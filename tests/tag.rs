use colorful_map::error::Error;
use colorful_map::layer::{Layer, TileLayer, DEFAULT_EXTENT};
use colorful_map::tag::{get_tag_map, TileValue, Value};

fn empty_value() -> TileValue {
    TileValue {
        string_value: None,
        float_value: None,
        double_value: None,
        int_value: None,
        uint_value: None,
        sint_value: None,
        bool_value: None,
    }
}

fn string_value(s: &str) -> TileValue {
    TileValue { string_value: Some(s.to_string()), ..empty_value() }
}

fn int_value(x: i64) -> TileValue {
    TileValue { int_value: Some(x), ..empty_value() }
}

#[test]
fn each_payload_maps_to_its_variant() {
    let v = Value::from_tile_value(&string_value("water")).unwrap();
    assert_eq!(v.str(), Some("water"));
    let v = Value::from_tile_value(&TileValue { float_value: Some(1.5f32.to_bits()), ..empty_value() }).unwrap();
    assert!(matches!(v, Value::Float32(b) if b == 1.5f32.to_bits()));
    let v = Value::from_tile_value(&TileValue { double_value: Some(2.5f64.to_bits()), ..empty_value() }).unwrap();
    assert!(matches!(v, Value::Float64(b) if b == 2.5f64.to_bits()));
    let v = Value::from_tile_value(&int_value(-7)).unwrap();
    assert_eq!(v.i64(), Some(-7));
    let v = Value::from_tile_value(&TileValue { uint_value: Some(9), ..empty_value() }).unwrap();
    assert!(matches!(v, Value::Uint64(9)));
    let v = Value::from_tile_value(&TileValue { sint_value: Some(-3), ..empty_value() }).unwrap();
    assert!(matches!(v, Value::Int64(-3)));
    let v = Value::from_tile_value(&TileValue { bool_value: Some(true), ..empty_value() }).unwrap();
    assert!(matches!(v, Value::Bool(true)));
}

#[test]
fn value_without_payload_is_refused() {
    assert!(matches!(Value::from_tile_value(&empty_value()), Err(Error::EmptyValue)));
}

#[test]
fn first_payload_in_field_order_wins() {
    let raw = TileValue { string_value: Some("s".to_string()), int_value: Some(4), ..empty_value() };
    assert_eq!(Value::from_tile_value(&raw).unwrap().str(), Some("s"));
}

#[test]
fn accessors_convert_as_documented() {
    assert_eq!(Value::Uint64(u64::MAX).i64(), Some(-1));
    assert_eq!(Value::Int64(70000).u16(), Some(4464));
    assert_eq!(Value::Uint64(17).u16(), Some(17));
    assert_eq!(Value::Bool(true).u16(), None);
    assert_eq!(Value::String("x".to_string()).i64(), None);
    assert_eq!(Value::Int64(1).str(), None);
    assert!(Value::Bool(true).yes());
    assert!(!Value::Bool(false).yes());
    assert!(Value::Int64(-2).yes());
    assert!(Value::Uint64(1).yes());
    assert!(!Value::Int64(0).yes());
    assert!(!Value::String("yes".to_string()).yes());
    assert!(!Value::Float32(1.0f32.to_bits()).yes());
}

#[test]
fn odd_tag_list_is_refused() {
    let keys = vec!["kind".to_string()];
    let values = vec![string_value("water")];
    assert!(matches!(get_tag_map(&keys, &values, &[0, 0, 0]), Err(Error::OddTagList)));
}

#[test]
fn index_beyond_dictionary_is_refused() {
    let keys = vec!["kind".to_string()];
    let values = vec![string_value("water")];
    assert!(matches!(get_tag_map(&keys, &values, &[1, 0]), Err(Error::TagIndexOutOfRange)));
    assert!(matches!(get_tag_map(&keys, &values, &[0, 1]), Err(Error::TagIndexOutOfRange)));
}

#[test]
fn empty_dictionary_value_is_refused() {
    let keys = vec!["kind".to_string()];
    let values = vec![empty_value()];
    assert!(matches!(get_tag_map(&keys, &values, &[0, 0]), Err(Error::EmptyValue)));
}

#[test]
fn tags_resolve_and_later_keys_win() {
    let keys = vec!["kind".to_string(), "sort_rank".to_string()];
    let values = vec![string_value("water"), int_value(12), string_value("lake")];
    let map = get_tag_map(&keys, &values, &[0, 0, 1, 1, 0, 2]).unwrap();
    assert_eq!(map.get("kind").unwrap().str(), Some("lake"));
    assert_eq!(map.get("sort_rank").unwrap().i64(), Some(12));
    assert!(map.get("name").is_none());
    let empty = get_tag_map(&keys, &values, &[]).unwrap();
    assert!(empty.get("kind").is_none());
}

#[test]
fn layer_decodes_with_its_dictionaries() {
    let raw = TileLayer {
        name: "water".to_string(),
        extent: DEFAULT_EXTENT,
        keys: vec!["kind".to_string()],
        values: vec![string_value("ocean")],
        features: vec![],
    };
    let layer = Layer::new(&raw);
    assert_eq!(layer.get_tags(&[0, 0]).unwrap().get("kind").unwrap().str(), Some("ocean"));
    assert!(matches!(layer.get_tags(&[0]), Err(Error::OddTagList)));
    assert!(matches!(layer.get_tags(&[0, 3]), Err(Error::TagIndexOutOfRange)));
}
