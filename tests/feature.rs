use colorful_map::error::Error;
use colorful_map::feature::{Feature, GeomType, TileFeature, DEFAULT_SORT_RANK};
use colorful_map::storage::Storage;
use colorful_map::tag::{TagMap, Value};
use colorful_map::text::{decimal_text, utf8_len};

fn zig(v: i32) -> u32 {
    ((v << 1) ^ (v >> 31)) as u32
}

fn raw(geom_type: GeomType, geometry: Vec<u32>) -> TileFeature {
    TileFeature { id: None, tags: vec![], geom_type, geometry }
}

fn tags(pairs: Vec<(&str, Value)>) -> TagMap {
    let mut map = TagMap::new();
    for (k, v) in pairs {
        map.insert(k.to_string(), v);
    }
    map
}

/// The texts of the scaled coordinates, as a caller formats them.
fn coords(feature: &Feature, scale: f32) -> Vec<(String, String)> {
    feature
        .points()
        .iter()
        .map(|&(x, y)| (format!("{}", x as f32 * scale), format!("{}", y as f32 * scale)))
        .collect()
}

fn paint(feature: &Feature, scale: f32, rank: u16) -> (String, Result<(), Error>) {
    let mut storage = Storage::new();
    let c = coords(feature, scale);
    let result = {
        let mut r = storage.select(rank);
        feature.paint(&mut r, &c, "0")
    };
    (storage.finalize(), result)
}

#[test]
fn polygon_paints_scaled_closed_path() {
    let raw = raw(
        GeomType::Polygon,
        vec![(1 << 3) | 1, zig(16), zig(32), (1 << 3) | 2, zig(16), zig(0), (1 << 3) | 7],
    );
    let feature = Feature::new(&raw, tags(vec![("kind", Value::String("water".to_string()))]), "water");
    let (out, result) = paint(&feature, 256.0 / 4096.0, feature.sort_rank);
    assert_eq!(result, Ok(()));
    assert!(out.contains("kind-water"));
    assert!(out.contains("d=\"M 1 2 L 2 2 Z \""));
    assert_eq!(
        out,
        "<path class=\"layer-water kind-water min-zoom-0\" d=\"M 1 2 L 2 2 Z \"></path>\n"
    );
}

#[test]
fn line_string_refuses_close_path() {
    let raw = raw(
        GeomType::LineString,
        vec![(1 << 3) | 1, zig(1), zig(1), (1 << 3) | 2, zig(1), zig(0), (1 << 3) | 7],
    );
    let feature = Feature::new(&raw, tags(vec![("kind", Value::String("road".to_string()))]), "roads");
    let (out, result) = paint(&feature, 1.0, 0);
    assert_eq!(result, Err(Error::IllegalClosePath));
    assert_eq!(out, "<path class=\"layer-roads kind-road min-zoom-0\" d=\"M 1 1 L 2 1 ");
}

#[test]
fn line_string_paints_flags_and_id() {
    let raw = raw(GeomType::LineString, vec![(2 << 3) | 1, zig(4), zig(8), zig(-4), zig(0)]);
    let feature = Feature::new(
        &raw,
        tags(vec![
            ("kind", Value::String("path".to_string())),
            ("boundary", Value::Bool(true)),
            ("is_tunnel", Value::Int64(0)),
            ("is_bridge", Value::Uint64(1)),
            ("id", Value::Int64(-42)),
        ]),
        "roads",
    );
    let mut storage = Storage::new();
    let c = coords(&feature, 0.5);
    {
        let mut r = storage.select(feature.sort_rank);
        assert_eq!(feature.paint(&mut r, &c, "13"), Ok(()));
    }
    assert_eq!(
        storage.finalize(),
        "<path class=\"layer-roads kind-path boundary is_bridge min-zoom-13\" data-id=\"-42\" d=\"M 2 4 M 0 4 \"></path>\n"
    );
}

#[test]
fn missing_kind_is_refused_after_the_tag_opens() {
    let raw = raw(GeomType::Polygon, vec![(1 << 3) | 1, zig(1), zig(1)]);
    let feature = Feature::new(&raw, tags(vec![("kind", Value::Int64(3))]), "water");
    let (out, result) = paint(&feature, 1.0, 0);
    assert_eq!(result, Err(Error::MissingRequiredTag));
    assert_eq!(out, "<path");
}

#[test]
fn geometry_error_stops_painting() {
    let raw = raw(GeomType::Polygon, vec![(1 << 3) | 1, zig(1), zig(1), (1 << 3) | 2, zig(1)]);
    let feature = Feature::new(&raw, tags(vec![("kind", Value::String("water".to_string()))]), "w");
    let (out, result) = paint(&feature, 1.0, 0);
    assert_eq!(result, Err(Error::MalformedGeometry));
    assert_eq!(out, "<path class=\"layer-w kind-water min-zoom-0\" d=\"M 1 1 ");
}

#[test]
fn points_and_unknown_paint_nothing() {
    for geom_type in [GeomType::Point, GeomType::Unknown] {
        let raw = raw(geom_type, vec![(1 << 3) | 1, zig(1), zig(1)]);
        let feature = Feature::new(&raw, TagMap::new(), "labels");
        let (out, result) = paint(&feature, 1.0, 0);
        assert_eq!(result, Ok(()));
        assert_eq!(out, "");
    }
}

#[test]
fn sort_rank_comes_from_tags() {
    let raw = raw(GeomType::Point, vec![]);
    let feature = Feature::new(&raw, TagMap::new(), "l");
    assert_eq!(feature.sort_rank, DEFAULT_SORT_RANK);
    assert_eq!(feature.sort_rank, 500);
    let feature = Feature::new(&raw, tags(vec![("sort_rank", Value::Uint64(70000))]), "l");
    assert_eq!(feature.sort_rank, 4464);
    assert_eq!(feature.sort_rank(), 4464);
    let feature = Feature::new(&raw, tags(vec![("sort_rank", Value::String("1".to_string()))]), "l");
    assert_eq!(feature.sort_rank, 500);
}

#[test]
fn decimal_text_writes_integers() {
    assert_eq!(decimal_text(0), "0");
    assert_eq!(decimal_text(7996457), "7996457");
    assert_eq!(decimal_text(-10), "-10");
    assert_eq!(decimal_text(i64::MIN), "-9223372036854775808");
    assert_eq!(decimal_text(i64::MAX), "9223372036854775807");
}

#[test]
fn utf8_len_counts_bytes() {
    for c in ['a', '\u{7f}', '\u{80}', 'é', '\u{7ff}', '\u{800}', '€', '\u{ffff}', '\u{10000}', '😀'] {
        assert_eq!(utf8_len(c), c.len_utf8());
    }
}

#[test]
fn truncated_polygon_stops_with_an_error() {
    let raw = raw(GeomType::Polygon, vec![(2 << 3) | 1, zig(1), zig(1)]);
    let feature = Feature::new(&raw, tags(vec![("kind", Value::String("water".to_string()))]), "w");
    let (out, result) = paint(&feature, 1.0, 0);
    assert_eq!(result, Err(Error::MalformedGeometry));
    assert_eq!(out, "<path class=\"layer-w kind-water min-zoom-0\" d=\"M 1 1 ");
}
