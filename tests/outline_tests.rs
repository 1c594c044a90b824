use las_poly::components::components;
use las_poly::geometry::{bounds_ring, convex_hull, GridPoint};
use las_poly::las_feature_collection::{Geometry, LasOutlineFeatureCollection, OutlineFeature};
use las_poly::outline::{format_version, outline_feature, TileProperties};
use las_poly::properties::{insert_unique_value, Property, PropertyValue, Scalar};
use las_poly::text::{cut_before, push_decimal, strip_nul_str, trim_str};
use las_poly::ProcessConfig;

fn pt(x: f64, y: f64) -> GridPoint {
    ((x * 1e7).round() as i64, (y * 1e7).round() as i64)
}

fn square(x: f64, y: f64, side: f64) -> Vec<GridPoint> {
    vec![pt(x, y), pt(x + side, y), pt(x + side, y + side), pt(x, y + side), pt(x, y)]
}

fn tile(file: &str, folder: &str, points: u64) -> TileProperties {
    TileProperties {
        filename: file.to_string(),
        folder_path: Some(folder.to_string()),
        number_of_points: points,
        date: Some("2023-08-01".to_string()),
        file_source_id: 0,
        generating_software: "PDAL".to_string(),
        version: format_version(1, 4),
        system_identifier: "LIDAR".to_string(),
    }
}

fn get<'a>(props: &'a [Property], key: &str) -> Option<&'a PropertyValue> {
    props.iter().find(|p| p.key == key).map(|p| &p.value)
}

fn ring(f: &OutlineFeature) -> &Vec<GridPoint> {
    match &f.geometry {
        Some(Geometry::Polygon(r)) => r,
        _ => panic!("Expected a Polygon"),
    }
}

fn config(group_by_folder: bool, merge_tiled: bool, merge_if_overlap: bool) -> ProcessConfig {
    ProcessConfig {
        folder_path: "tests/data".to_string(),
        use_detailed_outline: false,
        group_by_folder,
        merge_tiled,
        merge_if_overlap,
        recurse: false,
        guess_crs: false,
        output_file: None,
    }
}

#[test]
fn hull_of_single_point_is_degenerate() {
    let hull = convex_hull(&vec![pt(3.0, 4.0)]);
    assert!(hull.len() < 4);
}

#[test]
fn hull_of_unit_square_is_closed_square() {
    let hull = convex_hull(&vec![pt(0.0, 0.0), pt(1.0, 0.0), pt(1.0, 1.0), pt(0.0, 1.0)]);
    assert_eq!(hull.len(), 5);
    assert_eq!(hull[0], hull[4]);
    let mut corners: Vec<GridPoint> = hull[..4].to_vec();
    corners.sort();
    assert_eq!(corners, vec![pt(0.0, 0.0), pt(0.0, 1.0), pt(1.0, 0.0), pt(1.0, 1.0)]);
    let area2: i128 = (0..4)
        .map(|i| {
            let (a, b) = (hull[i], hull[i + 1]);
            a.0 as i128 * b.1 as i128 - b.0 as i128 * a.1 as i128
        })
        .sum();
    assert_eq!(area2.abs(), 2 * 10_000_000i128 * 10_000_000i128);
}

#[test]
fn hull_drops_inner_points() {
    let hull = convex_hull(&vec![pt(0.0, 0.0), pt(2.0, 0.0), pt(1.0, 1.0), pt(2.0, 2.0), pt(0.0, 2.0)]);
    assert_eq!(hull.len(), 5);
    assert!(!hull.contains(&pt(1.0, 1.0)));
}

#[test]
fn hull_of_empty_set_is_empty() {
    assert!(convex_hull(&Vec::new()).is_empty());
}

#[test]
fn bounds_ring_corners() {
    let r = bounds_ring((1, 2), (3, 4));
    assert_eq!(r, vec![(1, 2), (3, 2), (3, 4), (1, 4), (1, 2)]);
}

#[test]
fn polygons_sharing_one_vertex_join() {
    let mut collection = LasOutlineFeatureCollection::new();
    collection.add_feature(outline_feature(square(0.0, 0.0, 1.0), &tile("a.las", "d", 1)));
    collection.add_feature(outline_feature(square(1.0, 1.0, 1.0), &tile("b.las", "d", 1)));
    collection.merge_geometries(true, false);
    assert_eq!(collection.features().len(), 1);
    assert_eq!(get(&collection.features()[0].properties, "number_of_features"), Some(&PropertyValue::Number(2)));
}

#[test]
fn separate_polygons_stay_apart_with_overlap_merge() {
    let mut collection = LasOutlineFeatureCollection::new();
    collection.add_feature(outline_feature(square(0.0, 0.0, 1.0), &tile("a.las", "d", 1)));
    collection.add_feature(outline_feature(square(5.0, 5.0, 1.0), &tile("b.las", "d", 1)));
    collection.merge_geometries(true, true);
    assert_eq!(collection.features().len(), 2);
}

#[test]
fn point_counts_add_up() {
    let mut collection = LasOutlineFeatureCollection::new();
    collection.add_feature(outline_feature(square(0.0, 0.0, 1.0), &tile("a.las", "d", 10)));
    collection.add_feature(outline_feature(square(5.0, 5.0, 1.0), &tile("b.las", "d", 15)));
    collection.merge_geometries(false, false);
    assert_eq!(collection.features().len(), 1);
    let props = &collection.features()[0].properties;
    assert_eq!(get(props, "number_of_points"), Some(&PropertyValue::Number(25)));
    assert_eq!(get(props, "number_of_features"), Some(&PropertyValue::Number(2)));
    assert_eq!(get(props, "SourceFileDir"), Some(&PropertyValue::Text("d".to_string())));
    assert_eq!(get(props, "SourceFile"), None);
    assert_eq!(
        get(props, "generating_software"),
        Some(&PropertyValue::List(vec![Scalar::Text("PDAL".to_string())]))
    );
    assert_eq!(get(props, "file_source_id"), None);
}

#[test]
fn folder_end_to_end() {
    let tiles = [
        (square(0.0, 0.0, 1.0), tile("tests/data/a.las", "tests/data", 3)),
        (square(5.0, 5.0, 1.0), tile("tests/data/b.las", "tests/data", 4)),
    ];
    let mut ungrouped = LasOutlineFeatureCollection::new();
    for (r, t) in &tiles {
        ungrouped.add_feature(outline_feature(r.clone(), t));
    }
    config(false, false, false).apply_merge_policy(&mut ungrouped);
    assert_eq!(ungrouped.features().len(), 2);
    assert_eq!(get(&ungrouped.features()[0].properties, "SourceFile"), Some(&PropertyValue::Text("tests/data/a.las".to_string())));
    assert_eq!(get(&ungrouped.features()[1].properties, "SourceFile"), Some(&PropertyValue::Text("tests/data/b.las".to_string())));

    let mut grouped = LasOutlineFeatureCollection::new();
    for (r, t) in &tiles {
        grouped.add_feature(outline_feature(r.clone(), t));
    }
    config(true, false, false).apply_merge_policy(&mut grouped);
    assert_eq!(grouped.features().len(), 1);
    let mut all: Vec<GridPoint> = tiles[0].0.clone();
    all.extend(tiles[1].0.iter().cloned());
    let mut expected = convex_hull(&all);
    let mut got = ring(&grouped.features()[0]).clone();
    assert_eq!(got.len(), expected.len());
    expected.sort();
    got.sort();
    assert_eq!(got, expected);
}

#[test]
fn folders_are_merged_apart() {
    let mut collection = LasOutlineFeatureCollection::new();
    collection.add_feature(outline_feature(square(0.0, 0.0, 1.0), &tile("a.las", "one", 1)));
    collection.add_feature(outline_feature(square(0.0, 0.0, 1.0), &tile("b.las", "two", 1)));
    collection.add_feature(outline_feature(square(2.0, 0.0, 1.0), &tile("c.las", "one", 1)));
    collection.merge_geometries(false, false);
    assert_eq!(collection.features().len(), 2);
    assert_eq!(get(&collection.features()[0].properties, "SourceFileDir"), Some(&PropertyValue::Text("one".to_string())));
    assert_eq!(get(&collection.features()[0].properties, "number_of_points"), Some(&PropertyValue::Number(2)));
    assert_eq!(get(&collection.features()[1].properties, "SourceFileDir"), Some(&PropertyValue::Text("two".to_string())));
}

#[test]
fn degenerate_merge_is_dropped() {
    let mut collection = LasOutlineFeatureCollection::new();
    collection.add_feature(outline_feature(vec![pt(4.0, 3.0), pt(4.0, 3.0)], &tile("a.las", "d", 1)));
    collection.merge_geometries(false, false);
    assert!(collection.features().is_empty());
}

#[test]
fn tile_record_entries() {
    let props = tile("dir/a.las", "dir", 7).to_map();
    let keys: Vec<&str> = props.iter().map(|p| p.key.as_str()).collect();
    assert_eq!(
        keys,
        vec!["SourceFile", "SourceFileDir", "number_of_points", "date", "file_source_id", "generating_software", "version", "system_identifier"]
    );
    assert_eq!(get(&props, "version"), Some(&PropertyValue::Text("1.4".to_string())));
    let mut bare = tile("a.las", "", 7);
    bare.folder_path = None;
    bare.date = None;
    assert_eq!(bare.to_map().len(), 6);
}

#[test]
fn version_text() {
    assert_eq!(format_version(1, 4), "1.4");
    assert_eq!(format_version(10, 255), "10.255");
}

#[test]
fn unique_values_keep_first_order() {
    let mut merged: Vec<Property> = Vec::new();
    insert_unique_value(&mut merged, "k", Scalar::Text("b".to_string()));
    insert_unique_value(&mut merged, "k", Scalar::Text("a".to_string()));
    insert_unique_value(&mut merged, "k", Scalar::Text("b".to_string()));
    insert_unique_value(&mut merged, "k", Scalar::Number(3));
    assert_eq!(
        merged,
        vec![Property {
            key: "k".to_string(),
            value: PropertyValue::List(vec![Scalar::Text("b".to_string()), Scalar::Text("a".to_string()), Scalar::Number(3)]),
        }]
    );
    let mut counted = vec![Property { key: "k".to_string(), value: PropertyValue::Number(1) }];
    insert_unique_value(&mut counted, "k", Scalar::Number(9));
    assert_eq!(counted[0].value, PropertyValue::Number(1));
}

#[test]
fn components_of_a_chain() {
    let groups = components(5, &vec![(3, 1), (1, 4)]);
    assert_eq!(groups, vec![vec![0], vec![1, 3, 4], vec![2]]);
}

#[test]
fn output_names() {
    let mut c = config(false, false, false);
    assert_eq!(c.output_file_name("data"), "data.geojson");
    c.output_file = Some("out.geojson".to_string());
    assert_eq!(c.output_file_name("data"), "out.geojson");
}

#[test]
fn text_helpers() {
    assert_eq!(trim_str("\t a b \u{3000}\n"), "a b");
    assert_eq!(trim_str("   "), "");
    assert_eq!(strip_nul_str("abc\0\0"), "abc");
    assert_eq!(cut_before("WGS 84 (EPSG:4326)", " (EPSG:"), "WGS 84");
    assert_eq!(cut_before("WGS 84", " (EPSG:"), "WGS 84");
    let mut s = String::from("n=");
    push_decimal(&mut s, 4326);
    assert_eq!(s, "n=4326");
}

#[test]
fn largest_numerals() {
    let mut s = String::new();
    push_decimal(&mut s, u64::MAX);
    assert_eq!(s, "18446744073709551615");
    let mut z = String::new();
    push_decimal(&mut z, 0);
    assert_eq!(z, "0");
}

#[test]
fn grouping_by_folder_empties_the_collection() {
    let mut collection = LasOutlineFeatureCollection::new();
    collection.add_feature(outline_feature(square(0.0, 0.0, 1.0), &tile("a.las", "one", 1)));
    collection.add_feature(outline_feature(square(0.0, 0.0, 1.0), &tile("b.las", "two", 1)));
    collection.add_feature(outline_feature(square(2.0, 0.0, 1.0), &tile("c.las", "one", 1)));
    let (features, groups) = collection.group_features_by_folder();
    assert!(collection.features().is_empty());
    assert_eq!(features.len(), 3);
    assert_eq!(groups.len(), 2);
    assert_eq!(groups[0].folder, Some("one".to_string()));
    assert_eq!(groups[0].members, vec![0, 2]);
    assert_eq!(groups[1].folder, Some("two".to_string()));
    assert_eq!(groups[1].members, vec![1]);
}

#[test]
fn hull_of_two_points_is_degenerate_and_closed() {
    let hull = convex_hull(&vec![pt(0.0, 0.0), pt(1.0, 1.0)]);
    assert!(hull.len() < 4);
    assert_eq!(hull.first(), hull.last());
}
