use las_poly::geometry::GridPoint;
use las_poly::las_feature_collection::{Geometry, LasOutlineFeatureCollection, OutlineFeature};
use las_poly::properties::{Property, PropertyValue, Scalar};

fn pt(x: f64, y: f64) -> GridPoint {
    ((x * 1e7).round() as i64, (y * 1e7).round() as i64)
}

fn polygon(coords: &[(f64, f64)]) -> Option<Geometry> {
    Some(Geometry::Polygon(coords.iter().map(|&(x, y)| pt(x, y)).collect()))
}

fn text(key: &str, value: &str) -> Property {
    Property { key: key.to_string(), value: PropertyValue::Text(value.to_string()) }
}

fn number(key: &str, value: u64) -> Property {
    Property { key: key.to_string(), value: PropertyValue::Number(value) }
}

fn base_properties() -> Vec<Property> {
    vec![text("SourceFileDir", "folder1"), text("Attribute1", "Value1"), number("number_of_points", 42)]
}

fn get<'a>(props: &'a [Property], key: &str) -> &'a PropertyValue {
    &props.iter().find(|p| p.key == key).expect("missing property").value
}

fn ring_len(f: &OutlineFeature) -> usize {
    match &f.geometry {
        Some(Geometry::Polygon(r)) => r.len(),
        Some(_) => panic!("Expected a Polygon"),
        None => panic!("Expected a geometry"),
    }
}

#[test]
fn test_new_las_feature_collection() {
    let collection = LasOutlineFeatureCollection::new();
    assert!(collection.features().is_empty());
}

#[test]
fn test_add_feature() {
    let mut collection = LasOutlineFeatureCollection::new();
    let feature = OutlineFeature { geometry: Some(Geometry::Point(pt(1.0, 2.0))), properties: Vec::new() };
    collection.add_feature(feature);
    assert_eq!(collection.features().len(), 1);
}

#[test]
fn test_merge_geometries() {
    let mut collection = LasOutlineFeatureCollection::new();
    let properties = base_properties();
    let feature1 = OutlineFeature {
        geometry: polygon(&[(0.0, 0.0), (1.0, 0.0), (1.0, 1.0), (0.0, 1.0), (0.0, 0.0)]),
        properties: properties.clone(),
    };
    let feature2 = OutlineFeature {
        geometry: polygon(&[(1.0, 1.0), (2.0, 1.0), (2.0, 2.0), (1.0, 2.0), (1.0, 1.0)]),
        properties: properties.clone(),
    };
    let mut properties3 = properties.clone();
    properties3[1] = text("Attribute1", "Value2");
    properties3.push(text("Attribute2", "Value3"));
    properties3.push(text("Attribute3", "!@#$%^&*()"));
    let feature3 = OutlineFeature {
        geometry: polygon(&[(1.0, 1.0), (2.0, 1.0), (2.0, 2.0), (1.0, 2.0), (1.0, 1.0)]),
        properties: properties3,
    };
    collection.add_feature(feature1);
    collection.add_feature(feature2);
    collection.add_feature(feature3);
    collection.merge_geometries(false, false);

    assert_eq!(collection.features().len(), 1);
    let merged_feature = &collection.features()[0];
    assert_eq!(ring_len(merged_feature), 7);
    let props = &merged_feature.properties;
    assert_eq!(get(props, "SourceFileDir"), &PropertyValue::Text("folder1".to_string()));
    assert_eq!(get(props, "number_of_points"), &PropertyValue::Number(126));
    match get(props, "Attribute1") {
        PropertyValue::List(l) => {
            assert!(l.contains(&Scalar::Text("Value1".to_string())));
            assert!(l.contains(&Scalar::Text("Value2".to_string())));
        },
        _ => panic!("Expected a list"),
    }
    match get(props, "Attribute2") {
        PropertyValue::List(l) => assert!(l.contains(&Scalar::Text("Value3".to_string()))),
        _ => panic!("Expected a list"),
    }
    match get(props, "Attribute3") {
        PropertyValue::List(l) => assert!(l.contains(&Scalar::Text("!@#$%^&*()".to_string()))),
        _ => panic!("Expected a list"),
    }
}

#[test]
fn test_merge_geometries_with_shared_vertex() {
    let mut collection = LasOutlineFeatureCollection::new();
    let properties = base_properties();
    collection.add_feature(OutlineFeature {
        geometry: polygon(&[(0.0, 0.0), (1.0, 0.0), (1.0, 1.0), (0.0, 1.0), (0.0, 0.0)]),
        properties: properties.clone(),
    });
    collection.add_feature(OutlineFeature {
        geometry: polygon(&[(1.0, 1.0), (2.0, 1.0), (2.0, 2.0), (1.0, 2.0), (1.0, 1.0)]),
        properties: properties.clone(),
    });
    collection.add_feature(OutlineFeature {
        geometry: polygon(&[(0.0, 2.0), (2.0, 3.0), (4.0, 5.0), (6.0, 7.0), (8.0, 9.0)]),
        properties: properties.clone(),
    });
    collection.merge_geometries(true, false);

    assert_eq!(collection.features().len(), 2);
    let merged_features = collection.features();
    let merged_feature1 = merged_features
        .iter()
        .find(|f| ring_len(f) == 4)
        .expect("Expected a merged feature with 4 points");
    let merged_feature2 = merged_features
        .iter()
        .find(|f| ring_len(f) == 7)
        .expect("Expected a merged feature with 7 points");
    assert_eq!(ring_len(merged_feature1), 4);
    assert_eq!(ring_len(merged_feature2), 7);
}

#[test]
fn test_merge_geometries_without_shared_vertex() {
    let mut collection = LasOutlineFeatureCollection::new();
    let properties = base_properties();
    collection.add_feature(OutlineFeature {
        geometry: polygon(&[(0.0, 0.0), (1.0, 0.0), (1.0, 1.0), (0.0, 1.0), (0.0, 0.0)]),
        properties: properties.clone(),
    });
    collection.add_feature(OutlineFeature {
        geometry: polygon(&[(2.0, 2.0), (3.0, 2.0), (3.0, 3.0), (2.0, 3.0), (2.0, 2.0)]),
        properties: properties.clone(),
    });
    collection.merge_geometries(true, false);

    assert_eq!(collection.features().len(), 2);
}

#[test]
fn test_merge_geometries_with_overlap() {
    let mut collection = LasOutlineFeatureCollection::new();
    let properties = base_properties();
    collection.add_feature(OutlineFeature {
        geometry: polygon(&[(0.0, 0.0), (2.0, 0.0), (2.0, 2.0), (0.0, 2.0), (0.0, 0.0)]),
        properties: properties.clone(),
    });
    collection.add_feature(OutlineFeature {
        geometry: polygon(&[(1.0, 1.0), (3.0, 1.0), (3.0, 3.0), (1.0, 3.0), (1.0, 1.0)]),
        properties: properties.clone(),
    });
    collection.merge_geometries(false, true);

    assert_eq!(collection.features().len(), 1);
    assert_eq!(ring_len(&collection.features()[0]), 7);
}

#[test]
fn test_merge_geometries_with_shared_vertex_and_overlap() {
    let mut collection = LasOutlineFeatureCollection::new();
    let properties = base_properties();
    collection.add_feature(OutlineFeature {
        geometry: polygon(&[(0.0, 0.0), (1.0, 0.0), (1.0, 1.0), (0.0, 1.0), (0.0, 0.0)]),
        properties: properties.clone(),
    });
    collection.add_feature(OutlineFeature {
        geometry: polygon(&[(1.0, 1.0), (2.0, 1.0), (2.0, 2.0), (1.0, 2.0), (1.0, 1.0)]),
        properties: properties.clone(),
    });
    collection.add_feature(OutlineFeature {
        geometry: polygon(&[(0.5, 0.5), (1.5, 0.5), (1.5, 1.5), (0.5, 1.5), (0.5, 0.5)]),
        properties: properties.clone(),
    });
    collection.merge_geometries(true, true);

    assert_eq!(collection.features().len(), 1);
    assert_eq!(ring_len(&collection.features()[0]), 7);
}
