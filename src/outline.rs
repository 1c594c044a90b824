//! The outline feature of one tile: its ring and the property record drawn from
//! its header.
use vstd::prelude::*;
use crate::geometry::GridPoint;
use crate::las_feature_collection::{Geometry, GeometryModel, FeatureModel, OutlineFeature};
use crate::properties::{properties_model, PropertiesModel, Property, PropertyValue, ValueModel};
use crate::text::{decimal, push_decimal};

verus! {

broadcast use vstd::string::group_string_axioms;

/// What a tile header says of the tile, as its outline's properties carry it.
#[derive(Debug)]
pub struct TileProperties {
    pub filename: String,
    pub folder_path: Option<String>,
    pub number_of_points: u64,
    pub date: Option<String>,
    pub file_source_id: u16,
    pub generating_software: String,
    pub version: String,
    pub system_identifier: String,
}

/// Text `"<major>.<minor>"` of a format version.
pub open spec fn version_text(major: u8, minor: u8) -> Seq<char> {
    decimal(major as nat) + "."@ + decimal(minor as nat)
}

/// The format version as `"<major>.<minor>"`.
pub fn format_version(major: u8, minor: u8) -> (r: String)
    ensures
        r@ == version_text(major, minor),
{
    let mut r = String::new();
    push_decimal(&mut r, major as u64);
    r.append(".");
    push_decimal(&mut r, minor as u64);
    r
}

/// The property record of a tile: file, folder (when known), point count, date
/// (when known), file source id, generating software, version and system identifier.
pub open spec fn tile_record(t: TileProperties) -> PropertiesModel {
    let head = seq![("SourceFile"@, ValueModel::Text(t.filename@))];
    let with_folder = match t.folder_path {
        Some(d) => head.push(("SourceFileDir"@, ValueModel::Text(d@))),
        None => head,
    };
    let with_count = with_folder.push(("number_of_points"@, ValueModel::Number(t.number_of_points)));
    let with_date = match t.date {
        Some(d) => with_count.push(("date"@, ValueModel::Text(d@))),
        None => with_count,
    };
    with_date + seq![
        ("file_source_id"@, ValueModel::Number(t.file_source_id as u64)),
        ("generating_software"@, ValueModel::Text(t.generating_software@)),
        ("version"@, ValueModel::Text(t.version@)),
        ("system_identifier"@, ValueModel::Text(t.system_identifier@)),
    ]
}

fn text_property(key: &str, value: &String) -> (p: Property)
    ensures
        p@ == (key@, ValueModel::Text(value@)),
{
    Property { key: key.to_string(), value: PropertyValue::Text(value.clone()) }
}

fn number_property(key: &str, value: u64) -> (p: Property)
    ensures
        p@ == (key@, ValueModel::Number(value)),
{
    Property { key: key.to_string(), value: PropertyValue::Number(value) }
}

impl TileProperties {
    /// The property record of the tile.
    pub fn to_map(&self) -> (r: Vec<Property>)
        ensures
            properties_model(r@) == tile_record(*self),
    {
        let mut r: Vec<Property> = Vec::new();
        r.push(text_property("SourceFile", &self.filename));
        if let Some(d) = &self.folder_path {
            r.push(text_property("SourceFileDir", d));
        }
        r.push(number_property("number_of_points", self.number_of_points));
        if let Some(d) = &self.date {
            r.push(text_property("date", d));
        }
        r.push(number_property("file_source_id", self.file_source_id as u64));
        r.push(text_property("generating_software", &self.generating_software));
        r.push(text_property("version", &self.version));
        r.push(text_property("system_identifier", &self.system_identifier));
        assert(properties_model(r@) =~= tile_record(*self));
        r
    }
}

/// The outline feature of a tile: a polygon with `ring` as exterior and the tile's record.
pub fn outline_feature(ring: Vec<GridPoint>, tile: &TileProperties) -> (f: OutlineFeature)
    ensures
        f@ == (FeatureModel { geometry: Some(GeometryModel::Polygon(ring@)), properties: tile_record(*tile) }),
{
    OutlineFeature { geometry: Some(Geometry::Polygon(ring)), properties: tile.to_map() }
}

} // verus!
