//! What a run is asked to do, and the decisions that follow from it alone.
use vstd::prelude::*;
use crate::las_feature_collection::{merge_outcome, rings_in_range, LasOutlineFeatureCollection};

verus! {

broadcast use vstd::string::group_string_axioms;

/// The options of a run over a folder of tiles.
#[derive(Clone, Debug)]
pub struct ProcessConfig {
    pub folder_path: String,
    pub use_detailed_outline: bool,
    pub group_by_folder: bool,
    pub merge_tiled: bool,
    pub merge_if_overlap: bool,
    pub recurse: bool,
    pub guess_crs: bool,
    pub output_file: Option<String>,
}

impl ProcessConfig {
    /// Whether the outlines are to be merged at all.
    pub open spec fn merges(&self) -> bool {
        self.group_by_folder || self.merge_tiled || self.merge_if_overlap
    }

    /// The file to write: the one asked for, else `<folder_name>.geojson`.
    pub fn output_file_name(&self, folder_name: &str) -> (r: String)
        ensures
            r@ == match self.output_file {
                Some(f) => f@,
                None => folder_name@ + ".geojson"@,
            },
    {
        match &self.output_file {
            Some(f) => f.clone(),
            None => folder_name.to_string().concat(".geojson"),
        }
    }

    /// Merges the collected outlines as the options ask: not at all when no merge
    /// option is set, else by folder, joining by shared vertex (`merge_tiled`) and
    /// by overlap (`merge_if_overlap`) as set.
    pub fn apply_merge_policy(&self, collection: &mut LasOutlineFeatureCollection)
        requires
            rings_in_range(old(collection)@),
        ensures
            self.merges() ==> merge_outcome(old(collection)@, self.merge_tiled, self.merge_if_overlap, final(collection)@),
            !self.merges() ==> final(collection)@ == old(collection)@,
    {
        if self.group_by_folder || self.merge_tiled || self.merge_if_overlap {
            collection.merge_geometries(self.merge_tiled, self.merge_if_overlap);
        }
    }
}

} // verus!
