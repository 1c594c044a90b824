//! The outline merge engine: a collection of tile outlines, grouped by folder,
//! by shared vertices and by overlap, each group folded into one convex hull
//! with its properties aggregated.
use vstd::prelude::*;
use vstd::pervasive::VecAdditionalExecFns;
use crate::components::{
    components, connected, in_some_group, is_component_partition, is_walk, lemma_connected_refl,
    lemma_connected_sym, lemma_edge_connected, related_pairs, row_pairs,
};
use crate::geometry::{convex_hull, convex_hull_of, polygons_intersect, ring_in_range, rings_intersect, GridPoint};
use crate::properties::{
    count_feature, find_key, fold_feature, fold_feature_properties, lemma_add_count,
    lemma_fold_entries_keeps_count, lookup, properties_model, PropertiesModel,
    Property, PropertyValue, ValueModel,
};

verus! {

/// The geometry of a feature.
#[derive(Debug, PartialEq)]
pub enum Geometry {
    Point(GridPoint),
    /// A polygon given by its closed exterior ring.
    Polygon(Vec<GridPoint>),
}

pub enum GeometryModel {
    Point(GridPoint),
    Polygon(Seq<GridPoint>),
}

impl View for Geometry {
    type V = GeometryModel;

    open spec fn view(&self) -> GeometryModel {
        match self {
            Geometry::Point(p) => GeometryModel::Point(*p),
            Geometry::Polygon(r) => GeometryModel::Polygon(r@),
        }
    }
}

/// A feature: an optional geometry and its properties.
#[derive(Debug, PartialEq)]
pub struct OutlineFeature {
    pub geometry: Option<Geometry>,
    pub properties: Vec<Property>,
}

pub struct FeatureModel {
    pub geometry: Option<GeometryModel>,
    pub properties: PropertiesModel,
}

impl View for OutlineFeature {
    type V = FeatureModel;

    open spec fn view(&self) -> FeatureModel {
        FeatureModel {
            geometry: match self.geometry {
                Some(g) => Some(g@),
                None => None,
            },
            properties: properties_model(self.properties@),
        }
    }
}

pub open spec fn features_model(fs: Seq<OutlineFeature>) -> Seq<FeatureModel> {
    fs.map_values(|f: OutlineFeature| f@)
}

/// The exterior ring of a polygon feature.
pub open spec fn ring_of(f: FeatureModel) -> Option<Seq<GridPoint>> {
    match f.geometry {
        Some(GeometryModel::Polygon(r)) => Some(r),
        _ => None,
    }
}

/// The folder a feature comes from, its `SourceFileDir` text.
pub open spec fn folder_of(f: FeatureModel) -> Option<Seq<char>> {
    match lookup(f.properties, "SourceFileDir"@) {
        Some(ValueModel::Text(t)) => Some(t),
        _ => None,
    }
}

/// Whether the ring of every polygon feature has coordinates within `COORD_LIMIT`.
pub open spec fn rings_in_range(fs: Seq<FeatureModel>) -> bool {
    forall|i: int| 0 <= i < fs.len() ==> match ring_of(#[trigger] fs[i]) {
        Some(r) => ring_in_range(r),
        None => true,
    }
}

/// The features at the given indices, in that order.
pub open spec fn pick(fs: Seq<FeatureModel>, idx: Seq<usize>) -> Seq<FeatureModel> {
    idx.map_values(|i: usize| fs[i as int])
}

/// The hull folded over the features in order: each polygon's ring is joined to the
/// hull so far and the hull of the union taken.
pub open spec fn fold_hull(fs: Seq<FeatureModel>) -> Seq<GridPoint>
    decreases fs.len(),
{
    if fs.len() == 0 {
        Seq::empty()
    } else {
        let acc = fold_hull(fs.drop_last());
        match ring_of(fs.last()) {
            Some(r) => convex_hull_of(acc + r),
            None => acc,
        }
    }
}

/// The properties of the features folded in order into `m`.
pub open spec fn fold_properties(m: PropertiesModel, fs: Seq<FeatureModel>) -> PropertiesModel
    decreases fs.len(),
{
    if fs.len() == 0 {
        m
    } else {
        fold_feature(fold_properties(m, fs.drop_last()), fs.last().properties)
    }
}

/// The record a merge starts from: the folder, when there is one.
pub open spec fn folder_properties(folder: Option<Seq<char>>) -> PropertiesModel {
    match folder {
        Some(d) => seq![("SourceFileDir"@, ValueModel::Text(d))],
        None => Seq::empty(),
    }
}

/// The feature that merging `fs` of `folder` gives: their folded hull with their
/// aggregated properties, or nothing when the hull has fewer than four points.
pub open spec fn merged_feature(fs: Seq<FeatureModel>, folder: Option<Seq<char>>) -> Option<FeatureModel> {
    let ring = fold_hull(fs);
    if ring.len() < 4 {
        None
    } else {
        Some(
            FeatureModel {
                geometry: Some(GeometryModel::Polygon(ring)),
                properties: fold_properties(folder_properties(folder), fs),
            },
        )
    }
}

pub open spec fn text_model(t: Option<String>) -> Option<Seq<char>> {
    match t {
        Some(s) => Some(s@),
        None => None,
    }
}

pub open spec fn feature_option_model(f: Option<OutlineFeature>) -> Option<FeatureModel> {
    match f {
        Some(g) => Some(g@),
        None => None,
    }
}

/// Whether the rings of two polygon features have a vertex in common.
pub open spec fn shares_vertex(a: FeatureModel, b: FeatureModel) -> bool {
    match (ring_of(a), ring_of(b)) {
        (Some(r), Some(s)) => rings_touch(r, s),
        _ => false,
    }
}

/// Whether two rings have a vertex in common.
pub open spec fn rings_touch(r: Seq<GridPoint>, s: Seq<GridPoint>) -> bool {
    exists|i: int, j: int| 0 <= i < r.len() && 0 <= j < s.len() && #[trigger] r[i] == #[trigger] s[j]
}

/// Whether two features are polygons that geo finds to intersect.
pub open spec fn overlaps(a: FeatureModel, b: FeatureModel) -> bool {
    match (ring_of(a), ring_of(b)) {
        (Some(r), Some(s)) => rings_intersect(r, s),
        _ => false,
    }
}

pub open spec fn vertex_relation(fs: Seq<FeatureModel>) -> spec_fn(int, int) -> bool {
    |p: int, q: int| shares_vertex(fs[p], fs[q])
}

pub open spec fn overlap_relation(fs: Seq<FeatureModel>) -> spec_fn(int, int) -> bool {
    |p: int, q: int| overlaps(fs[p], fs[q])
}

/// The pairs of `fs` (by position, first below second) that share a vertex.
pub open spec fn shared_vertex_pairs(fs: Seq<FeatureModel>) -> Seq<(usize, usize)> {
    related_pairs(vertex_relation(fs), fs.len() as int, fs.len() as int)
}

/// The pairs of `fs` (by position, first below second) that overlap.
pub open spec fn overlapping_pairs(fs: Seq<FeatureModel>) -> Seq<(usize, usize)> {
    related_pairs(overlap_relation(fs), fs.len() as int, fs.len() as int)
}

pub open spec fn groups_model(v: Seq<Vec<usize>>) -> Seq<Seq<usize>> {
    v.map_values(|g: Vec<usize>| g@)
}

/// The merged features of the groups of `fs`, in order; a group whose hull has
/// fewer than four points gives none.
pub open spec fn merge_groups(fs: Seq<FeatureModel>, groups: Seq<Seq<usize>>, folder: Option<Seq<char>>) -> Seq<FeatureModel>
    decreases groups.len(),
{
    if groups.len() == 0 {
        Seq::empty()
    } else {
        merge_groups(fs, groups.drop_last(), folder) + match merged_feature(pick(fs, groups.last()), folder) {
            Some(f) => seq![f],
            None => Seq::empty(),
        }
    }
}

/// Groups of positions in `members` turned into groups of what `members` holds there.
pub open spec fn lift(members: Seq<usize>, local: Seq<Seq<usize>>) -> Seq<Seq<usize>> {
    local.map_values(|g: Seq<usize>| g.map_values(|k: usize| members[k as int]))
}

/// `out` is what merging the features `members` of `fs`, all of `folder`, gives:
/// one merge of them all; or, joining by shared vertex, one merge per component of
/// the shared-vertex graph; and, joining by overlap too, one merge per component of
/// the overlap graph of those merged features.
pub open spec fn folder_outcome(
    fs: Seq<FeatureModel>,
    folder: Option<Seq<char>>,
    members: Seq<usize>,
    shared_vertex: bool,
    overlap: bool,
    out: Seq<FeatureModel>,
) -> bool {
    if !shared_vertex && !overlap {
        out == merge_groups(fs, seq![members], folder)
    } else {
        exists|local: Seq<Seq<usize>>|
            #[trigger] is_component_partition(members.len(), shared_vertex_pairs(pick(fs, members)), local)
                && if !overlap {
                out == merge_groups(fs, lift(members, local), folder)
            } else {
                overlap_outcome(merge_groups(fs, lift(members, local), folder), folder, out)
            }
    }
}

/// The features of `outs` one after the other.
pub open spec fn flatten(outs: Seq<Seq<FeatureModel>>) -> Seq<FeatureModel>
    decreases outs.len(),
{
    if outs.len() == 0 {
        Seq::empty()
    } else {
        flatten(outs.drop_last()) + outs.last()
    }
}

/// `outs` holds, for each folder group of `folders` in turn, what merging it gives.
pub open spec fn plan_gives(
    fs: Seq<FeatureModel>,
    folders: Seq<(Option<Seq<char>>, Seq<usize>)>,
    outs: Seq<Seq<FeatureModel>>,
    shared_vertex: bool,
    overlap: bool,
) -> bool {
    &&& is_folder_partition(fs, folders)
    &&& outs.len() == folders.len()
    &&& forall|g: int| 0 <= g < folders.len() ==> folder_outcome(fs, folders[g].0, folders[g].1, shared_vertex, overlap, #[trigger] outs[g])
}

/// `result` is what merging `fs` gives: the features of each folder merged as
/// `folder_outcome` says, folders in order of first appearance.
pub open spec fn merge_outcome(fs: Seq<FeatureModel>, shared_vertex: bool, overlap: bool, result: Seq<FeatureModel>) -> bool {
    exists|folders: Seq<(Option<Seq<char>>, Seq<usize>)>, outs: Seq<Seq<FeatureModel>>|
        #[trigger] plan_gives(fs, folders, outs, shared_vertex, overlap) && result == flatten(outs)
}

/// `out` is the merge of each component of the overlap graph of `firsts`.
pub open spec fn overlap_outcome(firsts: Seq<FeatureModel>, folder: Option<Seq<char>>, out: Seq<FeatureModel>) -> bool {
    exists|groups: Seq<Seq<usize>>|
        #[trigger] is_component_partition(firsts.len(), overlapping_pairs(firsts), groups)
            && out == merge_groups(firsts, groups, folder)
}

/// The features of one folder, by index into the collection.
#[derive(Debug)]
pub struct FolderGroup {
    pub folder: Option<String>,
    pub members: Vec<usize>,
}

/// The indices below `n` of the features of `fs` whose folder is `folder`, ascending.
pub open spec fn indices_of_folder(fs: Seq<FeatureModel>, folder: Option<Seq<char>>, n: int) -> Seq<usize>
    decreases n,
{
    if n <= 0 {
        Seq::empty()
    } else {
        indices_of_folder(fs, folder, n - 1) + if folder_of(fs[n - 1]) == folder {
            seq![(n - 1) as usize]
        } else {
            Seq::empty()
        }
    }
}

/// `groups` holds one group for each folder of `fs`, in order of first appearance,
/// each with the indices of that folder's features.
pub open spec fn is_folder_partition(fs: Seq<FeatureModel>, groups: Seq<(Option<Seq<char>>, Seq<usize>)>) -> bool {
    &&& forall|g: int| 0 <= g < groups.len() ==> (#[trigger] groups[g]).1 == indices_of_folder(fs, groups[g].0, fs.len() as int)
    &&& forall|g: int| 0 <= g < groups.len() ==> (#[trigger] groups[g]).1.len() > 0
    &&& forall|g1: int, g2: int| 0 <= g1 < g2 < groups.len() ==> (#[trigger] groups[g1]).0 != (#[trigger] groups[g2]).0
        && groups[g1].1[0] < groups[g2].1[0]
    &&& forall|i: int| 0 <= i < fs.len() ==> has_group_for(groups, folder_of(#[trigger] fs[i]))
}

/// Whether one of `groups` is for `folder`.
pub open spec fn has_group_for(groups: Seq<(Option<Seq<char>>, Seq<usize>)>, folder: Option<Seq<char>>) -> bool {
    exists|g: int| 0 <= g < groups.len() && (#[trigger] groups[g]).0 == folder
}

pub open spec fn folder_groups_model(v: Seq<FolderGroup>) -> Seq<(Option<Seq<char>>, Seq<usize>)> {
    v.map_values(|g: FolderGroup| (text_model(g.folder), g.members@))
}

proof fn lemma_indices_below(fs: Seq<FeatureModel>, folder: Option<Seq<char>>, n: int)
    requires
        0 <= n <= fs.len(),
    ensures
        forall|k: int| 0 <= k < indices_of_folder(fs, folder, n).len() ==> #[trigger] indices_of_folder(fs, folder, n)[k] < n,
    decreases n,
{
    if n > 0 {
        lemma_indices_below(fs, folder, n - 1);
        let prev = indices_of_folder(fs, folder, n - 1);
        let cur = indices_of_folder(fs, folder, n);
        assert forall|k: int| 0 <= k < cur.len() implies #[trigger] cur[k] < n by {
            if k < prev.len() {
                assert(cur[k] == prev[k]);
            }
        }
    }
}

proof fn lemma_no_folder_indices(fs: Seq<FeatureModel>, folder: Option<Seq<char>>, n: int)
    requires
        0 <= n <= fs.len(),
        forall|x: int| 0 <= x < n ==> folder_of(#[trigger] fs[x]) != folder,
    ensures
        indices_of_folder(fs, folder, n) == Seq::<usize>::empty(),
    decreases n,
{
    if n > 0 {
        lemma_no_folder_indices(fs, folder, n - 1);
        assert(folder_of(fs[n - 1]) != folder);
        assert(indices_of_folder(fs, folder, n) =~= Seq::<usize>::empty());
    }
}

/// The folder of a feature.
fn feature_folder(f: &OutlineFeature) -> (r: Option<String>)
    ensures
        text_model(r) == folder_of(f@),
{
    match find_key(&f.properties, "SourceFileDir") {
        Some(i) => {
            assert(properties_model(f.properties@)[i as int] == f.properties@[i as int]@);
            match &f.properties[i].value {
                PropertyValue::Text(t) => Some(t.clone()),
                _ => None,
            }
        },
        None => None,
    }
}

fn same_folder(a: &Option<String>, b: &Option<String>) -> (r: bool)
    ensures
        r == (text_model(*a) == text_model(*b)),
{
    match (a, b) {
        (Some(x), Some(y)) => *x == *y,
        (None, None) => true,
        _ => false,
    }
}

/// Whether two rings have a vertex in common.
fn rings_share_vertex(r: &Vec<GridPoint>, s: &Vec<GridPoint>) -> (b: bool)
    ensures
        b == rings_touch(r@, s@),
{
    let mut i: usize = 0;
    while i < r.len()
        invariant
            i <= r@.len(),
            forall|a: int, j: int| 0 <= a < i && 0 <= j < s@.len() ==> #[trigger] r@[a] != #[trigger] s@[j],
        decreases r@.len() - i,
    {
        let mut j: usize = 0;
        while j < s.len()
            invariant
                i < r@.len(),
                j <= s@.len(),
                forall|a: int, k: int| 0 <= a < i && 0 <= k < s@.len() ==> #[trigger] r@[a] != #[trigger] s@[k],
                forall|k: int| 0 <= k < j ==> r@[i as int] != #[trigger] s@[k],
            decreases s@.len() - j,
        {
            if r[i].0 == s[j].0 && r[i].1 == s[j].1 {
                assert(r@[i as int] == s@[j as int]);
                return true;
            }
            j = j + 1;
        }
        i = i + 1;
    }
    false
}

/// Whether two features share a vertex.
fn features_share_vertex(a: &OutlineFeature, b: &OutlineFeature) -> (r: bool)
    ensures
        r == shares_vertex(a@, b@),
{
    match (&a.geometry, &b.geometry) {
        (Some(Geometry::Polygon(r)), Some(Geometry::Polygon(s))) => {
            assert(ring_of(a@) == Some(r@) && ring_of(b@) == Some(s@));
            rings_share_vertex(r, s)
        },
        _ => false,
    }
}

/// Whether two features overlap.
fn features_overlap(a: &OutlineFeature, b: &OutlineFeature) -> (r: bool)
    requires
        rings_in_range(seq![a@, b@]),
    ensures
        r == overlaps(a@, b@),
{
    match (&a.geometry, &b.geometry) {
        (Some(Geometry::Polygon(r)), Some(Geometry::Polygon(s))) => {
            assert(ring_of(seq![a@, b@][0]) == Some(r@));
            assert(ring_of(seq![a@, b@][1]) == Some(s@));
            polygons_intersect(r, s)
        },
        _ => false,
    }
}

/// The collection of outline features.
pub struct LasOutlineFeatureCollection {
    features: Vec<OutlineFeature>,
}

impl View for LasOutlineFeatureCollection {
    type V = Seq<FeatureModel>;

    closed spec fn view(&self) -> Seq<FeatureModel> {
        features_model(self.features@)
    }
}

impl Default for LasOutlineFeatureCollection {
    fn default() -> (r: Self)
        ensures
            r@ == Seq::<FeatureModel>::empty(),
    {
        Self::new()
    }
}

impl LasOutlineFeatureCollection {
    /// An empty collection.
    pub fn new() -> (r: Self)
        ensures
            r@ == Seq::<FeatureModel>::empty(),
    {
        let r = LasOutlineFeatureCollection { features: Vec::new() };
        assert(r@ =~= Seq::<FeatureModel>::empty());
        r
    }

    /// The features, in order.
    pub fn features(&self) -> (r: &Vec<OutlineFeature>)
        ensures
            features_model(r@) == self@,
    {
        &self.features
    }

    /// Appends a feature.
    pub fn add_feature(&mut self, feature: OutlineFeature)
        ensures
            final(self)@ == old(self)@.push(feature@),
    {
        let ghost f = feature@;
        self.features.push(feature);
        assert(self@ =~= old(self)@.push(f));
    }

    /// Moves the features out of the collection, leaving it empty, and groups them
    /// by folder (`SourceFileDir`): folders in order of first appearance, each with
    /// the indices of its features among the features returned.
    pub fn group_features_by_folder(&mut self) -> (r: (Vec<OutlineFeature>, Vec<FolderGroup>))
        ensures
            final(self)@.len() == 0,
            features_model(r.0@) == old(self)@,
            is_folder_partition(old(self)@, folder_groups_model(r.1@)),
    {
        let groups = self.folder_groups();
        let mut features: Vec<OutlineFeature> = Vec::new();
        std::mem::swap(&mut self.features, &mut features);
        assert(self@ =~= Seq::<FeatureModel>::empty());
        (features, groups)
    }

    /// The folder groups of the features, as `group_features_by_folder` returns them.
    fn folder_groups(&self) -> (r: Vec<FolderGroup>)
        ensures
            is_folder_partition(self@, folder_groups_model(r@)),
    {
        let ghost fm = self@;
        let mut groups: Vec<FolderGroup> = Vec::new();
        let mut i: usize = 0;
        while i < self.features.len()
            invariant
                i <= fm.len(),
                fm == self@,
                fm == features_model(self.features@),
                forall|g: int| 0 <= g < groups@.len() ==> (#[trigger] groups@[g]).members@ == indices_of_folder(
                    fm,
                    text_model(groups@[g].folder),
                    i as int,
                ),
                forall|g: int| 0 <= g < groups@.len() ==> (#[trigger] groups@[g]).members@.len() > 0,
                forall|g1: int, g2: int| 0 <= g1 < g2 < groups@.len() ==> text_model((#[trigger] groups@[g1]).folder)
                    != text_model((#[trigger] groups@[g2]).folder) && groups@[g1].members@[0] < groups@[g2].members@[0],
                forall|x: int| 0 <= x < i ==> has_group_for(folder_groups_model(groups@), folder_of(#[trigger] fm[x])),
            decreases fm.len() - i,
        {
            let folder = feature_folder(&self.features[i]);
            assert(fm[i as int] == self.features@[i as int]@);
            let mut g: usize = 0;
            while g < groups.len() && !same_folder(&groups[g].folder, &folder)
                invariant
                    g <= groups@.len(),
                    forall|h: int| 0 <= h < g ==> text_model(#[trigger] groups@[h].folder) != text_model(folder),
                decreases groups@.len() - g,
            {
                g = g + 1;
            }
            let ghost old_groups = groups@;
            if g < groups.len() {
                let mut taken = FolderGroup { folder: None, members: Vec::new() };
                groups.set_and_swap(g, &mut taken);
                taken.members.push(i);
                groups.set_and_swap(g, &mut taken);
                proof {
                    assert forall|h: int| 0 <= h < groups@.len() && h != g implies groups@[h] == old_groups[h] by {}
                    assert(groups@[g as int].members@ == old_groups[g as int].members@.push(i));
                    assert(text_model(groups@[g as int].folder) == folder_of(fm[i as int]));
                    assert forall|x: int| 0 <= x < i + 1 implies has_group_for(folder_groups_model(groups@), folder_of(#[trigger] fm[x])) by {
                        let gm = folder_groups_model(groups@);
                        if x < i {
                            let om = folder_groups_model(old_groups);
                            assert(has_group_for(om, folder_of(fm[x])));
                            let h = choose|h: int| 0 <= h < om.len() && (#[trigger] om[h]).0 == folder_of(fm[x]);
                            assert(gm[h].0 == folder_of(fm[x]));
                        } else {
                            assert(gm[g as int].0 == folder_of(fm[x]));
                        }
                    }
                }
            } else {
                let mut members: Vec<usize> = Vec::new();
                members.push(i);
                groups.push(FolderGroup { folder, members });
                proof {
                    let key = folder_of(fm[i as int]);
                    assert forall|x: int| 0 <= x < i implies folder_of(#[trigger] fm[x]) != key by {
                        let om = folder_groups_model(old_groups);
                        assert(has_group_for(om, folder_of(fm[x])));
                        let h = choose|h: int| 0 <= h < om.len() && (#[trigger] om[h]).0 == folder_of(fm[x]);
                        assert(text_model(old_groups[h].folder) != key);
                    }
                    lemma_no_folder_indices(fm, key, i as int);
                    assert(groups@[g as int].members@ =~= indices_of_folder(fm, key, i + 1));
                    assert forall|x: int| 0 <= x < i + 1 implies has_group_for(folder_groups_model(groups@), folder_of(#[trigger] fm[x])) by {
                        let gm = folder_groups_model(groups@);
                        if x < i {
                            let om = folder_groups_model(old_groups);
                            assert(has_group_for(om, folder_of(fm[x])));
                            let h = choose|h: int| 0 <= h < om.len() && (#[trigger] om[h]).0 == folder_of(fm[x]);
                            assert(gm[h].0 == folder_of(fm[x]));
                        } else {
                            assert(gm[g as int].0 == folder_of(fm[x]));
                        }
                    }
                    assert forall|h: int| 0 <= h < g implies #[trigger] groups@[h].members@[0] < i by {
                        let m = groups@[h].members@;
                        assert(m == indices_of_folder(fm, text_model(groups@[h].folder), i as int));
                        lemma_indices_below(fm, text_model(groups@[h].folder), i as int);
                        assert(m.contains(m[0]));
                    }
                }
            }
            i = i + 1;
        }
        proof {
            let gm = folder_groups_model(groups@);
            assert forall|g: int| 0 <= g < gm.len() implies (#[trigger] gm[g]).1 == indices_of_folder(fm, gm[g].0, fm.len() as int) by {
                assert(gm[g].1 == groups@[g].members@);
            }
            assert forall|g: int| 0 <= g < gm.len() implies (#[trigger] gm[g]).1.len() > 0 by {
                assert(gm[g].1 == groups@[g].members@);
            }
            assert forall|g1: int, g2: int| 0 <= g1 < g2 < gm.len() implies (#[trigger] gm[g1]).0 != (#[trigger] gm[g2]).0
                && gm[g1].1[0] < gm[g2].1[0] by {
                assert(text_model((groups@[g1]).folder) != text_model((groups@[g2]).folder));
            }
        }
        groups
    }

    /// Replaces the features by their merge: the features of each folder folded into
    /// one convex hull; or, with `only_join_if_shared_vertex`, one per group of
    /// features linked by shared vertices; and with `merge_if_overlap`, those merged
    /// again per group of overlapping results. Hulls of fewer than four points are dropped.
    pub fn merge_geometries(&mut self, only_join_if_shared_vertex: bool, merge_if_overlap: bool)
        requires
            rings_in_range(old(self)@),
        ensures
            merge_outcome(old(self)@, only_join_if_shared_vertex, merge_if_overlap, final(self)@),
            rings_in_range(final(self)@),
    {
        let (features, groups) = self.group_features_by_folder();
        let ghost fm = features_model(features@);
        let ghost folders = folder_groups_model(groups@);
        let ghost mut outs: Seq<Seq<FeatureModel>> = Seq::empty();
        proof {
            assert(features_model(self.features@) =~= flatten(outs));
        }
        let mut g: usize = 0;
        while g < groups.len()
            invariant
                g <= groups@.len(),
                fm == features_model(features@),
                folders == folder_groups_model(groups@),
                is_folder_partition(fm, folders),
                rings_in_range(fm),
                rings_in_range(features_model(self.features@)),
                features_model(self.features@) == flatten(outs),
                outs.len() == g,
                forall|h: int| 0 <= h < g ==> folder_outcome(
                    fm,
                    folders[h].0,
                    folders[h].1,
                    only_join_if_shared_vertex,
                    merge_if_overlap,
                    #[trigger] outs[h],
                ),
            decreases groups@.len() - g,
        {
            proof {
                assert(folders[g as int].1 == groups@[g as int].members@);
                assert(folders[g as int].0 == text_model(groups@[g as int].folder));
                lemma_indices_below(fm, folders[g as int].0, fm.len() as int);
            }
            let ghost before = features_model(self.features@);
            Self::merge_folder(
                &features,
                &groups[g].members,
                &groups[g].folder,
                only_join_if_shared_vertex,
                merge_if_overlap,
                &mut self.features,
            );
            proof {
                let now = features_model(self.features@);
                let added = now.subrange(before.len() as int, now.len() as int);
                let next = outs.push(added);
                assert(next.drop_last() =~= outs);
                assert(now =~= before + added);
                outs = next;
            }
            g = g + 1;
        }
        proof {
            assert(plan_gives(fm, folders, outs, only_join_if_shared_vertex, merge_if_overlap));
        }
    }

    /// Groups the features `members` of `features` into the components of the graph
    /// that joins features sharing a vertex; groups hold positions in `members`.
    fn group_by_shared_vertex(features: &Vec<OutlineFeature>, members: &Vec<usize>) -> (r: Vec<Vec<usize>>)
        requires
            forall|k: int| 0 <= k < members@.len() ==> #[trigger] members@[k] < features@.len(),
        ensures
            is_component_partition(
                members@.len(),
                shared_vertex_pairs(pick(features_model(features@), members@)),
                groups_model(r@),
            ),
    {
        let ghost fm = features_model(features@);
        let ghost local = pick(fm, members@);
        let m = members.len();
        let mut edges: Vec<(usize, usize)> = Vec::new();
        let mut p: usize = 0;
        while p < m
            invariant
                p <= m,
                m == members@.len(),
                fm == features_model(features@),
                local == pick(fm, members@),
                forall|k: int| 0 <= k < members@.len() ==> #[trigger] members@[k] < features@.len(),
                edges@ == related_pairs(vertex_relation(local), p as int, m as int),
                forall|k: int| 0 <= k < edges@.len() ==> (#[trigger] edges@[k]).0 < m && edges@[k].1 < m,
            decreases m - p,
        {
            let mut q: usize = p + 1;
            while q < m
                invariant
                    p < m,
                    p + 1 <= q <= m,
                    m == members@.len(),
                    fm == features_model(features@),
                    local == pick(fm, members@),
                    forall|k: int| 0 <= k < members@.len() ==> #[trigger] members@[k] < features@.len(),
                    edges@ == related_pairs(vertex_relation(local), p as int, m as int) + row_pairs(
                        vertex_relation(local),
                        p as int,
                        q as int,
                    ),
                    forall|k: int| 0 <= k < edges@.len() ==> (#[trigger] edges@[k]).0 < m && edges@[k].1 < m,
                decreases m - q,
            {
                let share = features_share_vertex(&features[members[p]], &features[members[q]]);
                proof {
                    assert(local[p as int] == features@[members@[p as int] as int]@);
                    assert(local[q as int] == features@[members@[q as int] as int]@);
                    assert(share == vertex_relation(local)(p as int, q as int));
                }
                if share {
                    edges.push((p, q));
                }
                proof {
                    let rel = vertex_relation(local);
                    assert(row_pairs(rel, p as int, q + 1) == row_pairs(rel, p as int, q as int) + if rel(p as int, q as int) {
                        seq![(p, q)]
                    } else {
                        Seq::<(usize, usize)>::empty()
                    });
                    assert(edges@ =~= related_pairs(rel, p as int, m as int) + row_pairs(rel, p as int, q + 1));
                }
                q = q + 1;
            }
            p = p + 1;
        }
        components(m, &edges)
    }

    /// Groups `features` into the components of the graph that joins overlapping features.
    fn group_by_overlap(features: &Vec<OutlineFeature>) -> (r: Vec<Vec<usize>>)
        requires
            rings_in_range(features_model(features@)),
        ensures
            is_component_partition(
                features@.len(),
                overlapping_pairs(features_model(features@)),
                groups_model(r@),
            ),
    {
        let ghost fm = features_model(features@);
        let m = features.len();
        let mut edges: Vec<(usize, usize)> = Vec::new();
        let mut p: usize = 0;
        while p < m
            invariant
                p <= m,
                m == features@.len(),
                fm == features_model(features@),
                rings_in_range(fm),
                edges@ == related_pairs(overlap_relation(fm), p as int, m as int),
                forall|k: int| 0 <= k < edges@.len() ==> (#[trigger] edges@[k]).0 < m && edges@[k].1 < m,
            decreases m - p,
        {
            let mut q: usize = p + 1;
            while q < m
                invariant
                    p < m,
                    p + 1 <= q <= m,
                    m == features@.len(),
                    fm == features_model(features@),
                    rings_in_range(fm),
                    edges@ == related_pairs(overlap_relation(fm), p as int, m as int) + row_pairs(
                        overlap_relation(fm),
                        p as int,
                        q as int,
                    ),
                    forall|k: int| 0 <= k < edges@.len() ==> (#[trigger] edges@[k]).0 < m && edges@[k].1 < m,
                decreases m - q,
            {
                proof {
                    let pair = seq![features@[p as int]@, features@[q as int]@];
                    assert(pair[0] == fm[p as int] && pair[1] == fm[q as int]);
                    assert forall|i: int| 0 <= i < pair.len() implies match ring_of(#[trigger] pair[i]) {
                        Some(r) => ring_in_range(r),
                        None => true,
                    } by {
                        if i == 0 {
                            assert(pair[i] == fm[p as int]);
                        } else {
                            assert(pair[i] == fm[q as int]);
                        }
                    }
                }
                let over = features_overlap(&features[p], &features[q]);
                proof {
                    assert(over == overlap_relation(fm)(p as int, q as int));
                }
                if over {
                    edges.push((p, q));
                }
                proof {
                    let rel = overlap_relation(fm);
                    assert(row_pairs(rel, p as int, q + 1) == row_pairs(rel, p as int, q as int) + if rel(p as int, q as int) {
                        seq![(p, q)]
                    } else {
                        Seq::<(usize, usize)>::empty()
                    });
                    assert(edges@ =~= related_pairs(rel, p as int, m as int) + row_pairs(rel, p as int, q + 1));
                }
                q = q + 1;
            }
            p = p + 1;
        }
        components(m, &edges)
    }

    /// Groups of positions in `members` turned into groups of the indices held there.
    fn lift_groups(members: &Vec<usize>, local: &Vec<Vec<usize>>) -> (r: Vec<Vec<usize>>)
        requires
            forall|g: int, k: int| 0 <= g < local@.len() && 0 <= k < local@[g]@.len() ==> #[trigger] local@[g]@[k] < members@.len(),
        ensures
            groups_model(r@) == lift(members@, groups_model(local@)),
    {
        let mut r: Vec<Vec<usize>> = Vec::new();
        let mut g: usize = 0;
        while g < local.len()
            invariant
                g <= local@.len(),
                forall|h: int, k: int| 0 <= h < local@.len() && 0 <= k < local@[h]@.len() ==> #[trigger] local@[h]@[k] < members@.len(),
                r@.len() == g,
                forall|h: int| 0 <= h < g ==> (#[trigger] r@[h])@ == local@[h]@.map_values(|k: usize| members@[k as int]),
            decreases local@.len() - g,
        {
            let group = &local[g];
            let mut lifted: Vec<usize> = Vec::new();
            let mut k: usize = 0;
            while k < group.len()
                invariant
                    k <= group@.len(),
                    group == local@[g as int],
                    forall|h: int, j: int| 0 <= h < local@.len() && 0 <= j < local@[h]@.len() ==> #[trigger] local@[h]@[j] < members@.len(),
                    g < local@.len(),
                    lifted@ == group@.subrange(0, k as int).map_values(|j: usize| members@[j as int]),
                decreases group@.len() - k,
            {
                assert(group@[k as int] < members@.len());
                lifted.push(members[group[k]]);
                k = k + 1;
                assert(lifted@ =~= group@.subrange(0, k as int).map_values(|j: usize| members@[j as int]));
            }
            assert(group@.subrange(0, group@.len() as int) =~= group@);
            r.push(lifted);
            g = g + 1;
        }
        assert(groups_model(r@) =~= lift(members@, groups_model(local@)));
        r
    }

    /// Appends to `out` the merge of each of `groups` of `features`, all of `folder`.
    fn merge_each(
        features: &Vec<OutlineFeature>,
        groups: &Vec<Vec<usize>>,
        folder: &Option<String>,
        out: &mut Vec<OutlineFeature>,
    )
        requires
            forall|g: int, k: int| 0 <= g < groups@.len() && 0 <= k < groups@[g]@.len() ==> #[trigger] groups@[g]@[k] < features@.len(),
            rings_in_range(features_model(features@)),
            rings_in_range(features_model(old(out)@)),
        ensures
            features_model(final(out)@) == features_model(old(out)@) + merge_groups(
                features_model(features@),
                groups_model(groups@),
                text_model(*folder),
            ),
            rings_in_range(features_model(final(out)@)),
    {
        let ghost fm = features_model(features@);
        let ghost gm = groups_model(groups@);
        let ghost start = features_model(out@);
        let mut g: usize = 0;
        while g < groups.len()
            invariant
                g <= groups@.len(),
                fm == features_model(features@),
                gm == groups_model(groups@),
                forall|h: int, k: int| 0 <= h < groups@.len() && 0 <= k < groups@[h]@.len() ==> #[trigger] groups@[h]@[k] < features@.len(),
                rings_in_range(fm),
                features_model(out@) == start + merge_groups(fm, gm.subrange(0, g as int), text_model(*folder)),
                rings_in_range(features_model(out@)),
            decreases groups@.len() - g,
        {
            let ghost before = features_model(out@);
            proof {
                assert(gm.subrange(0, g + 1).drop_last() =~= gm.subrange(0, g as int));
                assert(gm.subrange(0, g + 1).last() == groups@[g as int]@);
            }
            let merged = Self::merge_group(features, &groups[g], folder);
            if let Some(f) = merged {
                let ghost fv = f@;
                out.push(f);
                proof {
                    assert(features_model(out@) =~= before.push(fv));
                    assert forall|i: int| 0 <= i < features_model(out@).len() implies match ring_of(#[trigger] features_model(out@)[i]) {
                        Some(r) => ring_in_range(r),
                        None => true,
                    } by {
                        if i < before.len() {
                            assert(features_model(out@)[i] == before[i]);
                        } else {
                            assert(features_model(out@)[i] == seq![fv][0]);
                        }
                    }
                }
            }
            g = g + 1;
        }
        assert(gm.subrange(0, groups@.len() as int) =~= gm);
    }

    /// Appends to `out` what merging the features `members` of `features` gives.
    fn merge_folder(
        features: &Vec<OutlineFeature>,
        members: &Vec<usize>,
        folder: &Option<String>,
        shared_vertex: bool,
        overlap: bool,
        out: &mut Vec<OutlineFeature>,
    )
        requires
            forall|k: int| 0 <= k < members@.len() ==> #[trigger] members@[k] < features@.len(),
            rings_in_range(features_model(features@)),
            rings_in_range(features_model(old(out)@)),
        ensures
            features_model(final(out)@).len() >= features_model(old(out)@).len(),
            features_model(final(out)@).subrange(0, features_model(old(out)@).len() as int) == features_model(old(out)@),
            folder_outcome(
                features_model(features@),
                text_model(*folder),
                members@,
                shared_vertex,
                overlap,
                features_model(final(out)@).subrange(features_model(old(out)@).len() as int, features_model(final(out)@).len() as int),
            ),
            rings_in_range(features_model(final(out)@)),
    {
        let ghost fm = features_model(features@);
        let ghost start = features_model(out@);
        if !shared_vertex && !overlap {
            let mut one: Vec<Vec<usize>> = Vec::new();
            one.push(members.clone());
            assert(groups_model(one@) =~= seq![members@]);
            Self::merge_each(features, &one, folder, out);
            proof {
                let now = features_model(out@);
                assert(now.subrange(start.len() as int, now.len() as int) =~= merge_groups(fm, seq![members@], text_model(*folder)));
            }
        } else {
            let local = Self::group_by_shared_vertex(features, members);
            let ghost lm = groups_model(local@);
            proof {
                assert forall|g: int, k: int| 0 <= g < local@.len() && 0 <= k < local@[g]@.len() implies #[trigger] local@[g]@[k] < members@.len() by {
                    assert(lm[g] == local@[g]@);
                    assert(lm[g][k] < members@.len());
                }
            }
            let lifted = Self::lift_groups(members, &local);
            proof {
                assert(groups_model(lifted@).len() == lifted@.len());
                assert(lm.len() == local@.len());
                assert forall|g: int, k: int| 0 <= g < lifted@.len() && 0 <= k < lifted@[g]@.len() implies #[trigger] lifted@[g]@[k] < features@.len() by {
                    assert(lifted@[g]@ == groups_model(lifted@)[g]);
                    assert(groups_model(lifted@)[g] == lm[g].map_values(|j: usize| members@[j as int]));
                    assert(lm[g] == local@[g]@);
                    assert(lm[g][k] < members@.len());
                }
            }
            if !overlap {
                Self::merge_each(features, &lifted, folder, out);
                proof {
                    let now = features_model(out@);
                    let added = now.subrange(start.len() as int, now.len() as int);
                    assert(added =~= merge_groups(fm, lift(members@, lm), text_model(*folder)));
                    assert(is_component_partition(members@.len(), shared_vertex_pairs(pick(fm, members@)), lm));
                    assert(folder_outcome(fm, text_model(*folder), members@, shared_vertex, overlap, added));
                }
            } else {
                let mut firsts: Vec<OutlineFeature> = Vec::new();
                assert(features_model(firsts@) =~= Seq::<FeatureModel>::empty());
                Self::merge_each(features, &lifted, folder, &mut firsts);
                let groups = Self::group_by_overlap(&firsts);
                let ghost om = groups_model(groups@);
                proof {
                    assert forall|g: int, k: int| 0 <= g < groups@.len() && 0 <= k < groups@[g]@.len() implies #[trigger] groups@[g]@[k] < firsts@.len() by {
                        assert(groups@[g]@ == om[g]);
                        assert(om[g][k] < firsts@.len());
                    }
                }
                Self::merge_each(&firsts, &groups, folder, out);
                proof {
                    let fr = features_model(firsts@);
                    let now = features_model(out@);
                    let added = now.subrange(start.len() as int, now.len() as int);
                    assert(fr =~= merge_groups(fm, lift(members@, lm), text_model(*folder)));
                    assert(added =~= merge_groups(fr, om, text_model(*folder)));
                    assert(is_component_partition(fr.len(), overlapping_pairs(fr), om));
                    assert(overlap_outcome(fr, text_model(*folder), added));
                    assert(is_component_partition(members@.len(), shared_vertex_pairs(pick(fm, members@)), lm));
                    assert(folder_outcome(fm, text_model(*folder), members@, shared_vertex, overlap, added));
                }
            }
        }
        proof {
            let now = features_model(out@);
            assert(now.subrange(0, start.len() as int) =~= start);
        }
    }

    /// Merges the features `members` of `features`, all of `folder`: their rings
    /// folded into one convex hull, their properties aggregated. Nothing comes out
    /// when the hull has fewer than four points.
    fn merge_group(
        features: &Vec<OutlineFeature>,
        members: &Vec<usize>,
        folder: &Option<String>,
    ) -> (r: Option<OutlineFeature>)
        requires
            forall|k: int| 0 <= k < members@.len() ==> #[trigger] members@[k] < features@.len(),
            rings_in_range(features_model(features@)),
        ensures
            feature_option_model(r) == merged_feature(
                pick(features_model(features@), members@),
                text_model(*folder),
            ),
            r matches Some(f) ==> rings_in_range(seq![f@]),
    {
        let ghost fm = features_model(features@);
        let mut ring: Vec<GridPoint> = Vec::new();
        let mut k: usize = 0;
        while k < members.len()
            invariant
                k <= members@.len(),
                fm == features_model(features@),
                forall|j: int| 0 <= j < members@.len() ==> #[trigger] members@[j] < features@.len(),
                rings_in_range(fm),
                ring@ == fold_hull(pick(fm, members@.subrange(0, k as int))),
                ring_in_range(ring@),
            decreases members@.len() - k,
        {
            let ghost prefix = pick(fm, members@.subrange(0, k + 1));
            proof {
                assert(prefix.drop_last() =~= pick(fm, members@.subrange(0, k as int)));
                assert(prefix.last() == fm[members@[k as int] as int]);
                assert(fm[members@[k as int] as int] == features@[members@[k as int] as int]@);
            }
            let i = members[k];
            if let Some(Geometry::Polygon(r)) = &features[i].geometry {
                assert(ring_in_range(r@)) by {
                    assert(ring_of(fm[i as int]) == Some(r@));
                }
                let mut points: Vec<GridPoint> = Vec::new();
                let mut j: usize = 0;
                while j < ring.len()
                    invariant
                        j <= ring@.len(),
                        points@ == ring@.subrange(0, j as int),
                    decreases ring@.len() - j,
                {
                    points.push(ring[j]);
                    j = j + 1;
                    assert(points@ =~= ring@.subrange(0, j as int));
                }
                let mut j: usize = 0;
                while j < r.len()
                    invariant
                        j <= r@.len(),
                        points@ == ring@ + r@.subrange(0, j as int),
                    decreases r@.len() - j,
                {
                    points.push(r[j]);
                    j = j + 1;
                    assert(points@ =~= ring@ + r@.subrange(0, j as int));
                }
                assert(points@ =~= ring@ + r@);
                assert(ring_in_range(points@)) by {
                    assert forall|p: int| 0 <= p < points@.len() implies crate::geometry::point_in_range(#[trigger] points@[p]) by {
                        if p >= ring@.len() {
                            assert(points@[p] == r@[p - ring@.len()]);
                        }
                    }
                }
                ring = convex_hull(&points);
            }
            k = k + 1;
        }
        assert(members@.subrange(0, members@.len() as int) =~= members@);
        if ring.len() < 4 {
            return None;
        }
        let mut props: Vec<Property> = Vec::new();
        if let Some(d) = folder {
            props.push(Property { key: "SourceFileDir".to_string(), value: PropertyValue::Text(d.clone()) });
        }
        assert(properties_model(props@) =~= crate::las_feature_collection::folder_properties(text_model(*folder)));
        let ghost start = properties_model(props@);
        let mut k: usize = 0;
        while k < members.len()
            invariant
                k <= members@.len(),
                fm == features_model(features@),
                forall|j: int| 0 <= j < members@.len() ==> #[trigger] members@[j] < features@.len(),
                properties_model(props@) == fold_properties(start, pick(fm, members@.subrange(0, k as int))),
            decreases members@.len() - k,
        {
            let ghost prefix = pick(fm, members@.subrange(0, k + 1));
            proof {
                assert(prefix.drop_last() =~= pick(fm, members@.subrange(0, k as int)));
                assert(prefix.last() == fm[members@[k as int] as int]);
            }
            fold_feature_properties(&mut props, &features[members[k]].properties);
            k = k + 1;
        }
        let ghost ring_model = ring@;
        let merged = OutlineFeature { geometry: Some(Geometry::Polygon(ring)), properties: props };
        assert(ring_of(merged@) == Some(ring_model));
        Some(merged)
    }
}


proof fn lemma_pair_edges(a: FeatureModel, b: FeatureModel)
    ensures
        shared_vertex_pairs(seq![a, b]) == if shares_vertex(a, b) {
            seq![(0usize, 1usize)]
        } else {
            Seq::<(usize, usize)>::empty()
        },
{
    let fs = seq![a, b];
    let rel = vertex_relation(fs);
    assert(rel(0, 1) == shares_vertex(a, b));
    assert(row_pairs(rel, 0, 1) == Seq::<(usize, usize)>::empty());
    assert(row_pairs(rel, 1, 2) == Seq::<(usize, usize)>::empty());
    assert(related_pairs(rel, 0, 2) == Seq::<(usize, usize)>::empty());
    assert(fs.len() == 2);
    assert(shared_vertex_pairs(fs) == related_pairs(rel, 2, 2));
    assert(related_pairs(rel, 2, 2) == related_pairs(rel, 1, 2) + row_pairs(rel, 1, 2));
    assert(related_pairs(rel, 1, 2) == related_pairs(rel, 0, 2) + row_pairs(rel, 0, 2));
    assert(shared_vertex_pairs(fs) =~= related_pairs(rel, 0, 2) + row_pairs(rel, 0, 2) + row_pairs(rel, 1, 2));
    if shares_vertex(a, b) {
        assert(shared_vertex_pairs(fs) =~= seq![(0usize, 1usize)]);
    } else {
        assert(shared_vertex_pairs(fs) =~= Seq::<(usize, usize)>::empty());
    }
}

/// Two polygon features that share a vertex form one shared-vertex group.
pub proof fn sharing_pair_is_one_group(a: FeatureModel, b: FeatureModel, groups: Seq<Seq<usize>>)
    requires
        shares_vertex(a, b),
        is_component_partition(2, shared_vertex_pairs(seq![a, b]), groups),
    ensures
        groups == seq![seq![0usize, 1usize]],
{
    let edges = shared_vertex_pairs(seq![a, b]);
    lemma_pair_edges(a, b);
    assert(edges[0] == (0usize, 1usize));
    assert(edges[0].0 == 0 && edges[0].1 == 1);
    lemma_edge_connected(edges, 0, 1);
    lemma_connected_sym(edges, 0, 1);
    lemma_connected_refl(edges, 0);
    lemma_connected_refl(edges, 1);
    assert(in_some_group(groups, 0));
    assert(in_some_group(groups, 1));
    let (g0, k0) = choose|g: int, k: int| 0 <= g < groups.len() && 0 <= k < groups[g].len() && #[trigger] groups[g][k] == 0;
    let (g1, k1) = choose|g: int, k: int| 0 <= g < groups.len() && 0 <= k < groups[g].len() && #[trigger] groups[g][k] == 1;
    assert(connected(edges, groups[g0][k0] as int, groups[g1][k1] as int));
    assert(g0 == g1);
    assert forall|h: int| #![trigger groups[h]] 0 <= h < groups.len() implies h == g0 by {
        let x = groups[h][0];
        assert(x < 2);
        assert(connected(edges, groups[h][0] as int, groups[g0][k0] as int));
    }
    if groups.len() > 1 {
        assert(groups[0].len() > 0);
        assert(groups[1].len() > 0);
    }
    assert(groups.len() == 1);
    assert(g0 == 0);
    let g = groups[0];
    if g.len() >= 3 {
        assert(g[0] < g[1] && g[1] < g[2] && g[2] < 2);
    }
    assert(k0 != k1);
    assert(g.len() == 2);
    if k0 == 1 {
        assert(g[0] < g[1]);
    }
    assert(g =~= seq![0usize, 1usize]);
    assert(groups =~= seq![seq![0usize, 1usize]]);
}

/// Two features that share no vertex stay in shared-vertex groups of their own.
pub proof fn apart_pair_is_two_groups(a: FeatureModel, b: FeatureModel, groups: Seq<Seq<usize>>)
    requires
        !shares_vertex(a, b),
        is_component_partition(2, shared_vertex_pairs(seq![a, b]), groups),
    ensures
        groups == seq![seq![0usize], seq![1usize]],
{
    let edges = shared_vertex_pairs(seq![a, b]);
    lemma_pair_edges(a, b);
    assert(edges.len() == 0);
    assert(!connected(edges, 0, 1)) by {
        if connected(edges, 0, 1) {
            let p = choose|p: Seq<int>| #[trigger] is_walk(edges, p) && p[0] == 0 && p.last() == 1;
            assert(p.len() >= 2);
            assert(crate::components::is_edge(edges, p[0], p[1]));
        }
    }
    assert(!connected(edges, 1, 0)) by {
        if connected(edges, 1, 0) {
            lemma_connected_sym(edges, 1, 0);
        }
    }
    lemma_connected_refl(edges, 0);
    lemma_connected_refl(edges, 1);
    assert(in_some_group(groups, 0));
    assert(in_some_group(groups, 1));
    let (g0, k0) = choose|g: int, k: int| 0 <= g < groups.len() && 0 <= k < groups[g].len() && #[trigger] groups[g][k] == 0;
    let (g1, k1) = choose|g: int, k: int| 0 <= g < groups.len() && 0 <= k < groups[g].len() && #[trigger] groups[g][k] == 1;
    assert(g0 != g1) by {
        if g0 == g1 {
            assert(connected(edges, groups[g0][k0] as int, groups[g1][k1] as int));
        }
    }
    // a group holds one index only
    assert forall|h: int, k: int| 0 <= h < groups.len() && 0 <= k < groups[h].len() implies
        (groups[h][k] == 0 ==> h == g0) && (groups[h][k] == 1 ==> h == g1) by {
        if groups[h][k] == 0 {
            assert(connected(edges, groups[h][k] as int, groups[g0][k0] as int));
        }
        if groups[h][k] == 1 {
            assert(connected(edges, groups[h][k] as int, groups[g1][k1] as int));
        }
    }
    assert forall|h: int| #![trigger groups[h]] 0 <= h < groups.len() implies h == g0 || h == g1 by {
        assert(groups[h][0] < 2);
    }
    assert(groups.len() == 2) by {
        if groups.len() > 2 {
            assert(groups[0].len() > 0);
            assert(groups[1].len() > 0);
            assert(groups[2].len() > 0);
        }
    }
    assert(groups[g0].len() == 1) by {
        if groups[g0].len() > 1 {
            let other = if k0 == 0 { 1int } else { 0int };
            assert(groups[g0][other] < 2);
            assert(groups[g0][other] != 0) by {
                if other < k0 {
                    assert(groups[g0][other] < groups[g0][k0]);
                } else {
                    assert(groups[g0][k0] < groups[g0][other]);
                }
            }
        }
    }
    assert(groups[g1].len() == 1) by {
        if groups[g1].len() > 1 {
            let other = if k1 == 0 { 1int } else { 0int };
            assert(groups[g1][other] < 2);
            assert(groups[g1][other] != 1) by {
                if other < k1 {
                    assert(groups[g1][other] < groups[g1][k1]);
                } else {
                    assert(groups[g1][k1] < groups[g1][other]);
                }
            }
        }
    }
    assert(g0 == 0) by {
        if g0 == 1 {
            assert(groups[0][0] < groups[1][0]);
        }
    }
    assert(groups[0] =~= seq![0usize]);
    assert(groups[1] =~= seq![1usize]);
    assert(groups =~= seq![seq![0usize], seq![1usize]]);
}


/// The point count a feature carries under `number_of_points`.
pub open spec fn point_count(f: FeatureModel) -> Option<u64> {
    match lookup(f.properties, "number_of_points"@) {
        Some(ValueModel::Number(n)) => Some(n),
        _ => None,
    }
}

/// The sum of the point counts of `fs`, saturating.
pub open spec fn total_points(fs: Seq<FeatureModel>) -> u64
    decreases fs.len(),
{
    if fs.len() == 0 {
        0
    } else {
        total_points(fs.drop_last()).saturating_add(
            match point_count(fs.last()) {
                Some(n) => n,
                None => 0,
            },
        )
    }
}

/// Merging features that each carry a point count gives a record whose point count
/// is the sum of theirs (saturating at the largest `u64`) and whose count of merged
/// features is their number.
pub proof fn aggregated_counts(fs: Seq<FeatureModel>, folder: Option<Seq<char>>)
    requires
        0 < fs.len() <= u64::MAX,
        forall|i: int| 0 <= i < fs.len() ==> #[trigger] point_count(fs[i]) is Some,
    ensures
        lookup(fold_properties(folder_properties(folder), fs), "number_of_points"@)
            == Some(ValueModel::Number(total_points(fs))),
        lookup(fold_properties(folder_properties(folder), fs), "number_of_features"@)
            == Some(ValueModel::Number(fs.len() as u64)),
    decreases fs.len(),
{
    let np = "number_of_points"@;
    let nf = "number_of_features"@;
    reveal_strlit("number_of_points");
    reveal_strlit("number_of_features");
    reveal_strlit("SourceFileDir");
    assert(np != nf) by {
        assert(np.len() != nf.len());
    }
    let init = folder_properties(folder);
    let prev = fold_properties(init, fs.drop_last());
    if fs.len() == 1 {
        assert(fs.drop_last().len() == 0);
        assert(prev == init);
        assert(lookup(init, np) is None && lookup(init, nf) is None) by {
            crate::properties::lemma_key_index_facts(init, np);
            crate::properties::lemma_key_index_facts(init, nf);
            if init.len() > 0 {
                assert(init[0].0 == "SourceFileDir"@);
                assert(init[0].0.len() != np.len());
                assert(init[0].0.len() != nf.len());
            }
        }
    } else {
        let rest = fs.drop_last();
        assert forall|i: int| 0 <= i < rest.len() implies #[trigger] point_count(rest[i]) is Some by {
            assert(rest[i] == fs[i]);
        }
        aggregated_counts(rest, folder);
    }
    let last = fs.last();
    assert(point_count(fs[fs.len() - 1]) is Some);
    let n = point_count(last)->0;
    let props = last.properties;
    reveal(count_feature);
    let m1 = crate::properties::add_count(prev, nf, 1);
    lemma_add_count(prev, nf, 1, np);
    lemma_add_count(m1, np, n, nf);
    let m2 = crate::properties::add_count(m1, np, n);
    assert(count_feature(prev, props) == m2);
    assert(total_points(fs) == total_points(fs.drop_last()).saturating_add(n));
    if fs.len() == 1 {
        assert(total_points(fs.drop_last()) == 0);
        assert(lookup(m2, np) == Some(ValueModel::Number(n)));
    } else {
        assert(lookup(m1, np) == Some(ValueModel::Number(total_points(fs.drop_last()))));
    }
    assert(lookup(m2, np) == Some(ValueModel::Number(total_points(fs))));
    lemma_fold_entries_keeps_count(m2, props, np, total_points(fs));
    lemma_fold_entries_keeps_count(m2, props, nf, fs.len() as u64);
}

} // verus!
