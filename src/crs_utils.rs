//! Which coordinate reference system a tile uses: read from its projection
//! records, decoded from a GeoTIFF key directory, or guessed from a point sample.
use rand::Rng;
use vstd::prelude::*;
use vstd::slice::slice_subrange;
use vstd::string::StrSliceExecFns;
use crate::text::{
    before_first, first_non_space, is_white_space, kept_len, occurs_at, cut_before, decimal, push_decimal, same_text, strip_nul_str,
    strip_trailing_nul, trim_spaces, trim_str,
};

verus! {

broadcast use vstd::string::group_string_axioms;

/// A coordinate reference system as a tile declares it.
#[derive(Debug, PartialEq)]
pub enum Crs {
    /// Well-known text.
    Wkt(String),
    /// GeoTIFF key directory, double parameters and ASCII parameters.
    GeoTiff(Vec<u8>, Option<Vec<u8>>, Option<Vec<u8>>),
}

pub enum CrsModel {
    Wkt(Seq<char>),
    GeoTiff(Seq<u8>, Option<Seq<u8>>, Option<Seq<u8>>),
}

pub open spec fn bytes_model(b: Option<Vec<u8>>) -> Option<Seq<u8>> {
    match b {
        Some(v) => Some(v@),
        None => None,
    }
}

impl View for Crs {
    type V = CrsModel;

    open spec fn view(&self) -> CrsModel {
        match self {
            Crs::Wkt(t) => CrsModel::Wkt(t@),
            Crs::GeoTiff(k, d, a) => CrsModel::GeoTiff(k@, bytes_model(*d), bytes_model(*a)),
        }
    }
}

/// Why a reference system could not be had for a tile.
#[derive(Debug)]
pub enum CrsError {
    GeoTiff(String),
    Guess,
    DecoderError(String),
    GeoKeyDirectoryTagError(String),
    CrsNotFoundError,
    MissingCrs,
    UnableToGuessCrs,
}

/// A variable-length record of a tile header: namespace, record id and payload.
#[derive(Debug)]
pub struct VariableLengthRecord {
    pub user_id: String,
    pub record_id: u16,
    pub data: Vec<u8>,
}

/// Text that `String::from_utf8_lossy` makes of some bytes.
pub uninterp spec fn utf8_lossy(b: Seq<u8>) -> Seq<char>;

/// Relies on `String::from_utf8_lossy`: its text depends on the bytes alone, and
/// valid UTF-8 is decoded unchanged.
#[verifier::external_body]
fn text_from_utf8_lossy(b: &[u8]) -> (r: String)
    ensures
        r@ == utf8_lossy(b@),
        vstd::utf8::valid_utf8(b@) ==> r@ == vstd::utf8::decode_utf8(b@),
{
    String::from_utf8_lossy(b).into_owned()
}

/// The text that bytes decode to: valid UTF-8 as it stands, other bytes as
/// `String::from_utf8_lossy` replaces them.
pub open spec fn utf8_text(b: Seq<u8>) -> Seq<char> {
    if vstd::utf8::valid_utf8(b) {
        vstd::utf8::decode_utf8(b)
    } else {
        utf8_lossy(b)
    }
}

/// The text of a well-known-text payload: decoded, trailing NULs cut, then trimmed.
pub open spec fn wkt_text(data: Seq<u8>) -> Seq<char> {
    trim_spaces(strip_trailing_nul(utf8_text(data)))
}

pub open spec fn is_projection_namespace(user_id: Seq<char>) -> bool {
    user_id == "LASF_Projection"@
}

pub open spec fn is_wkt_namespace(user_id: Seq<char>) -> bool {
    user_id == "LASF_Projection"@ || user_id == "liblas"@
}

/// The well-known text that record `r` declares, if it declares a non-empty one.
pub open spec fn record_wkt(r: VariableLengthRecord) -> Option<Seq<char>> {
    if is_wkt_namespace(r.user_id@) && (r.record_id == 2111 || r.record_id == 2112)
        && wkt_text(r.data@).len() > 0 {
        Some(wkt_text(r.data@))
    } else {
        None
    }
}

/// The first non-empty well-known text among `recs`.
pub open spec fn first_wkt(recs: Seq<VariableLengthRecord>) -> Option<Seq<char>>
    decreases recs.len(),
{
    if recs.len() == 0 {
        None
    } else if record_wkt(recs[0]) is Some {
        record_wkt(recs[0])
    } else {
        first_wkt(recs.drop_first())
    }
}

/// The payload of the last projection record of `recs` with id `id`.
pub open spec fn last_projection_record(recs: Seq<VariableLengthRecord>, id: u16) -> Option<Seq<u8>>
    decreases recs.len(),
{
    if recs.len() == 0 {
        None
    } else if is_projection_namespace(recs.last().user_id@) && recs.last().record_id == id {
        Some(recs.last().data@)
    } else {
        last_projection_record(recs.drop_last(), id)
    }
}

/// The reference system a tile declares: well-known text (first match over both
/// record pools) when the header flags it, else the GeoTIFF records of the primary pool.
pub open spec fn declared_crs(
    has_wkt_crs: bool,
    vlrs: Seq<VariableLengthRecord>,
    evlrs: Seq<VariableLengthRecord>,
) -> Option<CrsModel> {
    if has_wkt_crs {
        match first_wkt(vlrs + evlrs) {
            Some(t) => Some(CrsModel::Wkt(t)),
            None => None,
        }
    } else {
        match last_projection_record(vlrs, 34735) {
            Some(k) => Some(
                CrsModel::GeoTiff(
                    k,
                    last_projection_record(vlrs, 34736),
                    last_projection_record(vlrs, 34737),
                ),
            ),
            None => None,
        }
    }
}


/// The well-known text that `r` declares, if it declares a non-empty one.
fn wkt_of_record(r: &VariableLengthRecord) -> (t: Option<String>)
    ensures
        match t {
            Some(t) => record_wkt(*r) == Some(t@),
            None => record_wkt(*r) is None,
        },
{
    let namespace_ok = same_text(r.user_id.as_str(), "LASF_Projection") || same_text(
        r.user_id.as_str(),
        "liblas",
    );
    if !namespace_ok || !(r.record_id == 2111 || r.record_id == 2112) {
        return None;
    }
    let raw = text_from_utf8_lossy(r.data.as_slice());
    let without_nul = strip_nul_str(raw.as_str());
    let text = trim_str(without_nul.as_str());
    if text.as_str().unicode_len() == 0 {
        None
    } else {
        Some(text)
    }
}

proof fn lemma_first_wkt_split(recs: Seq<VariableLengthRecord>, i: int)
    requires
        0 <= i < recs.len(),
        forall|j: int| 0 <= j < i ==> record_wkt(#[trigger] recs[j]) is None,
    ensures
        first_wkt(recs) == first_wkt(recs.subrange(i, recs.len() as int)),
    decreases i,
{
    if i == 0 {
        assert(recs.subrange(0, recs.len() as int) =~= recs);
    } else {
        let t = recs.drop_first();
        assert forall|j: int| 0 <= j < i - 1 implies record_wkt(#[trigger] t[j]) is None by {
            assert(record_wkt(recs[j + 1]) is None);
        }
        lemma_first_wkt_split(t, i - 1);
        assert(t.subrange(i - 1, t.len() as int) =~= recs.subrange(i, recs.len() as int));
    }
}

proof fn lemma_first_wkt_none(recs: Seq<VariableLengthRecord>)
    requires
        forall|j: int| 0 <= j < recs.len() ==> record_wkt(#[trigger] recs[j]) is None,
    ensures
        first_wkt(recs) is None,
    decreases recs.len(),
{
    if recs.len() > 0 {
        let t = recs.drop_first();
        assert forall|j: int| 0 <= j < t.len() implies record_wkt(#[trigger] t[j]) is None by {
            assert(record_wkt(recs[j + 1]) is None);
        }
        lemma_first_wkt_none(t);
    }
}

/// The first non-empty well-known text among `vlrs` then `evlrs`.
fn find_wkt(vlrs: &Vec<VariableLengthRecord>, evlrs: &Vec<VariableLengthRecord>) -> (t: Option<String>)
    ensures
        match t {
            Some(t) => first_wkt(vlrs@ + evlrs@) == Some(t@),
            None => first_wkt(vlrs@ + evlrs@) is None,
        },
{
    let ghost all = vlrs@ + evlrs@;
    let mut i: usize = 0;
    while i < vlrs.len()
        invariant
            i <= vlrs.len(),
            all == vlrs@ + evlrs@,
            forall|j: int| 0 <= j < i ==> record_wkt(#[trigger] all[j]) is None,
        decreases vlrs.len() - i,
    {
        let found = wkt_of_record(&vlrs[i]);
        if found.is_some() {
            proof {
                assert(all[i as int] == vlrs@[i as int]);
                lemma_first_wkt_split(all, i as int);
            }
            return found;
        }
        assert(all[i as int] == vlrs@[i as int]);
        i = i + 1;
    }
    let mut e: usize = 0;
    while e < evlrs.len()
        invariant
            e <= evlrs.len(),
            all == vlrs@ + evlrs@,
            forall|j: int| 0 <= j < vlrs.len() + e ==> record_wkt(#[trigger] all[j]) is None,
        decreases evlrs.len() - e,
    {
        let found = wkt_of_record(&evlrs[e]);
        if found.is_some() {
            proof {
                assert(all[vlrs.len() + e] == evlrs@[e as int]);
                lemma_first_wkt_split(all, vlrs.len() + e);
            }
            return found;
        }
        assert(all[vlrs.len() + e] == evlrs@[e as int]);
        e = e + 1;
    }
    proof {
        lemma_first_wkt_none(all);
    }
    None
}

/// The payload of the last projection record of `vlrs` with id `id`.
fn find_last_projection_record(vlrs: &Vec<VariableLengthRecord>, id: u16) -> (d: Option<Vec<u8>>)
    ensures
        bytes_model(d) == last_projection_record(vlrs@, id),
{
    let mut i: usize = vlrs.len();
    assert(vlrs@.subrange(0, vlrs@.len() as int) =~= vlrs@);
    while i > 0
        invariant
            i <= vlrs.len(),
            last_projection_record(vlrs@, id) == last_projection_record(
                vlrs@.subrange(0, i as int),
                id,
            ),
        decreases i,
    {
        let r = &vlrs[i - 1];
        let ghost pre = vlrs@.subrange(0, i as int);
        assert(pre.last() == vlrs@[i - 1]);
        assert(pre.drop_last() =~= vlrs@.subrange(0, i - 1));
        if same_text(r.user_id.as_str(), "LASF_Projection") && r.record_id == id {
            return Some(r.data.clone());
        }
        i = i - 1;
    }
    None
}

/// The reference system that a tile header declares, from its header flag and its
/// variable-length records (`vlrs`) and extended records (`evlrs`).
pub fn extract_crs_from_records(
    has_wkt_crs: bool,
    vlrs: &Vec<VariableLengthRecord>,
    evlrs: &Vec<VariableLengthRecord>,
) -> (r: Option<Crs>)
    ensures
        match r {
            Some(c) => declared_crs(has_wkt_crs, vlrs@, evlrs@) == Some(c@),
            None => declared_crs(has_wkt_crs, vlrs@, evlrs@) is None,
        },
{
    proof {
        assert(vlrs@.subrange(0, vlrs@.len() as int) =~= vlrs@);
    }
    if has_wkt_crs {
        match find_wkt(vlrs, evlrs) {
            Some(t) => Some(Crs::Wkt(t)),
            None => None,
        }
    } else {
        match find_last_projection_record(vlrs, 34735) {
            Some(k) => {
                let d = find_last_projection_record(vlrs, 34736);
                let a = find_last_projection_record(vlrs, 34737);
                Some(Crs::GeoTiff(k, d, a))
            },
            None => None,
        }
    }
}


/// The key directory read as little-endian 16-bit values (a trailing odd byte is ignored).
pub open spec fn key_directory_values(b: Seq<u8>) -> Seq<u16> {
    Seq::new(b.len() / 2, |i: int| (b[2 * i] as int + 256 * b[2 * i + 1] as int) as u16)
}

/// The output after applying key group `i` to `cur`, or `None` when the group or
/// the parameter it points into lies beyond its buffer. Later groups overwrite earlier ones.
pub open spec fn apply_key(
    vals: Seq<u16>,
    i: int,
    doubles: Option<Seq<u8>>,
    ascii: Option<Seq<u8>>,
    cur: Seq<char>,
) -> Option<Seq<char>> {
    let base = 4 + 4 * i;
    if base + 3 >= vals.len() {
        None
    } else {
        let key_id = vals[base];
        let location = vals[base + 1];
        let count = vals[base + 2] as int;
        let offset = vals[base + 3] as int;
        if key_id == 2048 || key_id == 3072 {
            if offset != 32767 && offset != 65535 {
                Some("EPSG:"@ + decimal(offset as nat) + " "@)
            } else {
                Some(cur)
            }
        } else if key_id == 1026 && location == 34736 {
            match doubles {
                Some(d) => if offset < d.len() {
                    Some(decimal(d[offset] as nat))
                } else {
                    None
                },
                None => Some(cur),
            }
        } else if key_id == 1026 && location == 34737 {
            match ascii {
                Some(a) => if count >= 1 && offset + count - 1 <= a.len() {
                    Some(utf8_text(a.subrange(offset, offset + count - 1)))
                } else {
                    None
                },
                None => Some(cur),
            }
        } else {
            Some(cur)
        }
    }
}

/// The output after the first `k` key groups, or `None` on a bounds failure.
pub open spec fn apply_keys(
    vals: Seq<u16>,
    doubles: Option<Seq<u8>>,
    ascii: Option<Seq<u8>>,
    k: nat,
) -> Option<Seq<char>>
    decreases k,
{
    if k == 0 {
        Some(Seq::empty())
    } else {
        match apply_keys(vals, doubles, ascii, (k - 1) as nat) {
            Some(cur) => apply_key(vals, k - 1, doubles, ascii, cur),
            None => None,
        }
    }
}

/// The reference-system text that a GeoTIFF key directory names, or `None` when the
/// directory or a parameter it points into is too short.
pub open spec fn geotiff_crs_text(
    directory: Seq<u8>,
    doubles: Option<Seq<u8>>,
    ascii: Option<Seq<u8>>,
) -> Option<Seq<char>> {
    let vals = key_directory_values(directory);
    if vals.len() < 4 {
        None
    } else {
        match apply_keys(vals, doubles, ascii, vals[3] as nat) {
            Some(s) => Some(trim_spaces(before_first(s, " (EPSG:"@))),
            None => None,
        }
    }
}

/// Value `j` of the key directory.
fn key_value(directory: &[u8], j: usize) -> (v: u16)
    requires
        j < directory@.len() / 2,
    ensures
        v == key_directory_values(directory@)[j as int],
{
    let len = directory.len();
    assert(2 * j + 1 < directory@.len()) by (nonlinear_arith)
        requires
            j < directory@.len() / 2,
    ;
    (directory[2 * j] as u16) + (directory[2 * j + 1] as u16) * 256
}

proof fn lemma_apply_keys_fails_on(
    vals: Seq<u16>,
    doubles: Option<Seq<u8>>,
    ascii: Option<Seq<u8>>,
    i: nat,
    k: nat,
)
    requires
        i < k,
        apply_keys(vals, doubles, ascii, i) is Some,
        apply_key(vals, i as int, doubles, ascii, apply_keys(vals, doubles, ascii, i)->0) is None,
    ensures
        apply_keys(vals, doubles, ascii, k) is None,
    decreases k - i,
{
    if k > i + 1 {
        lemma_apply_keys_fails_on(vals, doubles, ascii, i, (k - 1) as nat);
    }
}

/// Text `"EPSG:<code> "`.
fn epsg_code_text(code: u16) -> (r: String)
    ensures
        r@ == "EPSG:"@ + decimal(code as nat) + " "@,
{
    let mut r = "EPSG:".to_string();
    push_decimal(&mut r, code as u64);
    r.append(" ");
    r
}

fn geotiff_error() -> (e: CrsError)
    ensures
        e is GeoTiff,
{
    CrsError::GeoTiff("key directory or parameter out of bounds".to_string())
}

/// Decodes a GeoTIFF key directory (with its optional double and ASCII parameters)
/// into the name or `EPSG:<code>` of the reference system it declares.
pub fn extract_crs_from_geotiff(
    geo_key_directory: &[u8],
    geo_double_params: Option<&[u8]>,
    geo_ascii_params: Option<&[u8]>,
) -> (r: Result<String, CrsError>)
    ensures
        match r {
            Ok(s) => geotiff_crs_text(
                geo_key_directory@,
                slice_model(geo_double_params),
                slice_model(geo_ascii_params),
            ) == Some(s@),
            Err(e) => geotiff_crs_text(
                geo_key_directory@,
                slice_model(geo_double_params),
                slice_model(geo_ascii_params),
            ) is None && e is GeoTiff,
        },
{
    let ghost doubles = slice_model(geo_double_params);
    let ghost ascii = slice_model(geo_ascii_params);
    let ghost vals = key_directory_values(geo_key_directory@);
    let n = geo_key_directory.len() / 2;
    if n < 4 {
        return Err(geotiff_error());
    }
    let num_keys = key_value(geo_key_directory, 3) as usize;
    let mut out = String::new();
    let mut i: usize = 0;
    while i < num_keys
        invariant
            i <= num_keys,
            num_keys == vals[3] as nat,
            n == vals.len(),
            n >= 4,
            vals == key_directory_values(geo_key_directory@),
            doubles == slice_model(geo_double_params),
            ascii == slice_model(geo_ascii_params),
            apply_keys(vals, doubles, ascii, i as nat) == Some(out@),
        decreases num_keys - i,
    {
        let base = 4 + 4 * i;
        if base + 3 >= n {
            proof {
                lemma_apply_keys_fails_on(vals, doubles, ascii, i as nat, num_keys as nat);
            }
            return Err(geotiff_error());
        }
        let key_id = key_value(geo_key_directory, base);
        let location = key_value(geo_key_directory, base + 1);
        let count = key_value(geo_key_directory, base + 2);
        let offset = key_value(geo_key_directory, base + 3);
        if key_id == 2048 || key_id == 3072 {
            if offset != 32767 && offset != 65535 {
                out = epsg_code_text(offset);
            }
        } else if key_id == 1026 && location == 34736 {
            if let Some(d) = geo_double_params {
                if (offset as usize) < d.len() {
                    out = String::new();
                    push_decimal(&mut out, d[offset as usize] as u64);
                } else {
                    proof {
                        lemma_apply_keys_fails_on(vals, doubles, ascii, i as nat, num_keys as nat);
                    }
                    return Err(geotiff_error());
                }
            }
        } else if key_id == 1026 && location == 34737 {
            if let Some(a) = geo_ascii_params {
                let end = offset as usize + count as usize;
                if count >= 1 && end - 1 <= a.len() {
                    out = text_from_utf8_lossy(slice_subrange(a, offset as usize, end - 1));
                } else {
                    proof {
                        lemma_apply_keys_fails_on(vals, doubles, ascii, i as nat, num_keys as nat);
                    }
                    return Err(geotiff_error());
                }
            }
        }
        i = i + 1;
    }
    let cut = cut_before(out.as_str(), " (EPSG:");
    Ok(trim_str(cut.as_str()))
}

pub open spec fn slice_model(b: Option<&[u8]>) -> Option<Seq<u8>> {
    match b {
        Some(v) => Some(v@),
        None => None,
    }
}


/// Whether a point (fixed-point, see `geometry`) lies strictly inside the
/// longitude/latitude box of EPSG:4326.
pub open spec fn in_geographic_box(p: (i64, i64)) -> bool {
    -1_800_000_000 < p.0 < 1_800_000_000 && -900_000_000 < p.1 < 900_000_000
}

/// Whether a point lies strictly inside the easting/northing box taken for EPSG:2193.
pub open spec fn in_projected_box(p: (i64, i64)) -> bool {
    8_000_000_000_000 < p.0 < 24_000_000_000_000 && 40_000_000_000_000 < p.1
        < 90_000_000_000_000
}

/// The reference system guessed from a point sample, if any.
pub open spec fn guessed_crs(points: Seq<(i64, i64)>) -> Option<Seq<char>> {
    if points.len() == 0 {
        None
    } else if forall|i: int| 0 <= i < points.len() ==> in_geographic_box(#[trigger] points[i]) {
        Some("EPSG:4326"@)
    } else if forall|i: int| 0 <= i < points.len() ==> in_projected_box(#[trigger] points[i]) {
        Some("EPSG:2193"@)
    } else {
        None
    }
}

/// Guesses the reference system of a tile from a sample of its points: EPSG:4326
/// when every point lies in the geographic box, else EPSG:2193 when every point lies
/// in the projected box.
pub fn guess_crs_from_points(points: &Vec<(i64, i64)>) -> (r: Result<String, CrsError>)
    ensures
        match r {
            Ok(s) => guessed_crs(points@) == Some(s@),
            Err(e) => guessed_crs(points@) is None && e is UnableToGuessCrs,
        },
{
    if points.len() == 0 {
        return Err(CrsError::UnableToGuessCrs);
    }
    let mut geographic = true;
    let mut projected = true;
    let mut i: usize = 0;
    while i < points.len()
        invariant
            i <= points.len(),
            geographic == forall|j: int| 0 <= j < i ==> in_geographic_box(#[trigger] points@[j]),
            projected == forall|j: int| 0 <= j < i ==> in_projected_box(#[trigger] points@[j]),
        decreases points.len() - i,
    {
        let (x, y) = points[i];
        if !(-1_800_000_000 < x && x < 1_800_000_000 && -900_000_000 < y && y < 900_000_000) {
            geographic = false;
        }
        if !(8_000_000_000_000 < x && x < 24_000_000_000_000 && 40_000_000_000_000 < y && y
            < 90_000_000_000_000) {
            projected = false;
        }
        if !geographic && !projected {
            return Err(CrsError::UnableToGuessCrs);
        }
        i = i + 1;
    }
    if geographic {
        Ok("EPSG:4326".to_string())
    } else if projected {
        Ok("EPSG:2193".to_string())
    } else {
        Err(CrsError::UnableToGuessCrs)
    }
}

/// Which points of a tile to read for a guess.
#[derive(Debug)]
pub enum SamplePlan {
    /// Read this many points from the start, in order.
    First(u64),
    /// Read the points at these indices.
    Indices(Vec<u64>),
}

/// Relies on rand's `Rng::gen_range` on the thread-local generator: a value in `[0, bound)`.
#[verifier::external_body]
fn random_index(bound: u64) -> (r: u64)
    requires
        bound > 0,
    ensures
        r < bound,
{
    rand::thread_rng().gen_range(0..bound)
}

/// Chooses the points to read for a guess from `total_points` points: the first
/// ones of a compressed tile (random access is slow there) or all of a small one;
/// otherwise `sample_size` indices drawn at random, with replacement.
pub fn plan_sample(compressed: bool, sample_size: u64, total_points: u64) -> (r: SamplePlan)
    ensures
        compressed ==> r == SamplePlan::First(
            if sample_size < total_points { sample_size } else { total_points },
        ),
        !compressed && sample_size >= total_points ==> r == SamplePlan::First(total_points),
        !compressed && sample_size < total_points ==> match r {
            SamplePlan::Indices(v) => v@.len() == sample_size && forall|i: int|
                0 <= i < v@.len() ==> #[trigger] v@[i] < total_points,
            SamplePlan::First(_) => false,
        },
{
    if compressed {
        return SamplePlan::First(if sample_size < total_points { sample_size } else { total_points });
    }
    if sample_size >= total_points {
        return SamplePlan::First(total_points);
    }
    let mut indices: Vec<u64> = Vec::new();
    let mut k: u64 = 0;
    while k < sample_size
        invariant
            k <= sample_size,
            sample_size < total_points,
            indices@.len() == k,
            forall|i: int| 0 <= i < indices@.len() ==> #[trigger] indices@[i] < total_points,
        decreases sample_size - k,
    {
        indices.push(random_index(total_points));
        k = k + 1;
    }
    SamplePlan::Indices(indices)
}

/// How a tile's reference system is to be had.
#[derive(Debug)]
pub enum CrsChoice {
    /// This reference-system text.
    Text(String),
    /// None is declared: guess it from a point sample.
    GuessFromPoints,
}

/// Decides a tile's reference-system text from what its header declares: well-known
/// text as is, a GeoTIFF directory decoded, trailing NULs cut either way. With none
/// declared, a guess is asked for when `guess_crs` is set, else the tile fails.
pub fn crs_choice(declared: Option<Crs>, guess_crs: bool) -> (r: Result<CrsChoice, CrsError>)
    ensures
        match declared {
            Some(Crs::Wkt(t)) => r matches Ok(CrsChoice::Text(s)) && s@ == strip_trailing_nul(t@),
            Some(Crs::GeoTiff(k, d, a)) => match geotiff_crs_text(k@, bytes_model(d), bytes_model(a)) {
                Some(t) => r matches Ok(CrsChoice::Text(s)) && s@ == strip_trailing_nul(t),
                None => r matches Err(CrsError::GeoTiff(_)),
            },
            None => if guess_crs {
                r matches Ok(CrsChoice::GuessFromPoints)
            } else {
                r matches Err(CrsError::MissingCrs)
            },
        },
{
    match declared {
        Some(Crs::Wkt(t)) => Ok(CrsChoice::Text(strip_nul_str(t.as_str()))),
        Some(Crs::GeoTiff(k, d, a)) => {
            let d_slice: Option<&[u8]> = match &d {
                Some(v) => Some(v.as_slice()),
                None => None,
            };
            let a_slice: Option<&[u8]> = match &a {
                Some(v) => Some(v.as_slice()),
                None => None,
            };
            match extract_crs_from_geotiff(k.as_slice(), d_slice, a_slice) {
                Ok(t) => Ok(CrsChoice::Text(strip_nul_str(t.as_str()))),
                Err(e) => Err(e),
            }
        },
        None => if guess_crs {
            Ok(CrsChoice::GuessFromPoints)
        } else {
            Err(CrsError::MissingCrs)
        },
    }
}


/// A tile whose header declares well-known text resolves to the trimmed text of its
/// first well-known-text record (over the primary, then the extended pool) whose text
/// is not empty.
pub proof fn declared_wkt_resolves(
    vlrs: Seq<VariableLengthRecord>,
    evlrs: Seq<VariableLengthRecord>,
    k: int,
)
    requires
        0 <= k < (vlrs + evlrs).len(),
        record_wkt((vlrs + evlrs)[k]) is Some,
        forall|j: int| 0 <= j < k ==> record_wkt(#[trigger] (vlrs + evlrs)[j]) is None,
    ensures
        declared_crs(true, vlrs, evlrs) == Some(CrsModel::Wkt(wkt_text((vlrs + evlrs)[k].data@))),
{
    let all = vlrs + evlrs;
    lemma_first_wkt_split(all, k);
    assert(all.subrange(k, all.len() as int)[0] == all[k]);
}

/// A tile that declares no well-known text and has a single record, a GeoTIFF key
/// directory, resolves to that directory without parameters.
pub proof fn key_directory_only_resolves(
    record: VariableLengthRecord,
    evlrs: Seq<VariableLengthRecord>,
)
    requires
        record.user_id@ == "LASF_Projection"@,
        record.record_id == 34735,
    ensures
        declared_crs(false, seq![record], evlrs) == Some(CrsModel::GeoTiff(record.data@, None, None)),
{
    let vlrs = seq![record];
    assert(vlrs.last() == record);
    assert(vlrs.drop_last() =~= Seq::<VariableLengthRecord>::empty());
    assert(last_projection_record(vlrs, 34735) == Some(record.data@));
    assert(last_projection_record(vlrs.drop_last(), 34736) is None);
    assert(last_projection_record(vlrs, 34736) is None);
    assert(last_projection_record(vlrs.drop_last(), 34737) is None);
    assert(last_projection_record(vlrs, 34737) is None);
}

/// A key directory whose header counts one key, that key naming geographic
/// reference system 4326, decodes to `EPSG:4326`, whatever the parameters.
pub proof fn geographic_key_decodes(
    directory: Seq<u8>,
    doubles: Option<Seq<u8>>,
    ascii: Option<Seq<u8>>,
)
    requires
        key_directory_values(directory).len() >= 8,
        key_directory_values(directory)[3] == 1,
        key_directory_values(directory)[4] == 2048,
        key_directory_values(directory)[7] == 4326,
    ensures
        geotiff_crs_text(directory, doubles, ascii) == Some("EPSG:4326"@),
{
    let vals = key_directory_values(directory);
    reveal_with_fuel(decimal, 5);
    reveal_strlit("EPSG:");
    reveal_strlit(" ");
    reveal_strlit(" (EPSG:");
    reveal_strlit("EPSG:4326");
    let s = "EPSG:"@ + decimal(4326) + " "@;
    assert(apply_keys(vals, doubles, ascii, 0) == Some(Seq::<char>::empty()));
    assert(apply_key(vals, 0, doubles, ascii, Seq::<char>::empty()) == Some(s));
    assert(apply_keys(vals, doubles, ascii, 1) == Some(s));
    assert(s =~= seq!['E', 'P', 'S', 'G', ':', '4', '3', '2', '6', ' ']);
    let pat = " (EPSG:"@;
    assert(pat =~= seq![' ', '(', 'E', 'P', 'S', 'G', ':']);
    assert forall|i: int| !occurs_at(s, pat, i) by {
        if 0 <= i && i + pat.len() <= s.len() {
            assert(s.subrange(i, i + pat.len())[0] != pat[0]);
        }
    }
    assert(before_first(s, pat) == s);
    let ws = |c: char| is_white_space(c);
    assert(kept_len(s.drop_last(), ws) == 9) by {
        assert(s.drop_last().last() == '6');
    }
    assert(kept_len(s, ws) == 9);
    assert(first_non_space(s.subrange(0, 9)) == 0);
    assert(trim_spaces(s) =~= "EPSG:4326"@);
}

/// A non-empty sample of points all inside the geographic box guesses EPSG:4326.
pub proof fn geographic_sample_guesses_4326(points: Seq<(i64, i64)>)
    requires
        points.len() > 0,
        forall|i: int| 0 <= i < points.len() ==> in_geographic_box(#[trigger] points[i]),
    ensures
        guessed_crs(points) == Some("EPSG:4326"@),
{
}

/// A sample with a point outside both boxes cannot be guessed.
pub proof fn stray_point_defeats_guess(points: Seq<(i64, i64)>, k: int)
    requires
        0 <= k < points.len(),
        !in_geographic_box(points[k]),
        !in_projected_box(points[k]),
    ensures
        guessed_crs(points) is None,
{
}

} // verus!
