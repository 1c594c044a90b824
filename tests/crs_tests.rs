use las_poly::crs_utils::{
    crs_choice, extract_crs_from_records, guess_crs_from_points, plan_sample, CrsChoice, SamplePlan,
    VariableLengthRecord,
};
use las_poly::{extract_crs_from_geotiff, Crs, CrsError};

fn pt(x: f64, y: f64) -> (i64, i64) {
    ((x * 1e7).round() as i64, (y * 1e7).round() as i64)
}

fn record(user_id: &str, record_id: u16, data: &[u8]) -> VariableLengthRecord {
    VariableLengthRecord { user_id: user_id.to_string(), record_id, data: data.to_vec() }
}

fn key_directory(values: &[u16]) -> Vec<u8> {
    values.iter().flat_map(|v| v.to_le_bytes()).collect()
}

#[test]
fn test_extract_crs_guess_epsg4326() {
    let crs = extract_crs_from_records(false, &Vec::new(), &Vec::new());
    assert!(crs.is_none());
    let points = vec![pt(10.0, 20.0), pt(-10.0, -20.0)];
    let guessed_crs = guess_crs_from_points(&points);
    assert!(guessed_crs.is_ok());
    assert_eq!(guessed_crs.unwrap(), ("EPSG:4326".to_string()));
}

#[test]
fn test_fail_crs_guess() {
    let crs = extract_crs_from_records(false, &Vec::new(), &Vec::new());
    assert!(crs.is_none());
    let points = vec![pt(10.0, 200.0), pt(-10.0, -20.0)];
    assert!(matches!(guess_crs_from_points(&points), Err(CrsError::UnableToGuessCrs)));
}

#[test]
fn test_extract_crs_none() {
    let crs = extract_crs_from_records(false, &Vec::new(), &Vec::new());
    assert!(crs.is_none());
    let points = vec![pt(1000.0, 5000.0)];
    assert!(matches!(guess_crs_from_points(&points), Err(CrsError::UnableToGuessCrs)));
}

#[test]
fn wkt_record_is_trimmed() {
    let vlrs = vec![record("LASF_Projection", 2112, b"  PROJCS[\"NZGD2000\"]\n\0\0")];
    let crs = extract_crs_from_records(true, &vlrs, &Vec::new());
    assert_eq!(crs, Some(Crs::Wkt("PROJCS[\"NZGD2000\"]".to_string())));
}

#[test]
fn wkt_from_legacy_namespace_in_extended_pool() {
    let vlrs = vec![record("LASF_Projection", 2112, b" \0\0"), record("other", 2112, b"X")];
    let evlrs = vec![record("liblas", 2111, b"GEOGCS[\"WGS 84\"]")];
    let crs = extract_crs_from_records(true, &vlrs, &evlrs);
    assert_eq!(crs, Some(Crs::Wkt("GEOGCS[\"WGS 84\"]".to_string())));
}

#[test]
fn empty_wkt_gives_none() {
    let vlrs = vec![record("LASF_Projection", 2112, b"\0\0\0\0")];
    assert_eq!(extract_crs_from_records(true, &vlrs, &Vec::new()), None);
}

#[test]
fn declared_wkt_ignores_geotiff_records() {
    let vlrs = vec![record("LASF_Projection", 34735, &key_directory(&[1, 1, 0, 0]))];
    assert_eq!(extract_crs_from_records(true, &vlrs, &Vec::new()), None);
}

#[test]
fn geotiff_records_are_collected() {
    let dir = key_directory(&[1, 1, 0, 1, 3072, 0, 1, 2193]);
    let vlrs = vec![
        record("LASF_Projection", 34736, &[7]),
        record("LASF_Projection", 34735, &dir),
        record("LASF_Projection", 34737, b"NZGD2000|"),
        record("liblas", 34737, b"ignored"),
    ];
    let evlrs = vec![record("LASF_Projection", 34735, &[0, 0])];
    let crs = extract_crs_from_records(false, &vlrs, &evlrs);
    assert_eq!(crs, Some(Crs::GeoTiff(dir, Some(vec![7]), Some(b"NZGD2000|".to_vec()))));
}

#[test]
fn only_key_directory_record() {
    let dir = key_directory(&[1, 1, 0, 1, 2048, 0, 1, 4326]);
    let vlrs = vec![record("LASF_Projection", 34735, &dir)];
    let crs = extract_crs_from_records(false, &vlrs, &Vec::new());
    assert_eq!(crs, Some(Crs::GeoTiff(dir.clone(), None, None)));
    assert_eq!(extract_crs_from_geotiff(&dir, None, None).unwrap(), "EPSG:4326");
}

#[test]
fn projected_key_is_decoded() {
    let dir = key_directory(&[1, 1, 0, 1, 3072, 0, 1, 2193]);
    assert_eq!(extract_crs_from_geotiff(&dir, None, None).unwrap(), "EPSG:2193");
}

#[test]
fn sentinel_codes_are_skipped() {
    let dir = key_directory(&[1, 1, 0, 2, 3072, 0, 1, 2193, 2048, 0, 1, 32767]);
    assert_eq!(extract_crs_from_geotiff(&dir, None, None).unwrap(), "EPSG:2193");
    let dir = key_directory(&[1, 1, 0, 1, 2048, 0, 1, 65535]);
    assert_eq!(extract_crs_from_geotiff(&dir, None, None).unwrap(), "");
}

#[test]
fn later_key_wins() {
    let dir = key_directory(&[1, 1, 0, 2, 2048, 0, 1, 4326, 3072, 0, 1, 2193]);
    assert_eq!(extract_crs_from_geotiff(&dir, None, None).unwrap(), "EPSG:2193");
}

#[test]
fn citation_from_ascii_params_cuts_epsg_suffix() {
    let ascii = b"NZGD2000 / New Zealand Transverse Mercator 2000 (EPSG:2193)|";
    let count = ascii.len() as u16;
    let dir = key_directory(&[1, 1, 0, 1, 1026, 34737, count, 0]);
    assert_eq!(
        extract_crs_from_geotiff(&dir, None, Some(&ascii[..])).unwrap(),
        "NZGD2000 / New Zealand Transverse Mercator 2000"
    );
}

#[test]
fn citation_from_double_params_formats_byte() {
    let dir = key_directory(&[1, 1, 0, 1, 1026, 34736, 1, 2]);
    assert_eq!(extract_crs_from_geotiff(&dir, Some(&[9u8, 8, 173][..]), None).unwrap(), "173");
}

#[test]
fn missing_parameter_buffers_are_skipped() {
    let dir = key_directory(&[1, 1, 0, 2, 2048, 0, 1, 4326, 1026, 34737, 4, 0]);
    assert_eq!(extract_crs_from_geotiff(&dir, None, None).unwrap(), "EPSG:4326");
}

#[test]
fn short_directory_is_an_error() {
    assert!(matches!(extract_crs_from_geotiff(&[1u8, 0, 1, 0][..], None, None), Err(CrsError::GeoTiff(_))));
    let dir = key_directory(&[1, 1, 0, 2, 2048, 0, 1, 4326]);
    assert!(matches!(extract_crs_from_geotiff(&dir, None, None), Err(CrsError::GeoTiff(_))));
}

#[test]
fn out_of_range_parameters_are_errors() {
    let dir = key_directory(&[1, 1, 0, 1, 1026, 34736, 1, 5]);
    assert!(matches!(extract_crs_from_geotiff(&dir, Some(&[1u8, 2][..]), None), Err(CrsError::GeoTiff(_))));
    let dir = key_directory(&[1, 1, 0, 1, 1026, 34737, 10, 0]);
    assert!(matches!(extract_crs_from_geotiff(&dir, None, Some(&b"abc"[..])), Err(CrsError::GeoTiff(_))));
    let dir = key_directory(&[1, 1, 0, 1, 1026, 34737, 0, 0]);
    assert!(matches!(extract_crs_from_geotiff(&dir, None, Some(&b"abc"[..])), Err(CrsError::GeoTiff(_))));
}

#[test]
fn projected_sample_guesses_2193() {
    let points = vec![pt(1_570_000.0, 5_180_000.0), pt(1_760_000.0, 5_920_000.0)];
    assert_eq!(guess_crs_from_points(&points).unwrap(), "EPSG:2193");
}

#[test]
fn empty_sample_cannot_be_guessed() {
    assert!(matches!(guess_crs_from_points(&Vec::new()), Err(CrsError::UnableToGuessCrs)));
}

#[test]
fn geographic_box_is_open() {
    assert!(matches!(guess_crs_from_points(&vec![pt(180.0, 0.0)]), Err(CrsError::UnableToGuessCrs)));
    assert_eq!(guess_crs_from_points(&vec![pt(179.9, -89.9)]).unwrap(), "EPSG:4326");
}

#[test]
fn sample_plans() {
    assert!(matches!(plan_sample(true, 10, 3), SamplePlan::First(3)));
    assert!(matches!(plan_sample(true, 10, 1000), SamplePlan::First(10)));
    assert!(matches!(plan_sample(false, 10, 10), SamplePlan::First(10)));
    match plan_sample(false, 10, 1000) {
        SamplePlan::Indices(v) => {
            assert_eq!(v.len(), 10);
            assert!(v.iter().all(|&i| i < 1000));
        },
        SamplePlan::First(_) => panic!("Expected random indices"),
    }
}

#[test]
fn crs_choices() {
    let wkt = Crs::Wkt("GEOGCS[\"WGS 84\"]\0\0".to_string());
    assert!(matches!(crs_choice(Some(wkt), false), Ok(CrsChoice::Text(t)) if t == "GEOGCS[\"WGS 84\"]"));
    let dir = key_directory(&[1, 1, 0, 1, 3072, 0, 1, 2193]);
    assert!(matches!(crs_choice(Some(Crs::GeoTiff(dir, None, None)), false), Ok(CrsChoice::Text(t)) if t == "EPSG:2193"));
    assert!(matches!(crs_choice(Some(Crs::GeoTiff(vec![0], None, None)), true), Err(CrsError::GeoTiff(_))));
    assert!(matches!(crs_choice(None, true), Ok(CrsChoice::GuessFromPoints)));
    assert!(matches!(crs_choice(None, false), Err(CrsError::MissingCrs)));
}

#[test]
fn invalid_utf8_is_replaced() {
    let vlrs = vec![record("LASF_Projection", 2111, b"AB\xffC")];
    let crs = extract_crs_from_records(true, &vlrs, &Vec::new());
    assert_eq!(crs, Some(Crs::Wkt("AB\u{FFFD}C".to_string())));
}

#[test]
fn largest_code_is_decoded() {
    let dir = key_directory(&[1, 1, 0, 1, 2048, 0, 1, 65534]);
    assert_eq!(extract_crs_from_geotiff(&dir, None, None).unwrap(), "EPSG:65534");
}
