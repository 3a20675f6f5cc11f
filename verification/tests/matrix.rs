use ontrack_core::matrix::{
    google_batches, google_element_cost, google_status, is_square_matrix, osrm_durations, place_block,
    plan_distance_matrix, resolved_locations, symmetric_from_upper, zero_matrix, MatrixSource,
};
use ontrack_core::{Backend, Location, MatrixError, OSRM_PUBLIC};

fn at(lat: f64, lng: f64, addr: &str) -> Location {
    Location { address: addr.to_string(), lat: Some(lat.to_bits()), lng: Some(lng.to_bits()) }
}

#[test]
fn backend_parse_is_case_insensitive() {
    assert_eq!(Backend::parse("osrm"), Ok(Backend::Osrm));
    assert_eq!(Backend::parse("GOOGLE"), Ok(Backend::Google));
    assert_eq!(Backend::parse("HaVeRsInE"), Ok(Backend::Haversine));
}

#[test]
fn backend_parse_refuses_unknown_names_lowercased() {
    assert_eq!(Backend::parse("Mapbox"), Err(MatrixError::InvalidBackend("mapbox".to_string())));
    assert_eq!(Backend::parse(""), Err(MatrixError::InvalidBackend(String::new())));
    assert_eq!(Backend::parse("OSRM "), Err(MatrixError::InvalidBackend("osrm ".to_string())));
}

#[test]
fn only_resolved_locations_enter_the_matrix() {
    let locs = vec![at(1.0, 2.0, "a"), Location::new("b".to_string()), at(3.0, 4.0, "c")];
    let r = resolved_locations(&locs);
    assert_eq!(r.len(), 2);
    assert_eq!(r[0].address, "a");
    assert_eq!(r[1].address, "c");
}

#[test]
fn matrix_plan_errors() {
    let none = vec![Location::new("x".to_string())];
    assert_eq!(plan_distance_matrix(&none, Backend::Haversine, None, None).unwrap_err(), MatrixError::NoResolvedLocations);
    let some = vec![at(1.0, 2.0, "a")];
    assert_eq!(plan_distance_matrix(&some, Backend::Google, None, None).unwrap_err(), MatrixError::MissingGoogleKey);
    assert_eq!(plan_distance_matrix(&some, Backend::Google, None, Some("")).unwrap_err(), MatrixError::MissingGoogleKey);
}

#[test]
fn matrix_plan_sources() {
    let some = vec![at(1.0, 2.0, "a"), Location::new("b".to_string())];
    let job = plan_distance_matrix(&some, Backend::Osrm, None, None).unwrap();
    assert_eq!(job.source, MatrixSource::Osrm(OSRM_PUBLIC.to_string()));
    assert_eq!(job.resolved.len(), 1);
    let job = plan_distance_matrix(&some, Backend::Osrm, Some("http://localhost:5000"), None).unwrap();
    assert_eq!(job.source, MatrixSource::Osrm("http://localhost:5000".to_string()));
    let job = plan_distance_matrix(&some, Backend::Google, None, Some("k")).unwrap();
    assert_eq!(job.source, MatrixSource::Google("k".to_string()));
    let job = plan_distance_matrix(&some, Backend::Haversine, None, Some("k")).unwrap();
    assert_eq!(job.source, MatrixSource::Haversine);
}

#[test]
fn osrm_reply_checks() {
    let sq = vec![vec![0u64, 1], vec![1, 0]];
    assert_eq!(osrm_durations("Ok", None, Some(sq.clone()), 2), Ok(sq.clone()));
    assert_eq!(
        osrm_durations("NoRoute", Some("no route".to_string()), Some(sq.clone()), 2),
        Err(MatrixError::Osrm("no route".to_string()))
    );
    assert_eq!(osrm_durations("InvalidQuery", None, None, 2), Err(MatrixError::Osrm("unknown".to_string())));
    assert_eq!(osrm_durations("Ok", None, None, 2), Err(MatrixError::MissingDurations));
    assert_eq!(
        osrm_durations("Ok", None, Some(vec![vec![0u64, 1, 2]]), 2),
        Err(MatrixError::OsrmShape { expected: 2, rows: 1, cols: 3 })
    );
    assert_eq!(
        osrm_durations("Ok", None, Some(Vec::new()), 2),
        Err(MatrixError::OsrmShape { expected: 2, rows: 0, cols: 0 })
    );
}

#[test]
fn google_batches_cover_in_tens() {
    assert_eq!(google_batches(0), vec![]);
    assert_eq!(google_batches(10), vec![(0, 10)]);
    assert_eq!(google_batches(23), vec![(0, 10), (10, 20), (20, 23)]);
}

#[test]
fn google_reply_checks() {
    assert_eq!(google_status("OK"), Ok(()));
    assert_eq!(google_status("REQUEST_DENIED"), Err(MatrixError::GoogleStatus("REQUEST_DENIED".to_string())));
    assert_eq!(google_element_cost("OK", Some(42.0f64.to_bits())), Some(42.0f64.to_bits()));
    assert_eq!(google_element_cost("OK", None), Some(0.0f64.to_bits()));
    assert_eq!(google_element_cost("NOT_FOUND", Some(7)), None);
}

#[test]
fn blocks_land_at_their_offset() {
    let mut m = zero_matrix(3);
    place_block(&mut m, 1, 1, &vec![vec![5, 6], vec![7, 8]]);
    assert_eq!(m, vec![vec![0, 0, 0], vec![0, 5, 6], vec![0, 7, 8]]);
    assert!(is_square_matrix(&m, 3));
    assert!(!is_square_matrix(&m, 2));
}

#[test]
fn symmetric_matrix_from_upper_triangle() {
    let m = symmetric_from_upper(&vec![vec![1, 2], vec![3], vec![]]);
    assert_eq!(m, vec![vec![0, 1, 2], vec![1, 0, 3], vec![2, 3, 0]]);
    assert_eq!(symmetric_from_upper(&vec![]), Vec::<Vec<u64>>::new());
}
