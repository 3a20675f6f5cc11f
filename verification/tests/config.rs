use ontrack_core::geocoder::{choose_geocoder, current_location, geocoded_or_unresolved, google_location, nominatim_location, Geocoder};
use ontrack_core::{Location, Settings, APP_NAME, APP_VERSION, ORG_NAME, OSRM_PUBLIC};

#[test]
fn identity_constants() {
    assert_eq!(APP_NAME, "OnTrack");
    assert_eq!(APP_VERSION, "2.0.0");
    assert_eq!(ORG_NAME, "TDS Telecom");
    assert_eq!(OSRM_PUBLIC, "http://router.project-osrm.org");
}

#[test]
fn default_settings() {
    let s = Settings::default();
    assert_eq!(s.google_maps_api_key, "");
    assert_eq!(s.osrm_base_url, OSRM_PUBLIC);
    assert_eq!(s.arcgis_item_id, "");
    assert_eq!(s.whisper_model, "base");
}

#[test]
fn unset_variables_give_the_defaults() {
    let s = Settings::from_values(None, None, None, None);
    let d = Settings::default();
    assert_eq!(s.google_maps_api_key, d.google_maps_api_key);
    assert_eq!(s.osrm_base_url, d.osrm_base_url);
    assert_eq!(s.arcgis_item_id, d.arcgis_item_id);
    assert_eq!(s.whisper_model, d.whisper_model);
}

#[test]
fn set_variables_win() {
    let s = Settings::from_values(
        Some("key".to_string()),
        Some("http://osrm.local".to_string()),
        Some("item".to_string()),
        Some("small".to_string()),
    );
    assert_eq!(s.google_maps_api_key, "key");
    assert_eq!(s.osrm_base_url, "http://osrm.local");
    assert_eq!(s.arcgis_item_id, "item");
    assert_eq!(s.whisper_model, "small");
}

#[test]
fn new_location_is_unresolved() {
    let l = Location::new("123 Main".to_string());
    assert_eq!(l.address, "123 Main");
    assert!(!l.is_resolved());
    let half = Location { address: "x".to_string(), lat: Some(1), lng: None };
    assert!(!half.is_resolved());
}

#[test]
fn nominatim_hits() {
    let l = nominatim_location("a", Some((Some(47.6f64.to_bits()), Some((-117.4f64).to_bits()))));
    assert!(l.is_resolved());
    assert_eq!(f64::from_bits(l.lat.unwrap()), 47.6);
    let miss = nominatim_location("a", None);
    assert!(!miss.is_resolved());
    let bad = nominatim_location("a", Some((None, Some(1))));
    assert_eq!(bad.lat, None);
    assert_eq!(bad.lng, Some(1));
}

#[test]
fn google_geocoding_needs_ok_and_a_result() {
    assert!(google_location("a", "OK", Some((1, 2))).is_resolved());
    assert!(!google_location("a", "ZERO_RESULTS", Some((1, 2))).is_resolved());
    assert!(!google_location("a", "OK", None).is_resolved());
}

#[test]
fn current_location_reply() {
    let l = current_location("success", Some(3), Some(4)).unwrap();
    assert_eq!(l.address, "Current Location");
    assert_eq!((l.lat, l.lng), (Some(3), Some(4)));
    assert!(current_location("fail", Some(3), Some(4)).is_none());
}

#[test]
fn geocoder_choice() {
    assert_eq!(choose_geocoder(true, Some("k")), Geocoder::Google);
    assert_eq!(choose_geocoder(true, Some("")), Geocoder::Nominatim);
    assert_eq!(choose_geocoder(true, None), Geocoder::Nominatim);
    assert_eq!(choose_geocoder(false, Some("k")), Geocoder::Nominatim);
}

#[test]
fn failed_geocoding_keeps_the_address() {
    let addr = "9 Elm".to_string();
    let l = geocoded_or_unresolved(&addr, None);
    assert_eq!(l.address, "9 Elm");
    assert!(!l.is_resolved());
    let got = geocoded_or_unresolved(&addr, Some(Location { address: "9 Elm".to_string(), lat: Some(1), lng: Some(2) }));
    assert!(got.is_resolved());
}
