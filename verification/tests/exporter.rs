use ontrack_core::exporter::{encode_component, MAPS_STOPS_PER_LINK};
use ontrack_core::{build_maps_url, build_maps_url_chunked};

#[test]
fn maps_url_chunks_over_ten_stops() {
    let stops: Vec<String> = (0..23).map(|i| format!("Stop {i}")).collect();
    let urls = build_maps_url_chunked(&stops);
    assert_eq!(urls.len(), 3);
}

#[test]
fn maps_url_single_stop_smoke() {
    let url = build_maps_url(&vec!["123 Main".to_string()]);
    assert!(url.contains("destination=123"));
}

#[test]
fn single_stop_link_is_exact() {
    let url = build_maps_url(&vec!["123 Main".to_string()]);
    assert_eq!(url, "https://www.google.com/maps/dir/?api=1&destination=123%20Main&travelmode=driving");
}

#[test]
fn no_stops_give_the_bare_link() {
    let empty: Vec<String> = Vec::new();
    assert_eq!(build_maps_url(&empty), "https://www.google.com/maps/dir/?api=1");
    assert!(build_maps_url_chunked(&empty).is_empty());
}

#[test]
fn two_stops_give_origin_and_destination() {
    let stops = vec!["A St".to_string(), "B Ave".to_string()];
    assert_eq!(
        build_maps_url(&stops),
        "https://www.google.com/maps/dir/?api=1&origin=A%20St&destination=B%20Ave&travelmode=driving"
    );
}

#[test]
fn middle_stops_become_waypoints() {
    let stops = vec!["a".to_string(), "b".to_string(), "c".to_string(), "d".to_string()];
    assert_eq!(
        build_maps_url(&stops),
        "https://www.google.com/maps/dir/?api=1&origin=a&destination=d&waypoints=b%7Cc&travelmode=driving"
    );
}

#[test]
fn encoding_keeps_unreserved_and_escapes_the_rest() {
    assert_eq!(encode_component("Az09-_.~"), "Az09-_.~");
    assert_eq!(encode_component("1 & 2/3"), "1%20%26%202%2F3");
    assert_eq!(encode_component("é"), "%C3%A9");
}

#[test]
fn chunks_share_their_boundary_stop() {
    let stops: Vec<String> = (0..23).map(|i| format!("s{i}")).collect();
    let urls = build_maps_url_chunked(&stops);
    assert_eq!(urls[0], build_maps_url(&stops[0..10]));
    assert_eq!(urls[1], build_maps_url(&stops[9..19]));
    assert_eq!(urls[2], build_maps_url(&stops[18..23]));
}

#[test]
fn chunk_counts_at_the_edges() {
    let make = |n: usize| -> Vec<String> { (0..n).map(|i| format!("s{i}")).collect() };
    assert_eq!(build_maps_url_chunked(&make(1)).len(), 1);
    assert_eq!(build_maps_url_chunked(&make(MAPS_STOPS_PER_LINK)).len(), 1);
    assert_eq!(build_maps_url_chunked(&make(11)).len(), 2);
    assert_eq!(build_maps_url_chunked(&make(19)).len(), 2);
    assert_eq!(build_maps_url_chunked(&make(20)).len(), 3);
}
