//! Stops to visit and the decisions taken on geocoding replies.
use vstd::prelude::*;

verus! {

/// A stop: its address, and its coordinates once geocoded.
///
/// Latitude and longitude are `f64` degrees carried as their bit patterns
/// (`f64::to_bits`); `None` until the address has been resolved.
#[derive(Debug)]
pub struct Location {
    pub address: String,
    pub lat: Option<u64>,
    pub lng: Option<u64>,
}

impl Clone for Location {
    fn clone(&self) -> (c: Self)
        ensures
            c == *self,
    {
        Location { address: self.address.clone(), lat: self.lat, lng: self.lng }
    }
}

impl Location {
    /// An unresolved stop at `address`.
    pub fn new(address: String) -> (loc: Self)
        ensures
            loc.address == address,
            loc.lat is None,
            loc.lng is None,
    {
        Location { address, lat: None, lng: None }
    }

    /// Whether the stop holds both coordinates.
    pub open spec fn resolved(&self) -> bool {
        self.lat is Some && self.lng is Some
    }

    /// Whether the stop holds both coordinates.
    pub fn is_resolved(&self) -> (b: bool)
        ensures
            b == self.resolved(),
    {
        self.lat.is_some() && self.lng.is_some()
    }
}


/// The stop for `address` after a Nominatim search: the coordinates of the
/// first hit, each `None` when absent or unreadable as a number, or an
/// unresolved stop when there was no hit.
pub fn nominatim_location(address: &str, first_hit: Option<(Option<u64>, Option<u64>)>) -> (loc: Location)
    ensures
        loc.address@ == address@,
        loc.lat == (match first_hit { Some(h) => h.0, None => None }),
        loc.lng == (match first_hit { Some(h) => h.1, None => None }),
{
    let mut loc = Location::new(address.to_owned());
    if let Some(hit) = first_hit {
        loc.lat = hit.0;
        loc.lng = hit.1;
    }
    loc
}

/// The stop for `address` after a Google geocoding reply: the coordinates of
/// the first result when the status is `OK` and there is a result, else an
/// unresolved stop.
pub fn google_location(address: &str, status: &str, first_result: Option<(u64, u64)>) -> (loc: Location)
    ensures
        loc.address@ == address@,
        status@ == "OK"@ ==> (first_result matches Some(r) ==> (loc.lat == Some(r.0) && loc.lng == Some(r.1))),
        !(status@ == "OK"@ && first_result is Some) ==> loc.lat is None && loc.lng is None,
{
    let mut loc = Location::new(address.to_owned());
    if crate::matrix::same_text(status, "OK") {
        if let Some(r) = first_result {
            loc.lat = Some(r.0);
            loc.lng = Some(r.1);
        }
    }
    loc
}

/// The address given to the device's own position.
pub open spec fn current_location_label() -> Seq<char> {
    "Current Location"@
}

/// The device's position from an IP lookup reply: a stop labelled
/// `"Current Location"` with the reply's coordinates when its status is
/// `success`, else nothing.
pub fn current_location(status: &str, lat: Option<u64>, lon: Option<u64>) -> (loc: Option<Location>)
    ensures
        status@ == "success"@ ==> (loc matches Some(l) && l.address@ == current_location_label() && l.lat == lat && l.lng == lon),
        status@ != "success"@ ==> loc is None,
{
    if crate::matrix::same_text(status, "success") {
        Some(Location { address: "Current Location".to_owned(), lat, lng: lon })
    } else {
        None
    }
}

/// The geocoding service for a batch of addresses.
#[derive(Debug, Clone, Copy, PartialEq, Eq, Structural)]
pub enum Geocoder {
    Google,
    Nominatim,
}

/// Google is used when asked for and given a non-empty key (a missing key
/// counts as empty); Nominatim otherwise.
pub fn choose_geocoder(use_google: bool, google_api_key: Option<&str>) -> (g: Geocoder)
    ensures
        g == (if use_google && (match google_api_key { Some(k) => k@.len() > 0, None => false }) {
            Geocoder::Google
        } else {
            Geocoder::Nominatim
        }),
{
    let has_key = match google_api_key {
        Some(k) => !k.is_empty(),
        None => false,
    };
    if use_google && has_key { Geocoder::Google } else { Geocoder::Nominatim }
}

/// The stop recorded for an address: the geocoded stop, or an unresolved
/// stop at the address when geocoding failed.
pub fn geocoded_or_unresolved(address: &String, outcome: Option<Location>) -> (loc: Location)
    ensures
        outcome matches Some(l) ==> loc == l,
        outcome is None ==> loc.address == *address && loc.lat is None && loc.lng is None,
{
    match outcome {
        Some(l) => l,
        None => Location::new(address.clone()),
    }
}

} // verus!
