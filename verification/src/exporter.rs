//! Navigation links for a solved route.
//!
//! A route opens in Google Maps as a directions link: the first stop is the
//! origin, the last the destination, and the stops between them waypoints.
//! Addresses are percent-encoded byte by byte from their UTF-8 form, keeping
//! only the unreserved characters `A-Z a-z 0-9 - _ . ~`. A long route is
//! split into links of at most [`MAPS_STOPS_PER_LINK`] stops, each link
//! starting at the stop where the previous one ends.
use vstd::prelude::*;
use vstd::string::StringExecFns;

use crate::solver::texts;

verus! {

/// Most stops in one directions link.
pub const MAPS_STOPS_PER_LINK: usize = 10;

/// Whether a byte is an unreserved URL character.
pub open spec fn is_unreserved(b: u8) -> bool {
    ||| 65 <= b <= 90
    ||| 97 <= b <= 122
    ||| 48 <= b <= 57
    ||| b == 45 || b == 95 || b == 46 || b == 126
}

/// The uppercase hexadecimal digit of a nibble, as an ASCII byte.
pub open spec fn hex_digit(d: u8) -> u8 {
    if d < 10 { (48 + d) as u8 } else { (55 + d) as u8 }
}

/// A byte as it stands in a URL: itself when unreserved, else `%` and its
/// two hexadecimal digits.
pub open spec fn encode_byte(b: u8) -> Seq<u8> {
    if is_unreserved(b) { seq![b] } else { seq![37u8, hex_digit(b / 16), hex_digit(b % 16)] }
}

/// Percent-encoding of a byte string.
pub open spec fn percent_encode(bytes: Seq<u8>) -> Seq<u8>
    decreases bytes.len(),
{
    if bytes.len() == 0 {
        seq![]
    } else {
        percent_encode(bytes.drop_last()) + encode_byte(bytes.last())
    }
}

/// ASCII bytes read as characters.
pub open spec fn ascii_text(bytes: Seq<u8>) -> Seq<char> {
    bytes.map_values(|b: u8| b as char)
}

/// A text as it stands in a URL.
pub open spec fn url_encoded(s: Seq<char>) -> Seq<char> {
    ascii_text(percent_encode(vstd::utf8::encode_utf8(s)))
}

/// std's `String::from_utf8`, given ASCII bytes, which are valid UTF-8 and
/// decode to one character per byte with the byte's code.
#[verifier::external_body]
fn ascii_string(bytes: Vec<u8>) -> (s: String)
    requires
        forall|t: int| 0 <= t < bytes@.len() ==> #[trigger] bytes@[t] < 128,
    ensures
        s@ == ascii_text(bytes@),
{
    String::from_utf8(bytes).unwrap_or_default()
}

fn hex_digit_byte(d: u8) -> (h: u8)
    requires
        d < 16,
    ensures
        h == hex_digit(d),
        h < 128,
{
    if d < 10 { 48 + d } else { 55 + d }
}

/// Percent-encodes a text for a URL.
pub fn encode_component(s: &str) -> (e: String)
    ensures
        e@ == url_encoded(s@),
{
    let bytes = s.as_bytes();
    let mut out: Vec<u8> = Vec::new();
    let mut t: usize = 0;
    while t < bytes.len()
        invariant
            t <= bytes@.len(),
            bytes@ == vstd::utf8::encode_utf8(s@),
            out@ == percent_encode(bytes@.take(t as int)),
            forall|u: int| 0 <= u < out@.len() ==> #[trigger] out@[u] < 128,
        decreases bytes@.len() - t,
    {
        let b = bytes[t];
        let ghost before = out@;
        let unreserved = (65 <= b && b <= 90) || (97 <= b && b <= 122) || (48 <= b && b <= 57) || b == 45 || b == 95
            || b == 46 || b == 126;
        if unreserved {
            out.push(b);
        } else {
            out.push(37);
            out.push(hex_digit_byte(b / 16));
            out.push(hex_digit_byte(b % 16));
        }
        assert(bytes@.take(t + 1).drop_last() =~= bytes@.take(t as int));
        assert(out@ =~= before + encode_byte(b));
        t = t + 1;
    }
    assert(bytes@.take(bytes@.len() as int) =~= bytes@);
    ascii_string(out)
}

/// The start of every directions link.
pub open spec fn maps_base() -> Seq<char> {
    "https://www.google.com/maps/dir/?api=1"@
}

/// The encoded stops joined by an encoded `|`.
pub open spec fn joined_waypoints(stops: Seq<Seq<char>>) -> Seq<char>
    decreases stops.len(),
{
    if stops.len() == 0 {
        seq![]
    } else if stops.len() == 1 {
        url_encoded(stops[0])
    } else {
        joined_waypoints(stops.drop_last()) + "%7C"@ + url_encoded(stops.last())
    }
}

/// The directions link through `stops`: none gives the bare link, one gives
/// a destination only, more give the first as origin, the last as
/// destination and the others as waypoints; every link with a stop asks for
/// driving directions.
pub open spec fn maps_link(stops: Seq<Seq<char>>) -> Seq<char> {
    let n = stops.len();
    if n == 0 {
        maps_base()
    } else if n == 1 {
        maps_base() + "&destination="@ + url_encoded(stops[0]) + "&travelmode=driving"@
    } else {
        let middle = stops.subrange(1, n - 1);
        maps_base() + "&origin="@ + url_encoded(stops[0]) + "&destination="@ + url_encoded(stops[n - 1])
            + (if n > 2 { "&waypoints="@ + joined_waypoints(middle) } else { seq![] })
            + "&travelmode=driving"@
    }
}

/// The Google Maps directions link through `stops`, in order.
pub fn build_maps_url(stops: &[String]) -> (url: String)
    ensures
        url@ == maps_link(texts(stops@)),
{
    let ghost v = texts(stops@);
    let n = stops.len();
    let mut url = "https://www.google.com/maps/dir/?api=1".to_owned();
    if n == 0 {
        return url;
    }
    if n == 1 {
        url.append("&destination=");
        let e = encode_component(stops[0].as_str());
        url.append(e.as_str());
        url.append("&travelmode=driving");
        return url;
    }
    url.append("&origin=");
    let first = encode_component(stops[0].as_str());
    url.append(first.as_str());
    url.append("&destination=");
    let last = encode_component(stops[n - 1].as_str());
    url.append(last.as_str());
    let ghost head = url@;
    if n > 2 {
        url.append("&waypoints=");
        let ghost prefix = url@;
        let mut t: usize = 1;
        while t < n - 1
            invariant
                n == stops@.len(),
                v == texts(stops@),
                n > 2,
                1 <= t <= n - 1,
                url@ == prefix + joined_waypoints(v.subrange(1, t as int)),
            decreases n - 1 - t,
        {
            if t > 1 {
                url.append("%7C");
            }
            let e = encode_component(stops[t].as_str());
            url.append(e.as_str());
            assert(v.subrange(1, t + 1).drop_last() =~= v.subrange(1, t as int));
            assert(v.subrange(1, t + 1).last() == v[t as int]);
            t = t + 1;
        }
        assert(url@ == head + ("&waypoints="@ + joined_waypoints(v.subrange(1, n - 1))));
    } else {
        assert(url@ == head + Seq::<char>::empty());
    }
    url.append("&travelmode=driving");
    url
}

/// The number of links a route of `n` stops is split into.
pub open spec fn link_count(n: nat) -> nat {
    if n == 0 {
        0
    } else if n <= MAPS_STOPS_PER_LINK {
        1
    } else {
        ((n - MAPS_STOPS_PER_LINK + 8) / 9 + 1) as nat
    }
}

/// The stops of link `t`: from stop `9t` (where link `t - 1` ends) up to
/// [`MAPS_STOPS_PER_LINK`] stops, or to the end of the route.
pub open spec fn link_stops(stops: Seq<Seq<char>>, t: int) -> Seq<Seq<char>> {
    let start = 9 * t;
    let end = if start + MAPS_STOPS_PER_LINK < stops.len() { start + MAPS_STOPS_PER_LINK } else { stops.len() as int };
    stops.subrange(start, end)
}

/// The route split into directions links of at most
/// [`MAPS_STOPS_PER_LINK`] stops, each starting where the previous one ends.
pub fn build_maps_url_chunked(stops: &[String]) -> (urls: Vec<String>)
    ensures
        urls@.len() == link_count(stops@.len()),
        forall|t: int| 0 <= t < urls@.len() ==> #[trigger] urls@[t]@ == maps_link(link_stops(texts(stops@), t)),
{
    let ghost v = texts(stops@);
    let n = stops.len();
    let mut urls: Vec<String> = Vec::new();
    if n == 0 {
        return urls;
    }
    let mut start: usize = 0;
    loop
        invariant_except_break
            start as int == 9 * urls@.len(),
            start < n,
            urls@.len() < link_count(n as nat),
        invariant
            n == stops@.len(),
            n > 0,
            v == texts(stops@),
            forall|t: int| 0 <= t < urls@.len() ==> #[trigger] urls@[t]@ == maps_link(link_stops(v, t)),
        ensures
            urls@.len() == link_count(n as nat),
            forall|t: int| 0 <= t < urls@.len() ==> #[trigger] urls@[t]@ == maps_link(link_stops(v, t)),
        decreases n - start,
    {
        let end = if n - start > MAPS_STOPS_PER_LINK { start + MAPS_STOPS_PER_LINK } else { n };
        let mut chunk: Vec<String> = Vec::new();
        let mut u: usize = start;
        while u < end
            invariant
                start <= u <= end,
                end <= n,
                n == stops@.len(),
                chunk@.len() == u - start,
                forall|q: int| 0 <= q < chunk@.len() ==> #[trigger] chunk@[q] == stops@[start + q],
            decreases end - u,
        {
            chunk.push(stops[u].clone());
            u = u + 1;
        }
        assert(texts(chunk@) =~= link_stops(v, urls@.len() as int));
        let url = build_maps_url(chunk.as_slice());
        urls.push(url);
        if end == n {
            assert(urls@.len() == link_count(n as nat));
            break;
        }
        start = start + 9;
    }
    urls
}


/// The links of a route chain up: the first starts at the first stop, each
/// later one starts at the stop where the one before it ends, the last ends
/// at the last stop, and each holds between 2 (for a route of 2 or more
/// stops) and [`MAPS_STOPS_PER_LINK`] stops.
pub proof fn lemma_links_chain(stops: Seq<Seq<char>>)
    requires
        stops.len() >= 2,
    ensures
        link_stops(stops, 0)[0] == stops[0],
        forall|t: int| 0 <= t < link_count(stops.len()) ==>
            2 <= #[trigger] link_stops(stops, t).len() <= MAPS_STOPS_PER_LINK,
        forall|t: int| 0 <= t && t + 1 < link_count(stops.len()) ==>
            #[trigger] link_stops(stops, t).last() == link_stops(stops, t + 1)[0],
        link_stops(stops, link_count(stops.len()) - 1).last() == stops.last(),
{
    let n = stops.len();
    let c = link_count(n);
    assert forall|t: int| 0 <= t < c implies 2 <= #[trigger] link_stops(stops, t).len() <= MAPS_STOPS_PER_LINK by {
        assert(9 * t + 2 <= n);
    }
    assert forall|t: int| 0 <= t && t + 1 < c implies
        #[trigger] link_stops(stops, t).last() == link_stops(stops, t + 1)[0] by {
        assert(9 * t + 10 < n);
        assert(link_stops(stops, t).len() == 10);
        assert(link_stops(stops, t)[9] == stops[9 * t + 9]);
        assert(link_stops(stops, t + 1)[0] == stops[9 * (t + 1)]);
    }
    let last = c - 1;
    assert(9 * last + 10 >= n);
    assert(9 * last < n);
    let ls = link_stops(stops, last);
    assert(ls.len() == n - 9 * last);
    assert(ls[ls.len() - 1] == stops[n - 1]);
}

} // verus!
