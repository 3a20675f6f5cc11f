//! Distance matrices: the backend choice, the checks on router replies, and
//! the assembly of matrices from the costs that the backends deliver.
//!
//! Costs are `f64` bit patterns (see [`crate::cost`]). Fetching costs from a
//! router and computing great-circle distances happen outside the library;
//! what is decided on the way stands here.
use vstd::prelude::*;

use crate::config::OSRM_PUBLIC;
use crate::cost::ZERO_COST;
use crate::geocoder::Location;
use crate::solver::{first_row_len, is_square};

verus! {

/// Where distances come from.
#[derive(Debug, Clone, Copy, PartialEq, Eq, Structural)]
pub enum Backend {
    Osrm,
    Google,
    Haversine,
}

/// Why a matrix could not be had.
#[derive(Debug, PartialEq, Eq)]
pub enum MatrixError {
    /// The backend name, lowercased, is none of `osrm`, `google`, `haversine`.
    InvalidBackend(String),
    /// No location has coordinates.
    NoResolvedLocations,
    /// The Google backend was chosen without a non-empty API key.
    MissingGoogleKey,
    /// OSRM answered with a code other than `Ok`, with its message.
    Osrm(String),
    /// OSRM answered `Ok` without durations.
    MissingDurations,
    /// OSRM durations are not `expected x expected`; `cols` is the length of
    /// the first row, or 0 when there is none.
    OsrmShape { expected: usize, rows: usize, cols: usize },
    /// Google answered with a status other than `OK`.
    GoogleStatus(String),
}

/// ASCII lowercase of one character; other characters are unchanged.
pub open spec fn ascii_lower(c: char) -> char {
    if 65 <= (c as u32) <= 90 { ((c as u32) + 32) as char } else { c }
}

/// ASCII lowercase of a text.
pub open spec fn ascii_lowercase(s: Seq<char>) -> Seq<char> {
    s.map_values(|c: char| ascii_lower(c))
}

/// std's `str::to_ascii_lowercase`, which maps each of `'A'..='Z'` to the
/// matching one of `'a'..='z'` and leaves every other character unchanged.
#[verifier::external_body]
fn to_ascii_lowercase(s: &str) -> (r: String)
    ensures
        r@ == ascii_lowercase(s@),
{
    s.to_ascii_lowercase()
}

/// Whether two texts are equal.
pub fn same_text(a: &str, b: &str) -> (r: bool)
    ensures
        r == (a@ == b@),
{
    a.to_owned() == b.to_owned()
}

impl Backend {
    /// The backend a name stands for, in any ASCII case.
    pub open spec fn named(lower: Seq<char>) -> Option<Backend> {
        if lower == "osrm"@ {
            Some(Backend::Osrm)
        } else if lower == "google"@ {
            Some(Backend::Google)
        } else if lower == "haversine"@ {
            Some(Backend::Haversine)
        } else {
            None
        }
    }

    /// Parses a backend name case-insensitively (ASCII); an unknown name is
    /// refused with its lowercase form.
    pub fn parse(s: &str) -> (r: Result<Backend, MatrixError>)
        ensures
            Self::named(ascii_lowercase(s@)) matches Some(b) ==> r == Ok::<Backend, MatrixError>(b),
            Self::named(ascii_lowercase(s@)) is None ==> (r matches Err(MatrixError::InvalidBackend(t))
                && t@ == ascii_lowercase(s@)),
    {
        let lower = to_ascii_lowercase(s);
        if same_text(lower.as_str(), "osrm") {
            Ok(Backend::Osrm)
        } else if same_text(lower.as_str(), "google") {
            Ok(Backend::Google)
        } else if same_text(lower.as_str(), "haversine") {
            Ok(Backend::Haversine)
        } else {
            Err(MatrixError::InvalidBackend(lower))
        }
    }
}

/// The locations that have both coordinates, in their order.
pub open spec fn resolved_only(s: Seq<Location>) -> Seq<Location>
    decreases s.len(),
{
    if s.len() == 0 {
        seq![]
    } else {
        let prev = resolved_only(s.drop_last());
        if s.last().resolved() { prev.push(s.last()) } else { prev }
    }
}

/// The locations that have both coordinates, in their order.
pub fn resolved_locations(locations: &[Location]) -> (r: Vec<Location>)
    ensures
        r@ == resolved_only(locations@),
        r@ == locations@.filter(|l: Location| l.resolved()),
{
    proof {
        lemma_resolved_only_is_filter(locations@);
    }
    let mut r: Vec<Location> = Vec::new();
    let mut t: usize = 0;
    while t < locations.len()
        invariant
            t <= locations@.len(),
            r@ == resolved_only(locations@.take(t as int)),
        decreases locations@.len() - t,
    {
        assert(locations@.take(t + 1).drop_last() =~= locations@.take(t as int));
        if locations[t].is_resolved() {
            r.push(locations[t].clone());
        }
        t = t + 1;
    }
    assert(locations@.take(locations@.len() as int) =~= locations@);
    r
}

/// The service a matrix is to be fetched from.
#[derive(Debug, PartialEq, Eq)]
pub enum MatrixSource {
    /// An OSRM router at this base URL.
    Osrm(String),
    /// Google's distance matrix with this API key.
    Google(String),
    /// Great-circle distances between the coordinates.
    Haversine,
}

/// What to build a matrix over, and from where.
#[derive(Debug)]
pub struct MatrixJob {
    /// The locations with coordinates; the matrix is square over them.
    pub resolved: Vec<Location>,
    pub source: MatrixSource,
}

/// Decides what a matrix is built over and from where: the resolved
/// locations, which must not be none, and the service of the backend, OSRM
/// falling back to the public router and Google needing a non-empty key.
pub fn plan_distance_matrix(
    locations: &[Location],
    backend: Backend,
    osrm_url: Option<&str>,
    google_api_key: Option<&str>,
) -> (r: Result<MatrixJob, MatrixError>)
    ensures
        resolved_only(locations@).len() == 0 ==> r == Err::<MatrixJob, MatrixError>(MatrixError::NoResolvedLocations),
        resolved_only(locations@).len() > 0 && backend == Backend::Google && (match google_api_key {
            Some(k) => k@.len() == 0,
            None => true,
        }) ==> r == Err::<MatrixJob, MatrixError>(MatrixError::MissingGoogleKey),
        r matches Ok(job) ==> {
            &&& job.resolved@ == resolved_only(locations@)
            &&& job.resolved@ == locations@.filter(|l: Location| l.resolved())
            &&& job.resolved@.len() > 0
            &&& match backend {
                Backend::Osrm => job.source matches MatrixSource::Osrm(url) && url@ == (match osrm_url {
                    Some(u) => u@,
                    None => OSRM_PUBLIC@,
                }),
                Backend::Google => job.source matches MatrixSource::Google(key) && google_api_key matches Some(k)
                    && key@ == k@ && k@.len() > 0,
                Backend::Haversine => job.source == MatrixSource::Haversine,
            }
        },
        resolved_only(locations@).len() > 0 && (backend != Backend::Google || (google_api_key matches Some(k) && k@.len() > 0))
            ==> r is Ok,
{
    let resolved = resolved_locations(locations);
    proof {
        lemma_resolved_only_is_filter(locations@);
    }
    if resolved.len() == 0 {
        return Err(MatrixError::NoResolvedLocations);
    }
    let source = match backend {
        Backend::Osrm => match osrm_url {
            Some(u) => MatrixSource::Osrm(u.to_owned()),
            None => MatrixSource::Osrm(OSRM_PUBLIC.to_owned()),
        },
        Backend::Google => match google_api_key {
            Some(k) => {
                if k.is_empty() {
                    return Err(MatrixError::MissingGoogleKey);
                }
                MatrixSource::Google(k.to_owned())
            },
            None => {
                return Err(MatrixError::MissingGoogleKey);
            },
        },
        Backend::Haversine => MatrixSource::Haversine,
    };
    Ok(MatrixJob { resolved, source })
}

/// Whether `matrix` has `n` rows of `n` costs each.
pub fn is_square_matrix(matrix: &[Vec<u64>], n: usize) -> (b: bool)
    ensures
        b == is_square(matrix@, n as int),
{
    if matrix.len() != n {
        return false;
    }
    let mut r: usize = 0;
    while r < n
        invariant
            r <= n,
            matrix@.len() == n,
            forall|q: int| 0 <= q < r ==> #[trigger] matrix@[q]@.len() == n,
        decreases n - r,
    {
        if matrix[r].len() != n {
            return false;
        }
        r = r + 1;
    }
    true
}

/// The message of an OSRM error reply.
pub open spec fn osrm_message(message: Option<String>) -> Seq<char> {
    match message {
        Some(m) => m@,
        None => "unknown"@,
    }
}

/// Checks an OSRM table reply for `n` coordinates: its code must be `Ok`,
/// and its durations present and `n x n`.
pub fn osrm_durations(
    code: &str,
    message: Option<String>,
    durations: Option<Vec<Vec<u64>>>,
    n: usize,
) -> (r: Result<Vec<Vec<u64>>, MatrixError>)
    ensures
        code@ != "Ok"@ ==> (r matches Err(MatrixError::Osrm(m)) && m@ == osrm_message(message)),
        code@ == "Ok"@ && durations is None ==> r == Err::<Vec<Vec<u64>>, MatrixError>(MatrixError::MissingDurations),
        code@ == "Ok"@ ==> (durations matches Some(d) ==> (if is_square(d@, n as int) {
            r == Ok::<Vec<Vec<u64>>, MatrixError>(d)
        } else {
            r == Err::<Vec<Vec<u64>>, MatrixError>(
                MatrixError::OsrmShape { expected: n, rows: d@.len() as usize, cols: first_row_len(d@) },
            )
        })),
{
    if !same_text(code, "Ok") {
        let m = match message {
            Some(m) => m,
            None => "unknown".to_owned(),
        };
        return Err(MatrixError::Osrm(m));
    }
    match durations {
        None => Err(MatrixError::MissingDurations),
        Some(d) => {
            if is_square_matrix(&d, n) {
                Ok(d)
            } else {
                let cols = if d.len() > 0 { d[0].len() } else { 0 };
                Err(MatrixError::OsrmShape { expected: n, rows: d.len(), cols })
            }
        },
    }
}

/// The number of locations per Google request, for origins and for
/// destinations alike.
pub const GOOGLE_BATCH: usize = 10;

/// The batches `[start, end)` that cover `0..n` in steps of
/// [`GOOGLE_BATCH`], the last one possibly shorter.
pub open spec fn google_batch_ranges(n: nat) -> Seq<(usize, usize)> {
    Seq::new(
        ((n + GOOGLE_BATCH - 1) / GOOGLE_BATCH as int) as nat,
        |t: int| ((GOOGLE_BATCH * t) as usize, (if GOOGLE_BATCH * t + GOOGLE_BATCH < n { GOOGLE_BATCH * t + GOOGLE_BATCH } else { n as int }) as usize),
    )
}

/// The batches `[start, end)` that cover `0..n` in steps of
/// [`GOOGLE_BATCH`], the last one possibly shorter.
pub fn google_batches(n: usize) -> (b: Vec<(usize, usize)>)
    ensures
        b@ == google_batch_ranges(n as nat),
{
    let mut b: Vec<(usize, usize)> = Vec::new();
    let mut start: usize = 0;
    while start < n
        invariant
            start <= n,
            start < n ==> start as int == GOOGLE_BATCH * b@.len(),
            start >= n ==> b@.len() == (n + GOOGLE_BATCH - 1) / GOOGLE_BATCH as int,
            forall|t: int| 0 <= t < b@.len() ==> #[trigger] b@[t] == google_batch_ranges(n as nat)[t],
        decreases n - start,
    {
        if n - start > GOOGLE_BATCH {
            b.push((start, start + GOOGLE_BATCH));
            start = start + GOOGLE_BATCH;
        } else {
            b.push((start, n));
            start = n;
        }
    }
    assert(b@ =~= google_batch_ranges(n as nat));
    b
}

/// Checks the status of a Google distance-matrix reply.
pub fn google_status(status: &str) -> (r: Result<(), MatrixError>)
    ensures
        status@ == "OK"@ ==> r is Ok,
        status@ != "OK"@ ==> (r matches Err(MatrixError::GoogleStatus(s)) && s@ == status@),
{
    if same_text(status, "OK") {
        Ok(())
    } else {
        Err(MatrixError::GoogleStatus(status.to_owned()))
    }
}

/// The cost of one element of a Google reply: its duration when the
/// element's status is `OK` (zero when the duration is absent), or `None`
/// when it is not, and the great-circle distance is used instead.
pub fn google_element_cost(status: &str, duration: Option<u64>) -> (c: Option<u64>)
    ensures
        status@ == "OK"@ ==> c == Some(match duration { Some(d) => d, None => ZERO_COST }),
        status@ != "OK"@ ==> c is None,
{
    if same_text(status, "OK") {
        match duration {
            Some(d) => Some(d),
            None => Some(ZERO_COST),
        }
    } else {
        None
    }
}

/// An `n x n` matrix of zero costs.
pub fn zero_matrix(n: usize) -> (m: Vec<Vec<u64>>)
    ensures
        is_square(m@, n as int),
        forall|i: int, j: int| 0 <= i < n && 0 <= j < n ==> #[trigger] m@[i]@[j] == ZERO_COST,
{
    let mut m: Vec<Vec<u64>> = Vec::new();
    let mut i: usize = 0;
    while i < n
        invariant
            i <= n,
            m@.len() == i,
            forall|q: int| 0 <= q < i ==> #[trigger] m@[q]@.len() == n,
            forall|q: int, j: int| 0 <= q < i && 0 <= j < n ==> #[trigger] m@[q]@[j] == ZERO_COST,
        decreases n - i,
    {
        let mut row: Vec<u64> = Vec::new();
        let mut j: usize = 0;
        while j < n
            invariant
                j <= n,
                row@.len() == j,
                forall|q: int| 0 <= q < j ==> #[trigger] row@[q] == ZERO_COST,
            decreases n - j,
        {
            row.push(ZERO_COST);
            j = j + 1;
        }
        m.push(row);
        i = i + 1;
    }
    m
}

/// Writes `block` into `matrix` with its top-left entry at row `i`, column
/// `j`; every other entry is unchanged.
pub fn place_block(matrix: &mut Vec<Vec<u64>>, i: usize, j: usize, block: &Vec<Vec<u64>>)
    requires
        i + block@.len() <= old(matrix)@.len(),
        forall|r: int| 0 <= r < block@.len() ==> j + #[trigger] block@[r]@.len() <= old(matrix)@[i + r]@.len(),
    ensures
        final(matrix)@.len() == old(matrix)@.len(),
        forall|r: int| 0 <= r < old(matrix)@.len() ==> #[trigger] final(matrix)@[r]@.len() == old(matrix)@[r]@.len(),
        forall|r: int, c: int| 0 <= r < old(matrix)@.len() && 0 <= c < old(matrix)@[r]@.len() ==>
            #[trigger] final(matrix)@[r]@[c] == (if i <= r < i + block@.len() && j <= c < j + block@[r - i]@.len() {
                block@[r - i]@[c - j]
            } else {
                old(matrix)@[r]@[c]
            }),
{
    let ghost m0 = matrix@;
    let rows = matrix.len();
    let mut ri: usize = 0;
    while ri < block.len()
        invariant
            rows == m0.len(),
            ri <= block@.len(),
            i + block@.len() <= m0.len(),
            forall|r: int| 0 <= r < block@.len() ==> j + #[trigger] block@[r]@.len() <= m0[i + r]@.len(),
            matrix@.len() == m0.len(),
            forall|r: int| 0 <= r < m0.len() ==> #[trigger] matrix@[r]@.len() == m0[r]@.len(),
            forall|r: int, c: int| 0 <= r < m0.len() && 0 <= c < m0[r]@.len() ==>
                #[trigger] matrix@[r]@[c] == (if i <= r < i + ri && j <= c < j + block@[r - i]@.len() {
                    block@[r - i]@[c - j]
                } else {
                    m0[r]@[c]
                }),
        decreases block@.len() - ri,
    {
        let mut row = matrix[i + ri].clone();
        let ghost row0 = row@;
        let cols = row.len();
        let mut ci: usize = 0;
        while ci < block[ri].len()
            invariant
                cols == row0.len(),
                ci <= block@[ri as int]@.len(),
                j + block@[ri as int]@.len() <= row0.len(),
                row@.len() == row0.len(),
                ri < block@.len(),
                forall|c: int| 0 <= c < row0.len() ==> #[trigger] row@[c] == (if j <= c < j + ci {
                    block@[ri as int]@[c - j]
                } else {
                    row0[c]
                }),
            decreases block@[ri as int]@.len() - ci,
        {
            row.set(j + ci, block[ri][ci]);
            ci = ci + 1;
        }
        matrix.set(i + ri, row);
        ri = ri + 1;
    }
}

/// The symmetric matrix with zero diagonal whose entry `(i, j)` for `i < j`
/// is `upper[i][j - i - 1]`: `upper[i]` lists the costs from stop `i` to the
/// stops after it.
pub fn symmetric_from_upper(upper: &Vec<Vec<u64>>) -> (m: Vec<Vec<u64>>)
    requires
        forall|i: int| 0 <= i < upper@.len() ==> #[trigger] upper@[i]@.len() == upper@.len() - 1 - i,
    ensures
        is_square(m@, upper@.len() as int),
        forall|i: int, j: int| 0 <= i < j < upper@.len() ==> #[trigger] m@[i]@[j] == upper@[i]@[j - i - 1],
        forall|i: int, j: int| 0 <= i < j < upper@.len() ==> #[trigger] m@[j]@[i] == m@[i]@[j],
        forall|i: int| 0 <= i < upper@.len() ==> #[trigger] m@[i]@[i] == ZERO_COST,
{
    let n = upper.len();
    let mut m = zero_matrix(n);
    let mut i: usize = 0;
    while i < n
        invariant
            i <= n,
            n == upper@.len(),
            forall|q: int| 0 <= q < n ==> #[trigger] upper@[q]@.len() == n - 1 - q,
            is_square(m@, n as int),
            forall|a: int, b: int| 0 <= a < n && 0 <= b < n ==> #[trigger] m@[a]@[b] == (
                if a < b && a < i { upper@[a]@[b - a - 1] }
                else if b < a && b < i { upper@[b]@[a - b - 1] }
                else { ZERO_COST }),
        decreases n - i,
    {
        let mut j: usize = i + 1;
        while j < n
            invariant
                i < n,
                i + 1 <= j <= n,
                n == upper@.len(),
                forall|q: int| 0 <= q < n ==> #[trigger] upper@[q]@.len() == n - 1 - q,
                is_square(m@, n as int),
                forall|a: int, b: int| 0 <= a < n && 0 <= b < n ==> #[trigger] m@[a]@[b] == (
                    if a < b && (a < i || (a == i && b < j)) { upper@[a]@[b - a - 1] }
                    else if b < a && (b < i || (b == i && a < j)) { upper@[b]@[a - b - 1] }
                    else { ZERO_COST }),
            decreases n - j,
        {
            let d = upper[i][j - i - 1];
            let mut row_i = m[i].clone();
            row_i.set(j, d);
            m.set(i, row_i);
            let mut row_j = m[j].clone();
            row_j.set(i, d);
            m.set(j, row_j);
            j = j + 1;
        }
        i = i + 1;
    }
    m
}


/// Every resolved location enters the matrix and no other: extending the
/// list by a resolved location extends the result by it, extending it by an
/// unresolved one leaves the result as it is.
pub proof fn lemma_resolved_only_push(s: Seq<Location>, l: Location)
    ensures
        l.resolved() ==> resolved_only(s.push(l)) == resolved_only(s).push(l),
        !l.resolved() ==> resolved_only(s.push(l)) == resolved_only(s),
        resolved_only(Seq::<Location>::empty()) == Seq::<Location>::empty(),
{
    assert(s.push(l).drop_last() =~= s);
}

/// The resolved locations are the filter of the locations by `resolved`.
pub proof fn lemma_resolved_only_is_filter(s: Seq<Location>)
    ensures
        resolved_only(s) == s.filter(|l: Location| l.resolved()),
    decreases s.len(),
{
    reveal(Seq::filter);
    if s.len() > 0 {
        lemma_resolved_only_is_filter(s.drop_last());
    }
}

} // verus!
