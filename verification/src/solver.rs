//! Nearest-neighbour tours refined by 2-opt moves.
//!
//! A solve validates the problem, seeds a tour with the nearest-neighbour
//! heuristic from the depot, and, for the 2-opt backend, runs 2-opt passes.
//! Costs are bit patterns of `f64` values (see [`crate::cost`]). Nearest
//! neighbour only compares costs, which the library does on their order keys;
//! a 2-opt move is kept when it shortens the tour by more than `1e-9`, a sum
//! of four `f64` costs that the caller computes: [`TwoOptSearch`] names the
//! move to evaluate next and is told whether it improves.
use vstd::prelude::*;

use crate::cost::{cost_key, infinite_key, order_key, INFINITE_COST};
use crate::geocoder::Location;

verus! {

/// The solving strategy.
#[derive(Debug, Clone, Copy, PartialEq, Eq, Structural)]
pub enum SolverBackend {
    NearestNeighbor,
    NearestNeighborTwoOpt,
}

impl Default for SolverBackend {
    fn default() -> (b: Self)
        ensures
            b == SolverBackend::NearestNeighborTwoOpt,
    {
        SolverBackend::NearestNeighborTwoOpt
    }
}

/// Parameters of a solve.
#[derive(Debug, Clone, Copy)]
pub struct SolverConfig {
    /// The stop the tour starts from.
    pub depot_index: usize,
    /// The most 2-opt passes to run.
    pub two_opt_passes: usize,
    pub backend: SolverBackend,
}

impl Default for SolverConfig {
    fn default() -> (c: Self)
        ensures
            c.depot_index == 0,
            c.two_opt_passes == 50,
            c.backend == SolverBackend::NearestNeighborTwoOpt,
    {
        SolverConfig { depot_index: 0, two_opt_passes: 50, backend: SolverBackend::NearestNeighborTwoOpt }
    }
}

/// Why a problem was refused.
#[derive(Debug, Clone, Copy, PartialEq, Eq, Structural)]
pub enum SolveError {
    /// There are no locations.
    NoLocations,
    /// The matrix is not `locations x locations`; `cols` is the length of its
    /// first row, or 0 when it has none.
    MatrixShape { rows: usize, cols: usize, locations: usize },
    /// The depot index is not below the number of locations.
    DepotOutOfRange { depot_index: usize, locations: usize },
}

/// The cost of going from stop `i` to stop `j`.
pub open spec fn cell(m: Seq<Vec<u64>>, i: int, j: int) -> u64 {
    m[i]@[j]
}

/// `m` has `n` rows of `n` entries each.
pub open spec fn is_square(m: Seq<Vec<u64>>, n: int) -> bool {
    &&& m.len() == n
    &&& forall|r: int| 0 <= r < n ==> #[trigger] m[r]@.len() == n
}

/// Length of the first row, or 0 when there is none.
pub open spec fn first_row_len(m: Seq<Vec<u64>>) -> usize {
    if m.len() > 0 { m[0]@.len() as usize } else { 0 }
}

/// What validation answers for `n` locations, a matrix and a depot.
pub open spec fn validation(n: int, m: Seq<Vec<u64>>, depot: usize) -> Result<(), SolveError> {
    if n == 0 {
        Err(SolveError::NoLocations)
    } else if !is_square(m, n) {
        Err(SolveError::MatrixShape { rows: m.len() as usize, cols: first_row_len(m), locations: n as usize })
    } else if depot >= n {
        Err(SolveError::DepotOutOfRange { depot_index: depot, locations: n as usize })
    } else {
        Ok(())
    }
}

/// Checks that there are locations, that the matrix is square over them and
/// that the depot is one of them.
pub fn validate(locations: &[Location], matrix: &[Vec<u64>], depot_index: usize) -> (r: Result<(), SolveError>)
    ensures
        r == validation(locations@.len() as int, matrix@, depot_index),
{
    let n = locations.len();
    if n == 0 {
        return Err(SolveError::NoLocations);
    }
    let square = crate::matrix::is_square_matrix(matrix, n);
    if !square {
        let cols = if matrix.len() > 0 { matrix[0].len() } else { 0 };
        return Err(SolveError::MatrixShape { rows: matrix.len(), cols, locations: n });
    }
    if depot_index >= n {
        return Err(SolveError::DepotOutOfRange { depot_index, locations: n });
    }
    Ok(())
}

/// The nearest-neighbour choice from a row of costs: after examining the
/// first `j` columns, the smallest key seen below the running best (which
/// starts at the key of `+inf`) among stops not yet in `tour`, with the
/// column holding it; a later column replaces the best only when strictly
/// cheaper.
pub open spec fn scan(row: Seq<u64>, tour: Seq<usize>, j: nat) -> (u64, Option<usize>)
    decreases j,
{
    if j == 0 {
        (infinite_key(), None)
    } else {
        let prev = scan(row, tour, (j - 1) as nat);
        let c = j - 1;
        if !tour.contains(c as usize) && cost_key(row[c]) < prev.0 {
            (cost_key(row[c]), Some(c as usize))
        } else {
            prev
        }
    }
}

/// The stop that nearest neighbour appends to `tour`, if any.
pub open spec fn nn_next(m: Seq<Vec<u64>>, tour: Seq<usize>) -> Option<usize> {
    scan(m[tour.last() as int]@, tour, m.len()).1
}

/// The tour after `steps` nearest-neighbour steps from `start`; once no stop
/// can be appended the tour stays as it is.
pub open spec fn nn_path(m: Seq<Vec<u64>>, start: usize, steps: nat) -> Seq<usize>
    decreases steps,
{
    if steps == 0 {
        seq![start]
    } else {
        let p = nn_path(m, start, (steps - 1) as nat);
        match nn_next(m, p) {
            Some(b) => p.push(b),
            None => p,
        }
    }
}

/// The nearest-neighbour tour of a square matrix from `start`.
pub open spec fn nn_tour(m: Seq<Vec<u64>>, start: usize) -> Seq<usize> {
    nn_path(m, start, (m.len() - 1) as nat)
}

/// A scan only ever picks a column it has examined whose stop is not in the
/// tour, and whose key is its best key.
proof fn lemma_scan_pick(row: Seq<u64>, tour: Seq<usize>, j: nat)
    requires
        j <= row.len(),
        j <= usize::MAX,
    ensures
        scan(row, tour, j).1 matches Some(c) ==> (c < j && !tour.contains(c) && cost_key(row[c as int]) == scan(row, tour, j).0),
        scan(row, tour, j).1 is None ==> scan(row, tour, j).0 == infinite_key(),
    decreases j,
{
    if j > 0 {
        lemma_scan_pick(row, tour, (j - 1) as nat);
    }
}

/// Once no stop can be appended, further steps leave the tour unchanged.
proof fn lemma_nn_path_stops(m: Seq<Vec<u64>>, start: usize, k: nat, k2: nat)
    requires
        k <= k2,
        nn_next(m, nn_path(m, start, k)) is None,
    ensures
        nn_path(m, start, k2) == nn_path(m, start, k),
    decreases k2,
{
    if k2 > k {
        lemma_nn_path_stops(m, start, k, (k2 - 1) as nat);
    }
}

/// Builds a tour from `start` by repeatedly moving to the cheapest stop not
/// yet visited, ties going to the lowest index; it stops early when every
/// unvisited stop costs `+inf` or NaN from the current one.
pub fn nearest_neighbor(matrix: &[Vec<u64>], start: usize) -> (order: Vec<usize>)
    requires
        matrix@.len() > 0,
        is_square(matrix@, matrix@.len() as int),
        start < matrix@.len(),
    ensures
        order@ == nn_tour(matrix@, start),
        order@.len() >= 1,
        order@[0] == start,
        order@.len() <= matrix@.len(),
        order@.no_duplicates(),
        forall|t: int| 0 <= t < order@.len() ==> #[trigger] order@[t] < matrix@.len(),
{
    let n = matrix.len();
    let ghost m = matrix@;
    let mut visited: Vec<bool> = Vec::new();
    let mut v: usize = 0;
    while v < n
        invariant
            v <= n,
            visited@.len() == v,
            forall|q: int| 0 <= q < v ==> visited@[q] == (q == start),
        decreases n - v,
    {
        visited.push(v == start);
        v = v + 1;
    }
    let mut order: Vec<usize> = Vec::new();
    order.push(start);
    assert(order@ =~= seq![start]);
    assert forall|q: int| 0 <= q < n implies visited@[q] == order@.contains(q as usize) by {
        if q == start as int {
            assert(order@[0] == start);
        }
    }
    let mut step: usize = 1;
    while step < n
        invariant_except_break
            order@ == nn_path(m, start, (step - 1) as nat),
        invariant
            1 <= step <= n,
            n == m.len(),
            m == matrix@,
            is_square(m, n as int),
            start < n,
            visited@.len() == n,
            1 <= order@.len() <= step,
            order@[0] == start,
            order@.no_duplicates(),
            forall|t: int| 0 <= t < order@.len() ==> #[trigger] order@[t] < n,
            forall|q: int| 0 <= q < n ==> visited@[q] == order@.contains(q as usize),
        ensures
            order@ == nn_tour(m, start),
        decreases n - step,
    {
        let current = order[order.len() - 1];
        let ghost row = m[current as int]@;
        let mut best_key = order_key(INFINITE_COST);
        let mut best: usize = usize::MAX;
        let mut j: usize = 0;
        while j < n
            invariant
                j <= n,
                n == m.len(),
                m == matrix@,
                current < n,
                row == m[current as int]@,
                row.len() == n,
                visited@.len() == n,
                forall|q: int| 0 <= q < n ==> visited@[q] == order@.contains(q as usize),
                best_key == scan(row, order@, j as nat).0,
                best == usize::MAX <==> scan(row, order@, j as nat).1 is None,
                best != usize::MAX ==> scan(row, order@, j as nat).1 == Some(best),
                best != usize::MAX ==> best < j,
            decreases n - j,
        {
            let key = order_key(matrix[current][j]);
            if !visited[j] && key < best_key {
                best_key = key;
                best = j;
            }
            j = j + 1;
        }
        proof {
            lemma_scan_pick(row, order@, n as nat);
        }
        if best == usize::MAX {
            proof {
                lemma_nn_path_stops(m, start, (step - 1) as nat, (n - 1) as nat);
            }
            break;
        }
        let ghost prev = order@;
        visited.set(best, true);
        order.push(best);
        step = step + 1;
        proof {
            assert(order@ == prev.push(best));
            assert forall|q: int| 0 <= q < n implies visited@[q] == order@.contains(q as usize) by {
                if order@.contains(q as usize) && q != best as int {
                    let t = choose|t: int| 0 <= t < order@.len() && order@[t] == q as usize;
                    assert(prev[t] == q as usize);
                }
                if prev.contains(q as usize) {
                    let t = choose|t: int| 0 <= t < prev.len() && prev[t] == q as usize;
                    assert(order@[t] == q as usize);
                }
                if q == best as int {
                    assert(order@[order@.len() - 1] == best);
                }
            }
        }
    }
    order
}


/// The tour with positions `i..=k` reversed.
pub open spec fn reverse_range(s: Seq<usize>, i: int, k: int) -> Seq<usize> {
    Seq::new(s.len(), |t: int| if i <= t <= k { s[i + k - t] } else { s[t] })
}

/// Reversing a stretch of a tour keeps its stops and their multiplicities.
pub proof fn lemma_reverse_range_multiset(s: Seq<usize>, i: int, k: int)
    requires
        0 <= i <= k < s.len(),
    ensures
        reverse_range(s, i, k).to_multiset() == s.to_multiset(),
        reverse_range(s, i, k).len() == s.len(),
{
    let pre = s.subrange(0, i);
    let mid = s.subrange(i, k + 1);
    let post = s.subrange(k + 1, s.len() as int);
    assert(s =~= pre + mid + post);
    assert(reverse_range(s, i, k) =~= pre + mid.reverse() + post);
    mid.lemma_reverse_to_multiset();
    vstd::seq_lib::lemma_multiset_commutative(pre, mid);
    vstd::seq_lib::lemma_multiset_commutative(pre + mid, post);
    vstd::seq_lib::lemma_multiset_commutative(pre, mid.reverse());
    vstd::seq_lib::lemma_multiset_commutative(pre + mid.reverse(), post);
}

/// Where a 2-opt search stands: the tour, the pass, the move `(i, k)` to be
/// evaluated next (reversing tour positions `i..=k`), whether this pass has
/// improved the tour, and whether the search is over.
pub struct TwoOptState {
    pub order: Seq<usize>,
    pub max_passes: nat,
    pub pass: nat,
    pub i: nat,
    pub k: nat,
    pub improved: bool,
    pub done: bool,
}

/// A fresh search over `order`: nothing to do for fewer than 4 stops or no
/// passes, else the first pass starts at move `(1, 2)`.
pub open spec fn two_opt_start(order: Seq<usize>, max_passes: nat) -> TwoOptState {
    TwoOptState {
        order,
        max_passes,
        pass: 0,
        i: 1,
        k: 2,
        improved: false,
        done: order.len() < 4 || max_passes == 0,
    }
}

/// One evaluated move: the reversal is applied when it improves; then the
/// search moves to the next `k`, else to the next `i`, else ends the pass.
/// A pass without improvement ends the search, as does the last pass.
pub open spec fn two_opt_step(s: TwoOptState, improves: bool) -> TwoOptState {
    let order = if improves { reverse_range(s.order, s.i as int, s.k as int) } else { s.order };
    let improved = s.improved || improves;
    let n = s.order.len();
    if s.k + 2 < n {
        TwoOptState { order, improved, k: s.k + 1, ..s }
    } else if s.i + 3 < n {
        TwoOptState { order, improved, i: s.i + 1, k: s.i + 2, ..s }
    } else if !improved {
        TwoOptState { order, improved, done: true, ..s }
    } else if s.pass + 1 < s.max_passes {
        TwoOptState { order, improved: false, pass: s.pass + 1, i: 1, k: 2, ..s }
    } else {
        TwoOptState { order, improved, pass: s.pass + 1, done: true, ..s }
    }
}

/// The four stops a move compares: the tour at positions `i - 1`, `i`, `k`,
/// `k + 1`, named `(a, b, c, d)`. The move replaces legs `a-b` and `c-d` by
/// `a-c` and `b-d`.
pub open spec fn pending_stops(s: TwoOptState) -> Option<(usize, usize, usize, usize)> {
    if s.done {
        None
    } else {
        Some((s.order[s.i - 1], s.order[s.i as int], s.order[s.k as int], s.order[(s.k + 1) as int]))
    }
}

/// `a` comes strictly before `b` in the order in which a search visits its
/// passes and moves.
pub open spec fn position_before(a: TwoOptState, b: TwoOptState) -> bool {
    ||| a.pass < b.pass
    ||| a.pass == b.pass && a.i < b.i
    ||| a.pass == b.pass && a.i == b.i && a.k < b.k
}

/// A 2-opt search, driven one move at a time.
pub struct TwoOptSearch {
    order: Vec<usize>,
    max_passes: usize,
    pass: usize,
    i: usize,
    k: usize,
    improved: bool,
    done: bool,
    initial: Ghost<Seq<usize>>,
}

impl View for TwoOptSearch {
    type V = TwoOptState;

    closed spec fn view(&self) -> TwoOptState {
        TwoOptState {
            order: self.order@,
            max_passes: self.max_passes as nat,
            pass: self.pass as nat,
            i: self.i as nat,
            k: self.k as nat,
            improved: self.improved,
            done: self.done,
        }
    }
}

impl TwoOptSearch {
    /// The tour the search started from.
    pub closed spec fn initial(&self) -> Seq<usize> {
        self.initial@
    }

    /// The search state is coherent: a pending move lies inside the tour,
    /// and the tour holds the stops it started with, with the same first
    /// and last stop.
    pub closed spec fn wf(&self) -> bool {
        let n = self.order@.len();
        &&& !self.done ==> {
            &&& n >= 4
            &&& self.pass < self.max_passes
            &&& 1 <= self.i
            &&& self.i + 3 <= n
            &&& self.i + 1 <= self.k
            &&& self.k + 2 <= n
        }
        &&& self.pass <= self.max_passes
        &&& self.order@.to_multiset() == self.initial@.to_multiset()
        &&& n == self.initial@.len()
        &&& n > 0 ==> self.order@[0] == self.initial@[0] && self.order@[n - 1] == self.initial@[n - 1]
    }

    /// Starts a search over `order` with at most `max_passes` passes.
    pub fn new(order: Vec<usize>, max_passes: usize) -> (s: Self)
        ensures
            s.wf(),
            two_opt_in_bounds(s@),
            s@ == two_opt_start(order@, max_passes as nat),
            s.initial() == order@,
    {
        let done = order.len() < 4 || max_passes == 0;
        let ghost initial = order@;
        TwoOptSearch { order, max_passes, pass: 0, i: 1, k: 2, improved: false, done, initial: Ghost(initial) }
    }

    /// Whether the search is over.
    pub fn is_done(&self) -> (b: bool)
        ensures
            b == self@.done,
    {
        self.done
    }

    /// The current tour.
    pub fn order(&self) -> (o: &Vec<usize>)
        ensures
            o@ == self@.order,
    {
        &self.order
    }

    /// The four stops `(a, b, c, d)` of the move to evaluate next, or `None`
    /// when the search is over.
    pub fn pending_move(&self) -> (mv: Option<(usize, usize, usize, usize)>)
        requires
            self.wf(),
        ensures
            mv == pending_stops(self@),
    {
        let n = self.order.len();
        if self.done {
            None
        } else {
            assert(self.k + 1 < n);
            Some((self.order[self.i - 1], self.order[self.i], self.order[self.k], self.order[self.k + 1]))
        }
    }

    /// Records whether the pending move improves the tour, applies it if so,
    /// and advances the search.
    pub fn record(&mut self, improves: bool)
        requires
            old(self).wf(),
            !old(self)@.done,
        ensures
            final(self).wf(),
            two_opt_in_bounds(final(self)@),
            final(self)@ == two_opt_step(old(self)@, improves),
            final(self).initial() == old(self).initial(),
            final(self)@.done || position_before(old(self)@, final(self)@),
            final(self)@.order.len() == old(self)@.order.len(),
            improves ==> forall|t: int| old(self)@.i <= t <= old(self)@.k ==>
                #[trigger] final(self)@.order[t] == old(self)@.order[old(self)@.i + old(self)@.k - t],
            improves ==> forall|t: int| 0 <= t < old(self)@.order.len() && !(old(self)@.i <= t <= old(self)@.k) ==>
                #[trigger] final(self)@.order[t] == old(self)@.order[t],
            !improves ==> final(self)@.order == old(self)@.order,
    {
        let ghost s0 = self@;
        let n = self.order.len();
        if improves {
            let ghost before = self.order@;
            let mut lo = self.i;
            let mut hi = self.k;
            while lo < hi
                invariant
                    self.order@.len() == n,
                    before.len() == n,
                    self.i == s0.i,
                    self.k == s0.k,
                    self.pass == s0.pass,
                    self.max_passes == s0.max_passes,
                    self.improved == s0.improved,
                    self.done == s0.done,
                    self.initial == old(self).initial,
                    s0.i <= lo,
                    hi <= s0.k,
                    s0.k < n,
                    lo + hi == s0.i + s0.k,
                    lo <= hi + 1,
                    forall|t: int| 0 <= t < n ==> #[trigger] self.order@[t] == (
                        if (s0.i <= t < lo) || (hi < t <= s0.k) { before[s0.i + s0.k - t] } else { before[t] }),
                decreases hi + 1 - lo,
            {
                let x = self.order[lo];
                let y = self.order[hi];
                self.order.set(lo, y);
                self.order.set(hi, x);
                lo = lo + 1;
                hi = hi - 1;
            }
            assert(self.order@ =~= reverse_range(before, s0.i as int, s0.k as int));
            proof {
                lemma_reverse_range_multiset(before, s0.i as int, s0.k as int);
            }
            self.improved = true;
        }
        if self.k + 2 < n {
            self.k = self.k + 1;
        } else if self.i + 3 < n {
            self.i = self.i + 1;
            self.k = self.i + 1;
        } else if !self.improved {
            self.done = true;
        } else if self.pass + 1 < self.max_passes {
            self.pass = self.pass + 1;
            self.i = 1;
            self.k = 2;
            self.improved = false;
        } else {
            self.pass = self.pass + 1;
            self.done = true;
        }
    }

    /// Ends the search and hands back the tour.
    pub fn into_order(self) -> (o: Vec<usize>)
        ensures
            o@ == self@.order,
    {
        self.order
    }
}

/// Every step of a 2-opt search keeps the tour's stops with their
/// multiplicities, its length, and its first and last stop.
pub proof fn lemma_two_opt_step_keeps_stops(s: TwoOptState, improves: bool)
    requires
        !s.done,
        s.order.len() >= 4,
        1 <= s.i,
        s.i + 1 <= s.k,
        s.k + 2 <= s.order.len(),
    ensures
        two_opt_step(s, improves).order.to_multiset() == s.order.to_multiset(),
        two_opt_step(s, improves).order.len() == s.order.len(),
        two_opt_step(s, improves).order[0] == s.order[0],
        two_opt_step(s, improves).order[s.order.len() - 1] == s.order[s.order.len() - 1],
{
    lemma_reverse_range_multiset(s.order, s.i as int, s.k as int);
}


/// Tours that hold the same stops with the same multiplicities contain the
/// same stops, and one is free of repeats when the other is.
pub proof fn lemma_same_stops(a: Seq<usize>, b: Seq<usize>)
    requires
        a.to_multiset() == b.to_multiset(),
    ensures
        forall|x: usize| a.contains(x) <==> b.contains(x),
        a.no_duplicates() ==> b.no_duplicates(),
{
    broadcast use vstd::seq_lib::group_to_multiset_ensures;
    assert forall|x: usize| a.contains(x) <==> b.contains(x) by {
        assert(a.contains(x) <==> a.to_multiset().count(x) > 0);
        assert(b.contains(x) <==> b.to_multiset().count(x) > 0);
    }
    if a.no_duplicates() {
        a.lemma_multiset_has_no_duplicates();
        b.lemma_multiset_has_no_duplicates_conv();
    }
}

/// The passes a solve runs: the configured number for the 2-opt backend,
/// none for plain nearest neighbour.
pub open spec fn backend_passes(config: SolverConfig) -> nat {
    match config.backend {
        SolverBackend::NearestNeighbor => 0,
        SolverBackend::NearestNeighborTwoOpt => config.two_opt_passes as nat,
    }
}

/// The name a route reports for the backend that produced it.
pub open spec fn backend_label(backend: SolverBackend) -> Seq<char> {
    match backend {
        SolverBackend::NearestNeighbor => "nearest-neighbor"@,
        SolverBackend::NearestNeighborTwoOpt => "nearest-neighbor+2opt"@,
    }
}

/// The stops below `n` that `order` does not visit, in increasing order.
pub open spec fn dropped_stops(n: nat, order: Seq<usize>) -> Seq<usize>
    decreases n,
{
    if n == 0 {
        seq![]
    } else {
        let prev = dropped_stops((n - 1) as nat, order);
        if order.contains((n - 1) as usize) { prev } else { prev.push((n - 1) as usize) }
    }
}

/// `s` without its elements equal to `x`, the others kept in order.
pub open spec fn remove_all<A>(s: Seq<A>, x: A) -> Seq<A>
    decreases s.len(),
{
    if s.len() == 0 {
        seq![]
    } else {
        let prev = remove_all(s.drop_last(), x);
        if s.last() == x { prev } else { prev.push(s.last()) }
    }
}

/// The text of each string.
pub open spec fn texts(s: Seq<String>) -> Seq<Seq<char>> {
    s.map_values(|t: String| t@)
}

/// A solved route, without its total cost.
#[derive(Debug)]
pub struct RoutePlan {
    pub ordered_addresses: Vec<String>,
    pub ordered_indices: Vec<usize>,
    pub dropped_nodes: Vec<usize>,
    pub backend_used: String,
}

/// A solve in progress: a validated problem, its nearest-neighbour tour and
/// the 2-opt search over it.
pub struct TspRun {
    search: TwoOptSearch,
    backend: SolverBackend,
    stops: usize,
}

impl TspRun {
    /// The search state.
    pub closed spec fn state(&self) -> TwoOptState {
        self.search@
    }

    /// The nearest-neighbour tour the search started from.
    pub closed spec fn seed(&self) -> Seq<usize> {
        self.search.initial()
    }

    /// The backend of the solve.
    pub closed spec fn backend(&self) -> SolverBackend {
        self.backend
    }

    /// The number of locations of the problem.
    pub closed spec fn stops(&self) -> nat {
        self.stops as nat
    }

    /// The tour visits distinct stops, all of the problem.
    pub closed spec fn wf(&self) -> bool {
        &&& self.search.wf()
        &&& self.search@.order.len() >= 1
        &&& self.search@.order.no_duplicates()
        &&& forall|t: int| 0 <= t < self.search@.order.len() ==> #[trigger] self.search@.order[t] < self.stops
        &&& self.backend == SolverBackend::NearestNeighbor ==> (self.search@.done && self.search@.order == self.search.initial())
    }

    /// Validates the problem, builds the nearest-neighbour tour from the
    /// depot, and sets up the 2-opt search (with no passes for the plain
    /// nearest-neighbour backend).
    pub fn start(locations: &[Location], matrix: &[Vec<u64>], config: SolverConfig) -> (r: Result<TspRun, SolveError>)
        ensures
            r is Err <==> validation(locations@.len() as int, matrix@, config.depot_index) is Err,
            r matches Err(e) ==> validation(locations@.len() as int, matrix@, config.depot_index) == Err::<(), SolveError>(e),
            r matches Ok(run) ==> {
                &&& run.wf()
                &&& two_opt_in_bounds(run.state())
                &&& run.state() == two_opt_start(nn_tour(matrix@, config.depot_index), backend_passes(config))
                &&& run.seed() == nn_tour(matrix@, config.depot_index)
                &&& run.seed()[0] == config.depot_index
                &&& config.backend == SolverBackend::NearestNeighbor ==> (run.state().done
                    && run.state().order == nn_tour(matrix@, config.depot_index))
                &&& run.backend() == config.backend
                &&& run.stops() == locations@.len()
            },
    {
        match validate(locations, matrix, config.depot_index) {
            Err(e) => Err(e),
            Ok(()) => {
                let order = nearest_neighbor(matrix, config.depot_index);
                assert(order@[0] == config.depot_index);
                let passes = match config.backend {
                    SolverBackend::NearestNeighbor => 0,
                    SolverBackend::NearestNeighborTwoOpt => config.two_opt_passes,
                };
                let search = TwoOptSearch::new(order, passes);
                Ok(TspRun { search, backend: config.backend, stops: locations.len() })
            },
        }
    }

    /// The four stops of the 2-opt move to evaluate next, or `None` when the
    /// solve is ready to finish.
    pub fn pending_move(&self) -> (mv: Option<(usize, usize, usize, usize)>)
        requires
            self.wf(),
        ensures
            mv == pending_stops(self.state()),
    {
        self.search.pending_move()
    }

    /// Records whether the pending move improves the tour (whether
    /// `cost(a, c) + cost(b, d) - (cost(a, b) + cost(c, d)) < -1e-9`).
    pub fn record(&mut self, improves: bool)
        requires
            old(self).wf(),
            !old(self).state().done,
        ensures
            final(self).wf(),
            two_opt_in_bounds(final(self).state()),
            final(self).state() == two_opt_step(old(self).state(), improves),
            final(self).backend() == old(self).backend(),
            final(self).stops() == old(self).stops(),
            final(self).seed() == old(self).seed(),
            final(self).state().done || position_before(old(self).state(), final(self).state()),
    {
        let ghost before = self.search@.order;
        self.search.record(improves);
        proof {
            lemma_same_stops(before, self.search@.order);
            assert forall|t: int| 0 <= t < self.search@.order.len() implies #[trigger] self.search@.order[t] < self.stops by {
                assert(self.search@.order.contains(self.search@.order[t]));
            }
        }
    }

    /// The route: the tour's stops and addresses in order, the stops it
    /// leaves out, and the backend's name.
    pub fn finish(self, locations: &[Location]) -> (plan: RoutePlan)
        requires
            self.wf(),
            self.state().done,
            locations@.len() == self.stops(),
        ensures
            plan.ordered_indices@ == self.state().order,
            plan.ordered_addresses@.len() == plan.ordered_indices@.len(),
            forall|t: int| 0 <= t < plan.ordered_indices@.len() ==>
                #[trigger] plan.ordered_addresses@[t] == locations@[plan.ordered_indices@[t] as int].address,
            plan.dropped_nodes@ == dropped_stops(self.stops(), plan.ordered_indices@),
            plan.backend_used@ == backend_label(self.backend()),
            plan.ordered_indices@.no_duplicates(),
            forall|t: int| 0 <= t < plan.ordered_indices@.len() ==> #[trigger] plan.ordered_indices@[t] < self.stops(),
            plan.ordered_indices@.to_multiset() == self.seed().to_multiset(),
            self.backend() == SolverBackend::NearestNeighbor ==> plan.ordered_indices@ == self.seed(),
            plan.ordered_indices@.len() >= 1,
            plan.ordered_indices@[0] == self.seed()[0],
            plan.ordered_indices@.last() == self.seed().last(),
            forall|x: usize| x < self.stops() ==> (plan.ordered_indices@.contains(x) <==> !plan.dropped_nodes@.contains(x)),
            forall|t: int| 0 <= t < plan.dropped_nodes@.len() ==> #[trigger] plan.dropped_nodes@[t] < self.stops(),
    {
        proof {
            lemma_dropped_stops(self.stops as nat, self.search@.order);
        }
        let n = self.stops;
        let backend = self.backend;
        let order = self.search.into_order();
        let mut addresses: Vec<String> = Vec::new();
        let mut t: usize = 0;
        while t < order.len()
            invariant
                t <= order@.len(),
                addresses@.len() == t,
                locations@.len() == n,
                forall|u: int| 0 <= u < order@.len() ==> #[trigger] order@[u] < n,
                forall|u: int| 0 <= u < t ==> #[trigger] addresses@[u] == locations@[order@[u] as int].address,
            decreases order@.len() - t,
        {
            addresses.push(locations[order[t]].address.clone());
            t = t + 1;
        }
        let dropped = dropped_nodes(n, &order);
        let label = match backend {
            SolverBackend::NearestNeighbor => "nearest-neighbor".to_owned(),
            SolverBackend::NearestNeighborTwoOpt => "nearest-neighbor+2opt".to_owned(),
        };
        RoutePlan { ordered_addresses: addresses, ordered_indices: order, dropped_nodes: dropped, backend_used: label }
    }
}

/// The stops below `n` that `order` does not visit, in increasing order.
pub fn dropped_nodes(n: usize, order: &Vec<usize>) -> (dropped: Vec<usize>)
    ensures
        dropped@ == dropped_stops(n as nat, order@),
{
    let mut dropped: Vec<usize> = Vec::new();
    let mut i: usize = 0;
    while i < n
        invariant
            i <= n,
            dropped@ == dropped_stops(i as nat, order@),
        decreases n - i,
    {
        if !contains_stop(order, i) {
            dropped.push(i);
        }
        i = i + 1;
    }
    dropped
}

/// Whether `order` visits stop `x`.
pub fn contains_stop(order: &Vec<usize>, x: usize) -> (b: bool)
    ensures
        b == order@.contains(x),
{
    let mut t: usize = 0;
    while t < order.len()
        invariant
            t <= order@.len(),
            forall|u: int| 0 <= u < t ==> order@[u] != x,
        decreases order@.len() - t,
    {
        if order[t] == x {
            return true;
        }
        t = t + 1;
    }
    false
}


/// The address of the zero-cost end stop that turns an open route into a
/// closed one.
pub open spec fn end_marker() -> Seq<char> {
    "__end__"@
}

/// The locations with an unresolved end stop `"__end__"` appended.
pub fn open_locations(locations: &[Location]) -> (locs: Vec<Location>)
    ensures
        locs@.len() == locations@.len() + 1,
        forall|t: int| 0 <= t < locations@.len() ==> #[trigger] locs@[t] == locations@[t],
        locs@[locations@.len() as int].address@ == end_marker(),
        locs@[locations@.len() as int].lat is None,
        locs@[locations@.len() as int].lng is None,
{
    let mut locs: Vec<Location> = Vec::new();
    let mut t: usize = 0;
    while t < locations.len()
        invariant
            t <= locations@.len(),
            locs@.len() == t,
            forall|u: int| 0 <= u < t ==> #[trigger] locs@[u] == locations@[u],
        decreases locations@.len() - t,
    {
        locs.push(locations[t].clone());
        t = t + 1;
    }
    locs.push(Location { address: "__end__".to_owned(), lat: None, lng: None });
    locs
}

/// The matrix with a zero-cost column appended to every row and a row of
/// `n + 1` zero costs appended, where `n` is the number of locations: the end
/// stop is free to reach from anywhere and free to leave.
pub fn open_matrix(matrix: &[Vec<u64>], n: usize) -> (m: Vec<Vec<u64>>)
    requires
        n < usize::MAX,
        forall|r: int| 0 <= r < matrix@.len() ==> #[trigger] matrix@[r]@.len() < usize::MAX,
    ensures
        m@.len() == matrix@.len() + 1,
        forall|r: int| 0 <= r < matrix@.len() ==> #[trigger] m@[r]@ == matrix@[r]@.push(crate::cost::ZERO_COST),
        m@[matrix@.len() as int]@ == Seq::new((n + 1) as nat, |j: int| crate::cost::ZERO_COST),
{
    let mut m: Vec<Vec<u64>> = Vec::new();
    let mut r: usize = 0;
    while r < matrix.len()
        invariant
            r <= matrix@.len(),
            m@.len() == r,
            forall|q: int| 0 <= q < matrix@.len() ==> #[trigger] matrix@[q]@.len() < usize::MAX,
            forall|q: int| 0 <= q < r ==> #[trigger] m@[q]@ == matrix@[q]@.push(crate::cost::ZERO_COST),
        decreases matrix@.len() - r,
    {
        let mut row = matrix[r].clone();
        row.push(crate::cost::ZERO_COST);
        m.push(row);
        r = r + 1;
    }
    let mut last: Vec<u64> = Vec::new();
    let mut j: usize = 0;
    while j < n + 1
        invariant
            n < usize::MAX,
            j <= n + 1,
            last@ == Seq::new(j as nat, |q: int| crate::cost::ZERO_COST),
        decreases n + 1 - j,
    {
        last.push(crate::cost::ZERO_COST);
        j = j + 1;
        assert(last@ =~= Seq::new(j as nat, |q: int| crate::cost::ZERO_COST));
    }
    m.push(last);
    m
}

/// `s` without its elements equal to `x`.
pub fn without_stop(s: &Vec<usize>, x: usize) -> (out: Vec<usize>)
    ensures
        out@ == remove_all(s@, x),
        out@ == s@.filter(other_than(x)),
{
    proof {
        lemma_remove_all_is_filter(s@, x);
    }
    let mut out: Vec<usize> = Vec::new();
    let mut t: usize = 0;
    while t < s.len()
        invariant
            t <= s@.len(),
            out@ == remove_all(s@.take(t as int), x),
        decreases s@.len() - t,
    {
        assert(s@.take(t + 1).drop_last() =~= s@.take(t as int));
        if s[t] != x {
            out.push(s[t]);
        }
        t = t + 1;
    }
    assert(s@.take(s@.len() as int) =~= s@);
    out
}

/// `s` without its strings whose text is `x`.
pub fn without_text(s: &Vec<String>, x: &String) -> (out: Vec<String>)
    ensures
        texts(out@) == remove_all(texts(s@), x@),
        texts(out@) == texts(s@).filter(other_than(x@)),
{
    proof {
        lemma_remove_all_is_filter(texts(s@), x@);
    }
    let mut out: Vec<String> = Vec::new();
    let mut t: usize = 0;
    while t < s.len()
        invariant
            t <= s@.len(),
            texts(out@) == remove_all(texts(s@.take(t as int)), x@),
        decreases s@.len() - t,
    {
        assert(s@.take(t + 1).drop_last() =~= s@.take(t as int));
        assert(texts(s@.take(t + 1)).drop_last() =~= texts(s@.take(t as int)));
        let keep = !(s[t] == *x);
        if keep {
            out.push(s[t].clone());
        }
        assert(texts(out@) =~= if keep { texts(out@).drop_last().push(s@[t as int]@) } else { texts(out@) });
        t = t + 1;
    }
    assert(s@.take(s@.len() as int) =~= s@);
    out
}

impl RoutePlan {
    /// Turns the route of an open problem over `n` locations back into a
    /// route over them: drops the end stop `n` from the indices and every
    /// `"__end__"` from the addresses.
    pub fn close_open(self, n: usize) -> (plan: RoutePlan)
        ensures
            plan.ordered_indices@ == remove_all(self.ordered_indices@, n),
            texts(plan.ordered_addresses@) == remove_all(texts(self.ordered_addresses@), end_marker()),
            plan.ordered_indices@ == self.ordered_indices@.filter(other_than(n)),
            texts(plan.ordered_addresses@) == texts(self.ordered_addresses@).filter(other_than(end_marker())),
            plan.dropped_nodes@ == self.dropped_nodes@,
            plan.backend_used == self.backend_used,
    {
        let marker = "__end__".to_owned();
        assert(marker@ == end_marker());
        let ordered_addresses = without_text(&self.ordered_addresses, &marker);
        let ordered_indices = without_stop(&self.ordered_indices, n);
        RoutePlan { ordered_addresses, ordered_indices, dropped_nodes: self.dropped_nodes, backend_used: self.backend_used }
    }
}


/// The dropped stops are exactly the stops below `n` that the tour misses,
/// each once, in increasing order.
pub proof fn lemma_dropped_stops(n: nat, order: Seq<usize>)
    requires
        n <= usize::MAX + 1,
    ensures
        forall|x: usize| #[trigger] dropped_stops(n, order).contains(x) <==> (x < n && !order.contains(x)),
        forall|t: int| 0 <= t < dropped_stops(n, order).len() ==> #[trigger] dropped_stops(n, order)[t] < n,
        forall|a: int, b: int| 0 <= a < b < dropped_stops(n, order).len() ==> dropped_stops(n, order)[a] < dropped_stops(n, order)[b],
    decreases n,
{
    if n > 0 {
        lemma_dropped_stops((n - 1) as nat, order);
        let prev = dropped_stops((n - 1) as nat, order);
        assert forall|x: usize| #[trigger] dropped_stops(n, order).contains(x) <==> (x < n && !order.contains(x)) by {
            if dropped_stops(n, order).contains(x) && x != (n - 1) as usize {
                let t = choose|t: int| 0 <= t < dropped_stops(n, order).len() && dropped_stops(n, order)[t] == x;
                assert(prev[t] == x);
            }
            if prev.contains(x) {
                let t = choose|t: int| 0 <= t < prev.len() && prev[t] == x;
                assert(dropped_stops(n, order)[t] == x);
            }
            if x == (n - 1) as usize && !order.contains(x) {
                assert(dropped_stops(n, order)[prev.len() as int] == x);
            }
        }
    }
}


/// Every nearest-neighbour choice is a stop whose key is at most the key of
/// every stop not yet in the tour among the examined columns, and a scan that
/// has found a stop keeps one.
proof fn lemma_scan_min(row: Seq<u64>, tour: Seq<usize>, j: nat)
    requires
        j <= row.len(),
        j <= usize::MAX,
    ensures
        scan(row, tour, j).0 <= infinite_key(),
        scan(row, tour, j).1 is Some ==> scan(row, tour, j).0 < infinite_key(),
        forall|c: int| 0 <= c < j && !tour.contains(c as usize) ==> scan(row, tour, j).0 <= #[trigger] cost_key(row[c]),
        (exists|c: int| 0 <= c < j && !tour.contains(c as usize) && #[trigger] cost_key(row[c]) < infinite_key())
            ==> scan(row, tour, j).1 is Some,
    decreases j,
{
    if j > 0 {
        lemma_scan_min(row, tour, (j - 1) as nat);
        lemma_scan_pick(row, tour, (j - 1) as nat);
        let prev = scan(row, tour, (j - 1) as nat);
        if exists|c: int| 0 <= c < j && !tour.contains(c as usize) && #[trigger] cost_key(row[c]) < infinite_key() {
            let c = choose|c: int| 0 <= c < j && !tour.contains(c as usize) && #[trigger] cost_key(row[c]) < infinite_key();
            if c < j - 1 {
                assert(prev.1 is Some);
            }
        }
    }
}

/// The nearest-neighbour tour after any number of steps starts at `start`,
/// holds at most one more stop than steps taken, and visits distinct stops
/// of the matrix.
pub proof fn lemma_nn_path_shape(m: Seq<Vec<u64>>, start: usize, k: nat)
    requires
        m.len() > 0,
        is_square(m, m.len() as int),
        m.len() <= usize::MAX,
        start < m.len(),
    ensures
        1 <= nn_path(m, start, k).len() <= k + 1,
        nn_path(m, start, k)[0] == start,
        nn_path(m, start, k).no_duplicates(),
        forall|t: int| 0 <= t < nn_path(m, start, k).len() ==> #[trigger] nn_path(m, start, k)[t] < m.len(),
    decreases k,
{
    if k > 0 {
        lemma_nn_path_shape(m, start, (k - 1) as nat);
        let p = nn_path(m, start, (k - 1) as nat);
        let last = p.last();
        assert(p[p.len() - 1] < m.len());
        lemma_scan_pick(m[last as int]@, p, m.len());
        if let Some(b) = nn_next(m, p) {
            let q = p.push(b);
            assert forall|x: int, y: int| 0 <= x < y < q.len() implies q[x] != q[y] by {
                if y == q.len() - 1 {
                    assert(p.contains(q[x]) || x == q.len() - 1);
                }
            }
            assert forall|t: int| 0 <= t < q.len() implies #[trigger] q[t] < m.len() by {
                if t < p.len() {
                    assert(q[t] == p[t]);
                }
            }
        }
    }
}

/// A tour of distinct stops below `n` with fewer than `n` stops misses one.
pub proof fn lemma_tour_misses_stop(s: Seq<usize>, n: nat)
    requires
        s.no_duplicates(),
        forall|t: int| 0 <= t < s.len() ==> #[trigger] s[t] < n,
        s.len() < n,
        n <= usize::MAX + 1,
    ensures
        exists|c: usize| c < n && !s.contains(c),
    decreases n,
{
    let top = (n - 1) as usize;
    if !s.contains(top) {
        assert(top < n && !s.contains(top));
    } else {
        let idx = choose|t: int| 0 <= t < s.len() && s[t] == top;
        let r = s.remove(idx);
        assert forall|x: int, y: int| 0 <= x < y < r.len() implies r[x] != r[y] by {
            let sx = if x < idx { x } else { x + 1 };
            let sy = if y < idx { y } else { y + 1 };
            assert(r[x] == s[sx] && r[y] == s[sy]);
        }
        assert forall|t: int| 0 <= t < r.len() implies #[trigger] r[t] < (n - 1) as nat by {
            let st = if t < idx { t } else { t + 1 };
            assert(r[t] == s[st]);
            assert(st != idx);
        }
        lemma_tour_misses_stop(r, (n - 1) as nat);
        let c = choose|c: usize| c < (n - 1) as nat && !r.contains(c);
        assert forall|t: int| 0 <= t < s.len() implies s[t] != c by {
            if t < idx {
                assert(r[t] == s[t]);
            } else if t > idx {
                assert(r[t - 1] == s[t]);
            } else {
                assert(s[t] == top);
            }
        }
        assert(c < n && !s.contains(c));
    }
}

/// When every cost of the matrix is finite (its key is below that of
/// `+inf`), the nearest-neighbour tour visits every stop exactly once.
pub proof fn lemma_nn_tour_complete(m: Seq<Vec<u64>>, start: usize)
    requires
        m.len() > 0,
        is_square(m, m.len() as int),
        m.len() <= usize::MAX,
        start < m.len(),
        forall|i: int, j: int| 0 <= i < m.len() && 0 <= j < m.len() ==> #[trigger] cost_key(cell(m, i, j)) < infinite_key(),
    ensures
        nn_tour(m, start).len() == m.len(),
        nn_tour(m, start).no_duplicates(),
        forall|x: usize| x < m.len() ==> nn_tour(m, start).contains(x),
{
    lemma_nn_path_full(m, start, (m.len() - 1) as nat);
    lemma_nn_path_shape(m, start, (m.len() - 1) as nat);
    let tour = nn_tour(m, start);
    assert forall|x: usize| x < m.len() implies tour.contains(x) by {
        if !tour.contains(x) {
            let ghost sx = tour.push(x);
            assert forall|a: int, b: int| 0 <= a < b < sx.len() implies sx[a] != sx[b] by {
                if b == sx.len() - 1 {
                    assert(tour.contains(sx[a]) || a == sx.len() - 1);
                }
            }
            assert forall|t: int| 0 <= t < sx.len() implies #[trigger] sx[t] < m.len() + 1 by {
                if t < tour.len() {
                    assert(sx[t] == tour[t]);
                }
            }
            lemma_no_dup_bound(sx, m.len());
        }
    }
}

/// A tour of distinct stops below `n` has at most `n` stops.
proof fn lemma_no_dup_bound(s: Seq<usize>, n: nat)
    requires
        s.no_duplicates(),
        forall|t: int| 0 <= t < s.len() ==> #[trigger] s[t] < n,
    ensures
        s.len() <= n,
    decreases n, 1int,
{
    if s.len() > n {
        let prefix = s.take(n as int);
        assert forall|x: int, y: int| 0 <= x < y < prefix.len() implies prefix[x] != prefix[y] by {
            assert(prefix[x] == s[x] && prefix[y] == s[y]);
        }
        assert forall|t: int| 0 <= t < prefix.len() implies #[trigger] prefix[t] < n by {
            assert(prefix[t] == s[t]);
        }
        let missing_one = s[n as int];
        assert(prefix.len() == n);
        lemma_tour_fills(prefix, n);
        assert(prefix.contains(missing_one));
        let t = choose|t: int| 0 <= t < prefix.len() && prefix[t] == missing_one;
        assert(s[t] == s[n as int]);
    }
}

/// A tour of `n` distinct stops below `n` visits every stop below `n`.
proof fn lemma_tour_fills(s: Seq<usize>, n: nat)
    requires
        s.no_duplicates(),
        forall|t: int| 0 <= t < s.len() ==> #[trigger] s[t] < n,
        s.len() == n,
    ensures
        forall|x: usize| x < n ==> s.contains(x),
    decreases n, 0int,
{
    assert forall|x: usize| x < n implies s.contains(x) by {
        if n > 0 && !s.contains(x) {
            // Stop `x` is missing, so the `n` stops fit in the `n - 1` values
            // other than `x`: relabel `n - 1` as `x` and shrink.
            let top = (n - 1) as usize;
            let r = Seq::new(s.len(), |t: int| if s[t] == top { x } else { s[t] });
            assert forall|a: int, b: int| 0 <= a < b < r.len() implies r[a] != r[b] by {
                assert(s[a] != s[b]);
                assert(s[a] != x && s[b] != x);
            }
            assert forall|t: int| 0 <= t < r.len() implies #[trigger] r[t] < (n - 1) as nat by {
                assert(s[t] != x);
            }
            lemma_no_dup_bound(r, (n - 1) as nat);
        }
    }
}


/// With finite costs, every step up to `n - 1` appends a stop.
proof fn lemma_nn_path_full(m: Seq<Vec<u64>>, start: usize, k: nat)
    requires
        m.len() > 0,
        is_square(m, m.len() as int),
        m.len() <= usize::MAX,
        start < m.len(),
        k < m.len(),
        forall|i: int, j: int| 0 <= i < m.len() && 0 <= j < m.len() ==> #[trigger] cost_key(cell(m, i, j)) < infinite_key(),
    ensures
        nn_path(m, start, k).len() == k + 1,
    decreases k,
{
    if k > 0 {
        lemma_nn_path_full(m, start, (k - 1) as nat);
        lemma_nn_path_shape(m, start, (k - 1) as nat);
        let p = nn_path(m, start, (k - 1) as nat);
        lemma_tour_misses_stop(p, m.len());
        let c = choose|c: usize| c < m.len() && !p.contains(c);
        let last = p.last();
        assert(p[p.len() - 1] < m.len());
        let row = m[last as int]@;
        assert(cost_key(cell(m, last as int, c as int)) < infinite_key());
        assert(cost_key(row[c as int]) < infinite_key());
        lemma_scan_min(row, p, m.len());
    }
}


/// A scan's pick is strictly cheaper than every earlier column not in the
/// tour: ties go to the lowest index.
proof fn lemma_scan_first(row: Seq<u64>, tour: Seq<usize>, j: nat)
    requires
        j <= row.len(),
        j <= usize::MAX,
    ensures
        scan(row, tour, j).1 matches Some(b) ==> forall|c: int|
            0 <= c < b && !tour.contains(c as usize) ==> scan(row, tour, j).0 < #[trigger] cost_key(row[c]),
    decreases j,
{
    if j > 0 {
        lemma_scan_first(row, tour, (j - 1) as nat);
        lemma_scan_min(row, tour, (j - 1) as nat);
    }
}

/// Once a tour is shorter than one more than its steps, no stop can be
/// appended to it.
proof fn lemma_nn_path_stuck(m: Seq<Vec<u64>>, start: usize, k: nat)
    ensures
        nn_path(m, start, k).len() < k + 1 ==> nn_next(m, nn_path(m, start, k)) is None,
    decreases k,
{
    if k > 0 {
        lemma_nn_path_stuck(m, start, (k - 1) as nat);
    }
}

/// The first `t + 1` stops of a tour are the tour after `t` steps.
proof fn lemma_nn_path_prefix(m: Seq<Vec<u64>>, start: usize, k: nat, t: nat)
    requires
        t <= k,
        t < nn_path(m, start, k).len(),
        m.len() > 0,
        is_square(m, m.len() as int),
        m.len() <= usize::MAX,
        start < m.len(),
    ensures
        nn_path(m, start, k).take((t + 1) as int) == nn_path(m, start, t),
        nn_path(m, start, t).len() == t + 1,
    decreases k,
{
    lemma_nn_path_shape(m, start, k);
    lemma_nn_path_shape(m, start, t);
    if t == k {
        assert(nn_path(m, start, k).take((t + 1) as int) =~= nn_path(m, start, k));
    } else {
        let p = nn_path(m, start, (k - 1) as nat);
        lemma_nn_path_shape(m, start, (k - 1) as nat);
        if t < p.len() {
            lemma_nn_path_prefix(m, start, (k - 1) as nat, t);
            assert(nn_path(m, start, k).take((t + 1) as int) =~= p.take((t + 1) as int));
        } else {
            lemma_nn_path_stuck(m, start, (k - 1) as nat);
        }
    }
}

/// A nearest-neighbour step moves from `tour[t]` to a stop not yet visited
/// whose finite cost is the lowest among the unvisited stops, and strictly
/// below that of every unvisited stop with a lower index.
pub open spec fn greedy_step(m: Seq<Vec<u64>>, tour: Seq<usize>, t: int) -> bool {
    &&& !tour.take(t + 1).contains(tour[t + 1])
    &&& cost_key(cell(m, tour[t] as int, tour[t + 1] as int)) < infinite_key()
    &&& forall|j: int| 0 <= j < m.len() && !tour.take(t + 1).contains(j as usize) ==> {
        &&& cost_key(cell(m, tour[t] as int, tour[t + 1] as int)) <= #[trigger] cost_key(cell(m, tour[t] as int, j))
        &&& j < tour[t + 1] ==> cost_key(cell(m, tour[t] as int, tour[t + 1] as int)) < cost_key(cell(m, tour[t] as int, j))
    }
}

/// Every step of the nearest-neighbour tour is greedy, and a tour that
/// stops short of all stops does so because every stop it misses costs
/// `+inf` or NaN from its last stop.
pub proof fn lemma_nn_tour_greedy(m: Seq<Vec<u64>>, start: usize)
    requires
        m.len() > 0,
        is_square(m, m.len() as int),
        m.len() <= usize::MAX,
        start < m.len(),
    ensures
        forall|t: int| 0 <= t && t + 1 < nn_tour(m, start).len() ==> #[trigger] greedy_step(m, nn_tour(m, start), t),
        nn_tour(m, start).len() < m.len() ==> forall|j: int| 0 <= j < m.len() && !nn_tour(m, start).contains(j as usize)
            ==> #[trigger] cost_key(cell(m, nn_tour(m, start).last() as int, j)) >= infinite_key(),
{
    let k = (m.len() - 1) as nat;
    let tour = nn_tour(m, start);
    lemma_nn_path_shape(m, start, k);
    assert forall|t: int| 0 <= t && t + 1 < tour.len() implies #[trigger] greedy_step(m, tour, t) by {
        lemma_nn_path_prefix(m, start, k, t as nat);
        lemma_nn_path_prefix(m, start, k, (t + 1) as nat);
        let p = nn_path(m, start, t as nat);
        assert(tour.take(t + 1) == p);
        assert(tour.take(t + 2) == nn_path(m, start, (t + 1) as nat));
        assert(p.last() == tour[t]);
        let row = m[tour[t] as int]@;
        lemma_nn_path_shape(m, start, t as nat);
        assert(tour[t] < m.len());
        lemma_scan_pick(row, p, m.len());
        lemma_scan_min(row, p, m.len());
        lemma_scan_first(row, p, m.len());
        assert(nn_path(m, start, (t + 1) as nat)[t + 1] == tour[t + 1]);
        assert(nn_next(m, p) == Some(tour[t + 1]));
        assert(scan(row, p, m.len()).1 == Some(tour[t + 1]));
        assert(!p.contains(tour[t + 1]));
        assert(cost_key(cell(m, tour[t] as int, tour[t + 1] as int)) == scan(row, p, m.len()).0);
    }
    if tour.len() < m.len() {
        lemma_nn_path_stuck(m, start, k);
        let row = m[tour.last() as int]@;
        assert(tour[tour.len() - 1] < m.len());
        lemma_scan_min(row, tour, m.len());
    }
}


/// A pending move lies inside the tour and the pass count within its bound.
pub open spec fn two_opt_in_bounds(s: TwoOptState) -> bool {
    !s.done ==> {
        &&& s.order.len() >= 4
        &&& s.pass < s.max_passes
        &&& 1 <= s.i
        &&& s.i + 3 <= s.order.len()
        &&& s.i + 1 <= s.k
        &&& s.k + 2 <= s.order.len()
    }
}

/// A bound on the moves a search still evaluates.
pub open spec fn moves_left(s: TwoOptState) -> int {
    let n = s.order.len() as int;
    if s.done { 0 } else { (s.max_passes - s.pass) * n * n - (s.i * n + s.k) }
}

proof fn lemma_moves_left_step(p: int, q: int, i: int, k: int, n: int, i2: int, k2: int, p2: int)
    by (nonlinear_arith)
    requires
        n >= 4,
        0 <= p < q,
        1 <= i,
        i + 3 <= n,
        i + 1 <= k,
        k + 2 <= n,
        (p2 == p && i2 == i && k2 == k + 1) || (p2 == p && i2 == i + 1 && k2 == i + 2 && k + 2 >= n)
            || (p2 == p + 1 && i2 == 1 && k2 == 2 && k + 2 >= n && i + 3 >= n),
    ensures
        (q - p) * n * n - (i * n + k) > 0,
        p2 < q ==> (q - p2) * n * n - (i2 * n + k2) < (q - p) * n * n - (i * n + k),
{
}

/// A 2-opt search ends: a fresh search has at most `max_passes * n * n`
/// moves left, every recorded move keeps the search in bounds and lowers
/// that count, and a finished search has none.
pub proof fn lemma_two_opt_terminates(s: TwoOptState, improves: bool)
    requires
        two_opt_in_bounds(s),
        !s.done,
    ensures
        two_opt_in_bounds(two_opt_step(s, improves)),
        0 <= moves_left(two_opt_step(s, improves)) < moves_left(s),
        two_opt_step(s, improves).order.len() == s.order.len(),
        two_opt_step(s, improves).max_passes == s.max_passes,
{
    let t = two_opt_step(s, improves);
    let n = s.order.len() as int;
    if s.k + 2 < n {
        lemma_moves_left_step(s.pass as int, s.max_passes as int, s.i as int, s.k as int, n, s.i as int, (s.k + 1) as int, s.pass as int);
    } else if s.i + 3 < n {
        lemma_moves_left_step(s.pass as int, s.max_passes as int, s.i as int, s.k as int, n, (s.i + 1) as int, (s.i + 2) as int, s.pass as int);
    } else {
        lemma_moves_left_step(s.pass as int, s.max_passes as int, s.i as int, s.k as int, n, 1, 2, (s.pass + 1) as int);
    }
    if !t.done {
        assert(moves_left(t) > 0) by (nonlinear_arith)
            requires
                t.pass < t.max_passes,
                t.i + 3 <= t.order.len(),
                t.k + 2 <= t.order.len(),
                moves_left(t) == (t.max_passes - t.pass) * (t.order.len() as int) * (t.order.len() as int)
                    - (t.i * (t.order.len() as int) + t.k);
    }
}

/// A fresh search has at most `max_passes * n * n` moves left.
pub proof fn lemma_two_opt_start_bound(order: Seq<usize>, max_passes: nat)
    ensures
        two_opt_in_bounds(two_opt_start(order, max_passes)),
        moves_left(two_opt_start(order, max_passes)) <= max_passes * order.len() * order.len(),
{
    let n = order.len() as int;
    assert((max_passes as int) * n * n - (n + 2) <= (max_passes as int) * n * n);
}


/// Removing every `x` leaves no `x` and keeps every other element.
pub proof fn lemma_remove_all<A>(s: Seq<A>, x: A)
    ensures
        !remove_all(s, x).contains(x),
        forall|y: A| y != x ==> (remove_all(s, x).contains(y) <==> s.contains(y)),
        remove_all(s, x).len() <= s.len(),
    decreases s.len(),
{
    if s.len() > 0 {
        let p = s.drop_last();
        lemma_remove_all(p, x);
        let r = remove_all(s, x);
        let rp = remove_all(p, x);
        assert(s == p.push(s.last()));
        if r.contains(x) {
            let t = choose|t: int| 0 <= t < r.len() && r[t] == x;
            if t < rp.len() {
                assert(rp[t] == x);
            }
        }
        assert forall|y: A| y != x implies (r.contains(y) <==> s.contains(y)) by {
            if r.contains(y) {
                let t = choose|t: int| 0 <= t < r.len() && r[t] == y;
                if t < rp.len() {
                    assert(rp[t] == y);
                    assert(rp.contains(y));
                    assert(p.contains(y));
                    let u = choose|u: int| 0 <= u < p.len() && p[u] == y;
                    assert(s[u] == y);
                } else {
                    assert(s[s.len() - 1] == y);
                }
            }
            if s.contains(y) {
                let u = choose|u: int| 0 <= u < s.len() && s[u] == y;
                if u < p.len() {
                    assert(p[u] == y);
                    assert(p.contains(y));
                    assert(rp.contains(y));
                    let t = choose|t: int| 0 <= t < rp.len() && rp[t] == y;
                    assert(r[t] == y);
                } else {
                    assert(r[r.len() - 1] == y);
                }
            }
        }
    }
}

/// When every cost is finite, a route that holds the stops of the
/// nearest-neighbour tour drops no stop.
pub proof fn lemma_finite_costs_drop_nothing(m: Seq<Vec<u64>>, depot: usize, order: Seq<usize>)
    requires
        m.len() > 0,
        is_square(m, m.len() as int),
        m.len() <= usize::MAX,
        depot < m.len(),
        forall|i: int, j: int| 0 <= i < m.len() && 0 <= j < m.len() ==> #[trigger] cost_key(cell(m, i, j)) < infinite_key(),
        order.to_multiset() == nn_tour(m, depot).to_multiset(),
    ensures
        dropped_stops(m.len(), order).len() == 0,
        forall|x: usize| x < m.len() ==> order.contains(x),
{
    lemma_nn_tour_complete(m, depot);
    lemma_same_stops(nn_tour(m, depot), order);
    lemma_dropped_stops(m.len(), order);
    let d = dropped_stops(m.len(), order);
    if d.len() > 0 {
        assert(d.contains(d[0]));
    }
}


/// Whether an element differs from `x`.
pub open spec fn other_than<A>(x: A) -> spec_fn(A) -> bool {
    |e: A| e != x
}

/// Removing an element from a sequence extended by `y` removes it from the
/// sequence and keeps `y` at the end unless `y` is that element: the other
/// elements keep their order.
pub proof fn lemma_remove_all_push<A>(s: Seq<A>, y: A, x: A)
    ensures
        remove_all(s.push(y), x) == remove_all(s, x) + (if y == x { Seq::<A>::empty() } else { seq![y] }),
        remove_all(Seq::<A>::empty(), x) == Seq::<A>::empty(),
{
    assert(s.push(y).drop_last() =~= s);
    assert(remove_all(s, x) + Seq::<A>::empty() =~= remove_all(s, x));
    assert(remove_all(s, x) + seq![y] =~= remove_all(s, x).push(y));
}

/// Removing every `x` keeps exactly the elements other than `x`, in order:
/// it is the filter by `e != x`.
pub proof fn lemma_remove_all_is_filter<A>(s: Seq<A>, x: A)
    ensures
        remove_all(s, x) == s.filter(other_than(x)),
    decreases s.len(),
{
    reveal(Seq::filter);
    if s.len() > 0 {
        lemma_remove_all_is_filter(s.drop_last(), x);
    }
}

/// With the plain nearest-neighbour backend no 2-opt pass runs: the search
/// is over before it starts, whatever the number of passes configured.
pub proof fn lemma_plain_backend_runs_no_pass(order: Seq<usize>, config: SolverConfig)
    requires
        config.backend == SolverBackend::NearestNeighbor,
    ensures
        two_opt_start(order, backend_passes(config)).done,
        two_opt_start(order, backend_passes(config)).order == order,
{
}

/// An improving move reverses the tour positions `i..=k` and leaves every
/// other position alone; a move that does not improve leaves the tour as it
/// is.
pub proof fn lemma_improving_move_reverses(s: TwoOptState)
    requires
        !s.done,
        s.order.len() >= 4,
        1 <= s.i,
        s.i + 1 <= s.k,
        s.k + 2 <= s.order.len(),
    ensures
        two_opt_step(s, true).order.len() == s.order.len(),
        forall|t: int| s.i <= t <= s.k ==> #[trigger] two_opt_step(s, true).order[t] == s.order[s.i + s.k - t],
        forall|t: int| 0 <= t < s.order.len() && !(s.i <= t <= s.k) ==> #[trigger] two_opt_step(s, true).order[t] == s.order[t],
        two_opt_step(s, false).order == s.order,
{
}

} // verus!
