//! Route optimisation for field crews: geocoded stops, a distance matrix
//! between them, and a nearest-neighbour tour refined by 2-opt moves.
use vstd::prelude::*;

pub mod config;
pub mod cost;
pub mod exporter;
pub mod geocoder;
pub mod matrix;
pub mod solver;

pub use config::{Settings, APP_NAME, APP_VERSION, ORG_NAME, OSRM_PUBLIC};
pub use exporter::{build_maps_url, build_maps_url_chunked};
pub use geocoder::Location;
pub use matrix::{Backend, MatrixError};
pub use solver::{RoutePlan, SolveError, SolverBackend, SolverConfig, TspRun, TwoOptSearch};

verus! {

} // verus!
