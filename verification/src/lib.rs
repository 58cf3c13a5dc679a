//! Headless core for running I-Simpa's unchanged solvers: the verified parts of its readers,
//! its reason codes and its bookkeeping.
use vstd::prelude::*;

pub mod basename;
pub mod cells;
pub mod chars;
pub mod depth;
pub mod facts;
pub mod diag;
pub mod census;
pub mod components;
pub mod check;
pub mod finish;
pub mod groups;
pub mod ids;
pub mod import;
pub mod inflate;
pub mod material;
pub mod mesh;
pub mod numbering;
pub mod place;
pub mod obj;
pub mod order;
pub mod outcome;
pub mod ply;
pub mod poly;
pub mod preprocess;
pub mod proj;
pub mod props;
pub mod project;
pub mod repair;
pub mod report;
pub mod scene;
pub mod skipped;
pub mod stl;
pub mod tetra;
pub mod text;
pub mod volumes;
pub mod words;
pub mod xml;
pub mod zip;

verus! {

/// Upstream commit the solvers are built from (tag `v1.4.0_snapshot_14_01_2026`).
pub const SOLVER_COMMIT: &'static str = "929a5c8e5f590b189f29155faeff8670f3699479";

} // verus!
