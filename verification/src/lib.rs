//! meshcheck — combinatorial topology auditor for directed triangle soups.
//!
//! The default audit proves exactly one property: that the input is a
//! *combinatorially watertight* orientable triangle mesh — every undirected
//! edge is used by exactly two faces with opposite directions, the faces
//! around every vertex form a single fan (a cyclic link), and the face
//! complex is edge-connected. [`AuditMode::Boundary`] additionally accepts
//! compact surfaces with boundary, where a vertex link may be either one
//! cycle or one simple path. It does **not** inspect coordinates and
//! therefore cannot detect geometric self-intersection or degenerate
//! embedding.
//!
//! Modules: `text` (lines, comments, tokens, id order), `parse` (the
//! document grammar), `types` (public types and their views), `model`
//! (directed edge counts on face corner positions), `graph` (reachability
//! and components), `edges`, `sectors` and `connect` (the three audit
//! stages), `loops` (boundary loops), `analyze` (the whole audit), `render`
//! (the printed report and exit code), and the
//! laws of `canonical` (the canonical loops, and so the report, are unique)
//! and `modes` (a closed pass is exactly a boundary pass without loops).

pub mod analyze;
pub mod canonical;
pub mod connect;
pub mod edges;
pub mod graph;
pub mod loops;
pub mod model;
pub mod modes;
pub mod parse;
pub mod render;
pub mod sectors;
pub mod text;
pub mod types;

pub use analyze::{analyze, analyze_boundary, analyze_with, analyze_with_boundary};
pub use connect::audit_connected;
pub use edges::{audit_edges, audit_edges_with, edge_count};
pub use parse::parse;
pub use render::{exit_code, reject_kind, render};
pub use sectors::{audit_vertex_sectors, audit_vertex_sectors_with};
pub use types::{
    AuditMode, EdgeFailure, EdgeFault, Mesh, Reject, Report, MAX_FACES, MAX_VERTICES, MIN_FACES,
    MIN_VERTICES,
};
