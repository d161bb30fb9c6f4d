//! Simplification of detailed building surface meshes into flat-roofed prisms.
//!
//! The library holds the combinatorial core of the conversion: face adjacency,
//! surface classification from per-face orientation measurements, pruning to
//! the ground footprint, boundary-loop extraction, and extrusion of that loop
//! to a target height. It also reads the records of the mesh text format line
//! by line and plans the merging of vertices for writing. Coordinates are
//! carried through as values of an arbitrary scalar type; the library never
//! computes with them.

pub mod error;
pub mod primitives;
pub mod model;
pub mod footprint;
pub mod boundary;
pub mod extrude;
pub mod convert;
pub mod laws;
pub mod obj;
pub mod weld;

pub use error::Error;
pub use obj::{parse_line, parse_lines, split_tokens, ParseError, Record, Records, Span};
pub use model::{Model, ModelView};
pub use primitives::{Face, FaceView, Orientation, Point3, SurfaceType, Vertex};
pub use weld::Welded;
