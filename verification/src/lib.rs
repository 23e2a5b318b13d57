//! Photonic MZI-mesh layout library: a plain-value model of GDSII cell
//! hierarchies, a resumable hierarchy flattener, top-cell selection, and the
//! bookkeeping that maps flattened MZI placements and port labels onto a
//! Clements mesh.

pub mod gds;
pub mod mzi_array;
pub mod order;
pub mod text;

pub use gds::Layout;
