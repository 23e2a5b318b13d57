//! GDSII layout model, top-cell selection and hierarchy flattening.

pub mod flatten;
pub mod loader;
pub mod model;
pub mod progress;
pub mod traversal;

pub use flatten::{FlatLabel, FlatRef, Flattened, Flattener, FlattenInput, FlattenStep, PlacementKind, Xform};
pub use loader::{Layout, LayoutError, LoadedLibrary};
