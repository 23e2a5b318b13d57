//! MZI mesh engine bridging flattened layouts to a Clements mesh.

pub mod engine;

pub use engine::{DEFAULT_V_PER_RAD_BITS, EngineError, MziInstance, MziMatrixEngine, PhaseParam, PhaseSlot, PortSet};
