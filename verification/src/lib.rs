//! A small graph-viewer core: a streaming parser for a restricted GraphML-like
//! markup dialect, a force-directed layout engine over integer world
//! coordinates, and a viewport fitter that derives an initial zoom and pan.

pub mod geom;
pub mod layout;
pub mod loader;
pub mod model;
pub mod state;
pub mod viewport;
pub mod xml;

pub use layout::apply_force_directed_layout;
pub use loader::{load_graphml, LoadError};
pub use model::{EdgeData, Graph, NodeData};
pub use state::{ViewerError, ViewerState};
pub use viewport::fit;
