//! The layout pipeline: what is handed to the box solver, and how its answer
//! becomes screen coordinates and a paint order.
pub mod equality;
pub mod laws;
pub mod measure;
pub mod model;
pub mod style;
pub mod system;
pub mod ui_layout;
