//! Retained-mode widget reconciliation and layout propagation.
//!
//! Widgets are declared afresh on every tick. The [`entity_mapping`] module
//! maps each declared child onto a persistent node by its position and key,
//! and the [`layout`] module turns the boxes of a solver into screen
//! coordinates and a paint order.
pub mod entity_mapping;
pub mod layout;
pub mod mapping_laws;
pub mod mapping_model;
