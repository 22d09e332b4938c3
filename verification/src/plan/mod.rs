//! Planning: new names for discovered items, conflict resolution, and the
//! bottom-up order in which a batch is executed.
pub mod paths;
pub mod naming;
pub mod conflict;
pub mod sort;
pub mod names;
pub mod batch;
pub mod laws;
pub mod reorder_laws;
pub mod walk;
