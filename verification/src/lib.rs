//! An in-memory index that keeps a time-varying partial bijection between
//! links and values. Every fact is recorded under a context, a point of a
//! totally ordered notion of time that the caller supplies, and the index
//! answers what a link was associated with as of any context.
//!
//! [`ContextMap`] is the index. [`ContextMapView`] is what it holds, as
//! mathematics: the contracts of the map are stated over it. The module
//! [`laws`] proves what holds of every map, and the module [`bijection`]
//! that no value is ever carried by two links at one and the same context.

pub mod bijection;
pub mod command;
pub mod laws;
pub mod map;
pub mod model;
pub mod order;
pub mod record;
pub mod registry;

pub use crate::command::InsertionError;
pub use crate::command::InsertionOutcome;
pub use crate::command::LinkInsertionCommand;
pub use crate::command::StrictInsertionError;
pub use crate::command::ValueInsertionCommand;
pub use crate::map::ContextMap;
pub use crate::model::ContextMapView;
pub use crate::record::ContextRecord;
pub use crate::registry::ContextRegistry;
