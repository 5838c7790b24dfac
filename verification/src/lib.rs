//! A publish/subscribe event hub: a subscription index with subset matching over
//! topic fields, a per-subscriber batch accumulator bounded in size and age, and
//! the framing of sealed batches for dispatch.

pub use crate::types::EVENT_NAME_FIELD;

pub mod order;
pub mod decimal;
pub mod field;
pub mod topics;
pub mod endpoint;
pub mod types;
pub mod assoc;
pub mod index;
pub mod deadlines;
pub mod batches;
pub mod event_hub;
pub mod wire;
pub mod fns;
pub mod laws;
