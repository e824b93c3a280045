//! An embedded persistence layer: values stored by key in an ordered
//! byte store, and a publish/subscribe bus that announces their changes.

pub mod error;
pub mod signal;
pub mod store;
pub mod bcache;
pub mod model;

pub use error::Error;
pub use signal::{CallBack, CallBackSync, SigBase, SigType, Signal, Signaler, SignalerAsync, SignalerSync};
pub use store::{Continue, Store};
pub use model::{Model, DEFAULT_DB};
pub use bcache::Cache;
