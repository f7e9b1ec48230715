//! Tailing a line-oriented input into a work queue that a pool of workers
//! drains against a data store.
pub mod config;
pub mod queue;
pub mod tail;
pub mod worker;

pub use config::{backend_for, pool_size, Backend, ConfigError, DEFAULT_POOL_SIZE};
pub use queue::{Dequeued, WorkQueue};
pub use tail::{enqueue_all, pump, LineSplitter, Pumped, CR, NEWLINE};
pub use worker::{run, start, step, WorkerAction, WorkerEvent, WorkerState, BACKOFF_MS, POLL_MS};
