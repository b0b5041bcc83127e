//! Tracks, for each named task, the moment it was last done, and reports how
//! long ago that was.
//!
//! A [`Tasks`] store maps task names to timestamps. Tasks are done, removed
//! or kept by name; the store is read from and written to a JSON object of
//! timestamp texts; and a report lists the tasks by ascending elapsed time,
//! the names padded to one width.
//!
//! Every function here is verified against its contract, with these
//! exceptions, whose contracts are taken on trust: the calls into chrono in
//! [`time`] (reading and writing a timestamp, the clock, the difference of
//! two moments) and the calls into serde_json in [`json`]. Contracts speak of
//! a store as the sequence of its entries, a name and a moment each, and of a
//! moment as seconds and nanoseconds since 1970.

pub mod command;
pub mod errors;
pub mod json;
pub mod order;
pub mod persist;
pub mod report;
pub mod store;
pub mod text;
pub mod time;
pub mod wording;

pub use crate::command::Action;
pub use crate::command::Args;
pub use crate::command::Outcome;
pub use crate::errors::AsErrStr;
pub use crate::errors::DataDirNotFoundError;
pub use crate::errors::LoadError;
pub use crate::report::OutputTasks;
pub use crate::store::Tasks;
pub use crate::time::now;
pub use crate::time::Elapsed;
pub use crate::time::Timestamp;
