//! Exports live counters and gauges through a memory-mapped values file and a
//! text metadata file that an outside monitoring agent scans on its own.
//!
//! The verified core lays metrics out in the shared region, writes and parses
//! the metadata text, decides whether a previous process's region can be
//! adopted, and redirects every value between its private slot and the region.
pub mod collection;
pub mod counter;
pub mod integer;
pub mod laws;
pub mod layout;
pub mod meta;
pub mod name;
pub mod read;
pub mod region;
pub mod value;

pub use collection::{Collection, Slot, Target, MAX_METRICS};
pub use counter::Counter;
pub use integer::Integer;
pub use layout::PAGE_SIZE;
pub use meta::MetaError;
pub use name::{identity, Labels, Name};
pub use read::{plan_recovery, read_and_map};
pub use value::{LevelKind, RawType, Value};
