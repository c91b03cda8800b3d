//! Resolution of hardware addresses to the organizations that registered
//! their prefixes in the IEEE assignment registries (MA-L, MA-M, MA-S, CID
//! and IAB).
//!
//! A table is compiled once from the registries' rows with `compile`, and
//! then queried with `lookup`, which takes an address in colon-separated or
//! bare hexadecimal form and returns the most specific matching record.
pub mod compile;
pub mod key_index;
pub mod lookup;
pub mod registry;
pub mod table;
pub mod text;

pub use compile::{compile, CompileError, Compiled, RowError};
pub use lookup::{lookup, lookup_prefix};
pub use registry::{get_registry, Registry};
pub use table::{clean_string, OuiData, OuiDataView, OuiDb};
