//! Process-table model, filtering, sorting, tree reconstruction and table
//! rendering for a `ps`-like process lister.

pub mod bytes;
pub mod darwin;
pub mod fields;
pub mod filter;
pub mod fit;
pub mod ids;
pub mod info;
pub mod linux;
pub mod process_info;
pub mod procargs;
pub mod sort;
pub mod table;
pub mod text;
pub mod tree;
pub mod user_filter;

pub use ids::{Pid, Uid};
pub use info::Info;
pub use process_info::ProcessInfo;
