//! The bridge to verde's explorer: how the mirror is shown to it, how its
//! operations become client operations, and how results are rendered back.

pub mod explorer;
pub mod render;
pub mod serialize;
pub mod serve;
pub mod search_results;
pub mod translate;
pub mod tree_state;
