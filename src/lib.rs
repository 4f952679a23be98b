pub mod text;
pub mod inventory;
pub mod planner;
pub mod conflicts;
pub mod executor;
pub mod granary;
pub mod node;
pub mod storage;
pub mod labels;
pub mod utils;
pub mod overlay;
pub mod laws;
pub mod sync;
pub mod nuke;
pub mod diagnostics;
