//! Planning library for copying new files from sources into structured destinations.
pub mod clock;
pub mod files;
pub mod laws;
pub mod matcher;
pub mod order;
pub mod paths;
pub mod pathmap;
pub mod plan;
pub mod planning;
pub mod replan;
pub mod section;
pub mod text;
pub mod util;
