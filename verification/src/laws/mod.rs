//! What holds of the stages and between them.

pub mod machine;
pub mod runs;
pub mod rewrites;
pub mod coalescing;
pub mod pipeline;
pub mod parsing;
