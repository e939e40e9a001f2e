//! Encounter detection: turns noisy per-frame text observations into a
//! debounced walking/encounter state and keeps the session's tallies.

pub mod capture;
pub mod filter;
pub mod frame;
pub mod machine;
pub mod mode;
pub mod planar;
pub mod state;
pub mod stats;
pub mod tally;
pub mod text;
