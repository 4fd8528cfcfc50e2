//! Analytics engine for Git histories: churn, hotspot candidates,
//! ownership shares and co-change counts, plus the cache format and the
//! decisions of the history walk. Everything here is pure and verified;
//! reading the repository and drawing the terminal live in the binary.

pub mod config;
pub mod engine;
pub mod log;
pub mod order;
pub mod text;
pub mod theme;
pub mod ui;
pub mod version;
