//! Locates version-controlled repositories around a working directory —
//! downward with first-occurrence pruning and a depth bound, or upward
//! through the ancestors — and prepares a deterministic fan-out of one
//! external command over the resolved targets: ordering, headings, and
//! exit-code aggregation.
pub mod discover;
pub mod fstree;
pub mod heading;
pub mod pathstr;
pub mod resolve;
pub mod run;
