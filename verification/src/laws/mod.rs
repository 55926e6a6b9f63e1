//! What holds of the library as a whole, over all inputs and across calls.
//!
//! `promises`, `slots`, `stores` and `engines` state what the calls of the limiter, of its
//! store and of its windows promise, of what goes in and what comes out; `callers` states
//! what a caller can rely on from one call to the next, and `histories`, `disorder` and
//! `outstanding` what holds of a whole run of calls. `shown`, `settings`, `documents` and
//! `numbers` state the same of what is shown and of what is read. They rest on the laws of
//! decisions (`coverage`, `decisions`, `admissions`, `retries`), of reservations
//! (`reservations`), of keys (`keys`), of the windows (`windows`, `counting`, `waiting`,
//! `accuracy`, `memory`) and of rounding (`figures`). `contents`, `bucket_sums` and `events`
//! hold what these have in common.

pub mod accuracy;
pub mod admissions;
pub mod bucket_sums;
pub mod callers;
pub mod contents;
pub mod counting;
pub mod coverage;
pub mod decisions;
pub mod disorder;
pub mod documents;
pub mod engines;
pub mod events;
pub mod figures;
pub mod histories;
pub mod keys;
pub mod memory;
pub mod numbers;
pub mod outstanding;
pub mod promises;
pub mod reservations;
pub mod retries;
pub mod settings;
pub mod shown;
pub mod slots;
pub mod stores;
pub mod waiting;
pub mod windows;
