//! Rate limits for calls to language models: sliding windows over tokens, requests and
//! cost, concurrency slots, reservations that are reconciled to the actual usage, and
//! the signals a caller needs to back off.
//!
//! Quantities are decimals with nine places, held as whole billionths: a token count, a
//! request count or a cost is an `i128`, a time or a window width in seconds an `i64`.

pub mod admission;
pub mod clock;
pub mod decimal;
pub mod fixed;
pub mod headers;
pub mod json;
pub mod laws;
pub mod limiter;
pub mod listing;
pub mod pricing;
pub mod rules;
pub mod store;
pub mod table;
pub mod text;
pub mod window;

pub use clock::{Clock, WallClock};
pub use headers::rate_limit_headers;
pub use limiter::{Acquire, Decision, Limiter, Reservation, Slot};
pub use listing::Listing;
pub use pricing::{estimate_cost, UnknownModel, PRICES};
pub use rules::{rules_from_json, LimitRule, Scope};
pub use store::{InMemoryStore, Store};
pub use window::{Handle, COST, REQUESTS, TOKENS};
