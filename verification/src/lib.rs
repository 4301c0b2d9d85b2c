//! Flight legs from aircraft position traces, and the month-bucketed cache
//! plan that feeds them.
//!
//! The crate holds the decisions only: how a trace is cut into legs, which
//! calendar months a date range touches, how a month bucket is keyed in
//! storage, and what a cached fetch does with what the storage and the
//! producer answer. Reading, writing and fetching are the caller's part.

pub mod cache;
pub mod calendar;
pub mod key;
pub mod legs;
pub mod trace_month;

pub use cache::{cached_call, CacheAction, CacheEvent, CacheState, CacheStep};
pub use calendar::{get_month, Day, YearMonth, MAX_DAY, MAX_YEAR, MIN_DAY, MIN_YEAR};
pub use key::{blob_name_to_pk, month_prefix, pk_to_blob_name};
pub use legs::{can_segment, leg_spans, legs, Altitude, Leg, Position, GROUND_THRESHOLD};
pub use trace_month::{
    aircraft_positions, covers, existing_months_positions, existing_months_positions_future,
    month_positions, months_in_range, push_month, MonthRequest,
};
