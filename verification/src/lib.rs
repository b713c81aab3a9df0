//! Behavioral-analytics aggregation cores.
//!
//! Each module holds one stateful aggregation core with an `update` /
//! `combine` / `finalize` life cycle, suitable for use as a user-defined
//! aggregate in a columnar analytical database: the host feeds each group's
//! rows to `update`, may merge worker partials with `combine`, and reads the
//! group's result with `finalize`.  Every operation carries a contract that
//! pins its result down over a mathematical model of the state.

pub mod event;
pub mod executor;
pub mod interval;
pub mod parser;
pub mod retention;
pub mod sequence;
pub mod sequence_next_node;
pub mod sessionize;
pub mod text;
pub mod window_funnel;
