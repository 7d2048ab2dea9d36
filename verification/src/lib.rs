//! Terminal dashboard core: bounded rolling counters for process metrics,
//! axis scaling, sub-character rasterization, panel layout packing, and
//! scroll-window bookkeeping.

pub mod config;
pub mod counter;
pub mod layout;
pub mod panel;
pub mod shot;
pub mod ux;
