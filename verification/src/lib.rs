//! Verified core of a terminal live viewer for cryptocurrency prices.
//!
//! The crate holds the pure logic of the viewer: a fixed-point decimal
//! type with the "nice number" axis helpers, compact decimal formatting,
//! the per-symbol market state store, the message protocol and the UI
//! state machine, and the pure view renderers.  Terminal drawing, the
//! network transport and the feed parser live outside, in the
//! accompanying application shell, and talk to this crate through plain
//! values.

pub mod catalog;
pub mod decimal;
pub mod fmt;
pub mod market;
pub mod msg;
pub mod ui;
pub mod views;
pub mod nice;
