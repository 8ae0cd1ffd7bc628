//! A verified core for a weekly scheduling application.
//!
//! The library models a seven-day, hour-by-hour schedule grid, addresses
//! weeks by their ISO week (Monday through Sunday), persists a week's grid
//! in a canonical text format, and drives the hover/selection interaction
//! state machine that determines what each cell displays.

pub mod clock;
pub mod codec;
pub mod date;
pub mod model;
pub mod num;
pub mod session;
pub mod store;
pub mod text;
