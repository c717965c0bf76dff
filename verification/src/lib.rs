//! Civil-calendar arithmetic on the proleptic Gregorian calendar without a
//! year zero: a moment of six fields, shifted by signed amounts of any field
//! with carries into the coarser ones, compared, measured against another
//! moment in seconds, and read from and written to text.
//!
//! `calendar` is the model: moments over unbounded integers and what each
//! shift makes of them. `datetime` is the moment that is held in memory, with
//! every operation stated against the model. `day_count`, `reach`, `weekday`
//! and `laws` prove what holds of the model. `decimal`, `fixed`, `loose` and
//! `written` read and write moments as text, `column` as the values of a
//! database column.

pub mod calendar;
mod carry;
pub mod column;
pub mod datetime;
pub mod day_count;
pub mod decimal;
pub mod fixed;
pub mod laws;
pub mod loose;
pub mod order;
pub mod reach;
pub mod weekday;
pub mod written;

pub use datetime::Datetime;
