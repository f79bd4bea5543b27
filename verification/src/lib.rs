//! Calendar-date arithmetic and compound-growth bookkeeping.
//!
//! The library is the calculation core of a small compounding utility: it
//! parses and formats `YYYY-MM-DD` dates, compares them, computes the civil
//! (years, months, weeks, days) breakdown between two dates, advances a date
//! by such a breakdown, counts elapsed days, and decides when the
//! compound-growth solvers may run. A host user interface collects the raw
//! text, calls these functions, and displays the results; all floating-point
//! display math stays with the host.

pub mod date;
pub mod diff;
pub mod solver;
pub mod text;
pub mod widgets;
