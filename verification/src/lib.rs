//! The logic of a downtime report: when was this machine not running?
//!
//! The library reads what the platform's own tools print (`journalctl` on
//! Linux, `pmset` and `last` on macOS), turns it into downtime windows, clips
//! the windows to the requested range and words the report. Running the tools
//! and printing the report is left to the program around it.

pub mod backend;
pub mod boots;
pub mod calendar;
pub mod cli;
pub mod clock;
pub mod command;
pub mod dates;
pub mod downtime;
pub mod ending;
pub mod last;
pub mod number;
pub mod pmset;
pub mod report;
pub mod sort;
pub mod text;
pub mod windows;
