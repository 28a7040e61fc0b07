//! The logic of a desktop time tracker, verified: durations and dates as they
//! are typed, the monthly CSV log and how it is rewritten, the running timer,
//! the workstream registry, export runs and their locks.

pub mod autocomplete;
pub mod billing;
pub mod bulk;
pub mod clients;
pub mod config;
pub mod crash;
pub mod csv;
pub mod csv_file;
pub mod csv_writer;
pub mod datefmt;
pub mod dates;
pub mod decimal;
pub mod dispatch;
pub mod duration;
pub mod edits;
pub mod entries;
pub mod export_pdf;
pub mod exports;
pub mod guard;
pub mod logging;
pub mod notify;
pub mod paths;
pub mod placement;
pub mod popover_window;
pub mod popup;
pub mod ranges;
pub mod retry;
pub mod selection;
pub mod single_instance;
pub mod sorting;
pub mod text;
pub mod timer;
pub mod workstream;
