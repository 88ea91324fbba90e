//! Decisions behind syncing worked hours to a spreadsheet.

pub mod cache;
pub mod calendar;
pub mod cli;
pub mod config;
pub mod excel_local;
pub mod excel_online;
pub mod google_sheets;
pub mod host;
pub mod json;
pub mod provider;
pub mod queries;
pub mod query;
pub mod report;
pub mod resync;
pub mod rows;
pub mod stitch;
pub mod sync;
pub mod text;
pub mod text_map;
pub mod time;
pub mod token;
pub mod totals;
pub mod url;
pub mod windows;
pub mod working_hours;
