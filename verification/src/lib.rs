//! A verified calendar-event library: civil-calendar dates with time zones,
//! iCalendar event ingestion, recurrence-rule expansion, and windowed,
//! ordered merging of event streams.

pub mod calendar;
pub mod civil;
pub mod config;
pub mod date;
pub mod errors;
pub mod event;
pub mod merge;
pub mod periodic;
pub mod text;

pub use calendar::Calendar;
pub use config::Config;
pub use date::Date;
pub use date::Duration;
pub use errors::EventError;
pub use event::Event;
