//! A command-line mail and calendar client's logic, verified: iCalendar
//! events, thread summaries, link extraction, search filters and bulk actions.

pub mod text;
pub mod civil;
pub mod decimal;
pub mod error;
pub mod ical;
pub mod datetime;
pub mod duration;
pub mod event;
pub mod xml;
pub mod percent;
pub mod http;
pub mod caldav;
pub mod models;
pub mod html;
pub mod thread;
pub mod digest;
pub mod links;
pub mod export;
pub mod replied;
pub mod search;
pub mod keywords;
pub mod bulk;
pub mod mailbox;
pub mod push;
pub mod watch;
pub mod get;
pub mod compose;
