//! A verified core for a small CalDAV client: a hand-written codec for the
//! calendar wire text (folding, property and parameter parsing, nested
//! containers), and the protocol-navigation logic around it (principal and
//! home-set discovery with fallback, calendar listing and filtering,
//! component queries, the save-time revision bump, and per-item failure
//! aggregation). The transport and the response-document reader stay outside;
//! this crate takes their plain values and answers plain values.

pub mod strutil;
pub mod ical_model;
pub mod views;
pub mod ical;
pub mod ical_laws;
pub mod errors;
pub mod credentials;
pub mod calendar;
pub mod component;
pub mod xml;
pub mod caldav;
pub mod api;
pub mod vcalendar_props;
pub mod xml_templates;
