//! Verified core of the Mer3ly public site: authority validation, repository
//! graph projection, device and firmware catalogs, arrangement producers and
//! the small text transforms that the static site is built from.

pub mod text;
pub mod arrangement;
pub mod repositories;
pub mod devices;
pub mod firmware_catalog;
pub mod repository_history;
pub mod site;
pub mod artifact;
pub mod structured_data;
pub mod public_text;
pub mod public_pages;
pub mod graph_reading;
pub mod page_text;
pub mod discovery;
pub mod schema;
pub mod matrix;
