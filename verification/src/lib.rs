//! Size-tree model and navigation state of an interactive disk-usage browser.
//!
//! `model` holds the scanned tree, `order` the size ordering of siblings,
//! `path` the path operations the tree relies on, `app` the browsing state,
//! `events` the key handling, and `laws` the properties that span calls.

pub mod app;
pub mod events;
pub mod laws;
pub mod model;
pub mod order;
pub mod path;
pub mod scanner;
