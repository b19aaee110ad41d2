//! A round-trip editor for SSH client configuration files.
//!
//! The document engine lives in [`ssh_config`]: an element model that keeps
//! every source line verbatim, a line-oriented parser, a projection to host
//! records, a structured mutation interface, a serializer and the rules of
//! persistence, together with the proofs that tie them to each other.
//!
//! The remaining modules hold the logic of the tool around the engine:
//! [`quick_add`] and [`import`] read hosts from targets and from `known_hosts`,
//! [`history`] and [`preferences`] keep what the tool remembers, [`ssh_keys`]
//! reads key listings, and [`state`], [`display`], [`search`] and [`sorting`]
//! decide what the host list shows. All of them rest on [`text`], [`split`] and
//! [`number`], which treat a text as a sequence of characters.
pub mod clipboard;
pub mod display;
pub mod history;
pub mod import;
pub mod number;
pub mod paths;
pub mod ping;
pub mod preferences;
pub mod quick_add;
pub mod search;
pub mod sorting;
pub mod split;
pub mod ssh_config;
pub mod ssh_keys;
pub mod state;
pub mod text;
