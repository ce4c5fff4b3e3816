//! Finds the games that Steam has installed and the places where they keep
//! their saved games.
//!
//! The work is done in stages, each a function from plain values to plain
//! values, so that a program reads the disk and this library decides:
//!
//! - [`locate`] picks the Steam installation and lists its library folders;
//! - [`scan`] turns the manifests found in the library folders into games;
//! - [`manifest`] holds the database of what is known of each game;
//! - [`report`] joins the games with the database and writes the report.
//!
//! [`keyvalue`] reads the key-value documents in which Steam keeps its
//! records, and [`text`] holds what the stages need of strings and paths.

pub mod keyvalue;
pub mod locate;
pub mod manifest;
pub mod report;
pub mod scan;
pub mod text;
