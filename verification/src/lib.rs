//! Planning and bookkeeping for database schema migrations.
//!
//! Migrations are read from TOML files, ordered by id, compared by checksum
//! against the changelog that the database keeps, and applied (or rolled back)
//! one transaction at a time through a [`executor::Backend`].

pub mod backend;
pub mod executor;
pub mod migration;
pub mod migrations;
pub mod migrator;
pub mod separator;
pub mod traits;
