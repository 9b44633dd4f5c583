//! A package-state reconciliation front end for a declarative system
//! configuration: it plans installs and removals across three domains
//! (an imperative per-user profile, a declarative system configuration,
//! and a declarative per-user environment), edits the array-valued
//! attribute of a configuration document that lists the declared
//! packages, drives the privileged helper that writes the new document
//! and rebuilds (restoring the old document when the build fails), and
//! ranks package search results.

pub mod apply;
pub mod bytes;
pub mod editor;
pub mod error;
pub mod ident;
pub mod plan;
pub mod profile;
pub mod search;
pub mod store;
