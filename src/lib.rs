//! Discovery and ordering of Maildir mailboxes.
//!
//! A mailbox is a directory that holds a `cur` subdirectory. Paths are held
//! as sequences of components, each a byte string, so that two paths are
//! equal exactly when their components are.
pub mod order;
pub mod expand;
pub mod listing;
pub mod maildir;
pub mod output;
pub mod path;
