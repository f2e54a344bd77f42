//! Navigation and document model of a client for the Gopher protocol:
//! resource addresses, menu and text documents, link indices, rendering,
//! the history and bookmark state of a session, and the command grammar.

pub mod text;
pub mod url;
pub mod document;
pub mod navigation;
pub mod command;
