//! Core of a command-line invoicing tool: clients and companies live in a
//! relational row store, invoices are rendered from a logic-less template and
//! exported as PDF files.  This crate holds the verified logic: money kept in
//! integer cents, invoice numbering, the row-store model with its searches,
//! the item-record parser, the template renderer and the output-path rules.
//! The surrounding binary does the actual terminal, database and browser work.
pub mod dates;
pub mod digits;
pub mod export;
pub mod flow;
pub mod items;
pub mod money;
pub mod render;
pub mod search;
pub mod store;
