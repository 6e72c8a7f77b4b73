//! Markdown writing helpers with a verified grammar-check pipeline: text is cut
//! into bounded segments at sentence or paragraph boundaries, each segment is
//! checked by a remote service, and the per-segment findings are merged back in
//! document order.

pub mod splitter;
pub mod grammar;
pub mod dispatch;
pub mod document;
pub mod url_utility;
