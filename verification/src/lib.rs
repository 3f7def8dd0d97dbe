//! Verified core of a chat-history book exporter.
//!
//! The library turns a conversation's message stream into a chronologically
//! chaptered, LaTeX-ready manuscript: it resolves a conversation identifier
//! to internal chat ids, orders and filters the message stream, partitions
//! it into calendar-month chapters, sanitizes message text for LaTeX, and
//! assembles the root manuscript document.  Database access, network title
//! fetches and file writes live outside the library and hand it plain values.

pub mod text;
pub mod sanitize;
pub mod dates;
pub mod records;
pub mod chapters;
pub mod render;
pub mod manuscript;
