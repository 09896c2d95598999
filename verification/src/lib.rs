//! LinkCutter: URL threat scanning and shortening.
//!
//! - `scanner`: seven heuristics over a URL (IP literal, suspicious TLD,
//!   typosquat, '@' userinfo trick, Punycode, excessive length, known-bad
//!   blocklist) and the risk verdict drawn from how many fire.
//! - `shortener`: short codes, the store of mappings from code to URL, and
//!   ISO 8601 timestamps.
//! - `report`: the texts shown for scan results and resolved mappings, and
//!   the action picked in the interactive menu.
//! - `text`: character-level helpers with their specifications.

pub mod text;
pub mod scanner;
pub mod shortener;
pub mod report;
