//! A ticker-to-identifier directory: parse a tab-separated feed of
//! `symbol\tidentifier` lines into a lookup table, and answer
//! symbol-to-identifier and identifier-to-symbol queries.

pub mod directory;
pub mod text;

pub use directory::TickerDirectory;
pub use directory::cik;
pub use directory::parse_feed;
pub use directory::ticker;
pub use text::to_lower;
