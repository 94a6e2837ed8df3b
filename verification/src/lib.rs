//! Finds cheap sell orders on warframe.market, groups and ranks them by seller,
//! and writes the whisper messages that offer to buy them.

pub mod model;
pub mod process;
pub mod process_laws;
pub mod text;
pub mod message;
pub mod fetch;
pub mod filter;
pub mod settings;
pub mod locale;
pub mod jobs;
