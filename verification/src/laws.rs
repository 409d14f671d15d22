//! What holds of the library as a whole.
pub mod contract;
pub mod encoding;
pub mod format;
pub mod joined;
pub mod judged;
pub mod names;
pub mod schema;
pub mod source;
pub mod statements;
pub mod walk;
pub mod words;
