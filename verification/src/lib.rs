//! Core of a desktop file finder: indexing, querying, searching, content grep,
//! previews, settings and the state behind the window. The window itself is not
//! part of it.

pub mod content;
pub mod dates;
pub mod dir_map;
pub mod doctext;
pub mod fileops;
pub mod filters;
pub mod index;
pub mod media;
pub mod mft;
pub mod numbers;
pub mod order;
pub mod paths;
pub mod preview;
pub mod query;
pub mod results;
pub mod scan;
pub mod search;
pub mod session;
pub mod settings;
pub mod text;
pub mod thumbnail;
pub mod tray;
pub mod utf16;
pub mod util;
pub mod watcher;
pub mod worker;
