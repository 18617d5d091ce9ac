//! Bookmark-album logic: bookmark-file formats, URL helpers, tree and list
//! rules of the bookmark manager, and the PE import-table patcher.

pub mod text;
pub mod pe;
pub mod markup;
pub mod net;
pub mod json;
pub mod bookmarks;
pub mod export;
pub mod store;
pub mod album;
pub mod settings;
pub mod panel;
pub mod icons;
pub mod favicon;
pub mod winmsg;
pub mod compat;
