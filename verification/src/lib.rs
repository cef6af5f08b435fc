//! The prefetching image cache of a directory-based image browser.
//!
//! A [`directory::Directory`] keeps an ordered listing of image files and a
//! cursor into it, and says after each step which files should be resident.
//! An [`images::ImageManager`] keeps decoded pixels and uploaded bitmaps in
//! two bounded caches ([`cache::Cache`]), remembers which files failed, and
//! decides for each load request what work, if any, has to be done.
//!
//! The library reads no files and draws nothing. Its callers list the
//! directory, decode the files and upload the bitmaps, and tell the library
//! what came of it.

pub mod cache;
pub mod config;
pub mod directory;
pub mod error;
pub mod images;
pub mod path;
pub mod path_map;
pub mod sort;
