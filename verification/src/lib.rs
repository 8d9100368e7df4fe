//! Book catalog core for a desktop e-book shelf: reconciles a directory of
//! EPUB files against a persisted catalog and resolves cover images through a
//! layered fallback chain.

pub mod book_item;
pub mod book_worker;
pub mod bookio;
pub mod database;
pub mod shelf;
pub mod util;
pub mod xml;
