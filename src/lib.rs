//! A static blog generator: markdown posts whose first two text runs give a
//! title and a date, rendered through templates into post pages and an index.

pub mod date;
pub mod text;
pub mod error;
pub mod markdown;
pub mod post;
pub mod site;
