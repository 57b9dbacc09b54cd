//! Reading a list of pages, finding each one's title, and rendering one line
//! per page; the fetching itself is left to the caller.
pub mod text;
pub mod title;
pub mod template;
pub mod pipeline;
