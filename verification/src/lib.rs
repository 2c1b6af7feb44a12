//! A small static-site generator: text is copied through verbatim, while
//! `{{ ... }}` blocks are lexed, parsed and (eventually) executed.

pub mod segment;
pub mod text;
pub mod num;
pub mod block;
pub mod ssg;
pub mod exe;
