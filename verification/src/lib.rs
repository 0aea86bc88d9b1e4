//! Content negotiation and conditional-request predicates for a WebDAV-class
//! server, with the resource and filter interfaces they are used with.

pub mod index;
pub mod negotiation;
pub mod pattern;
pub mod pool;
pub mod quality;
pub mod store;
pub mod string_map;
pub mod text;
pub mod webdav;
