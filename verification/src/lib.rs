//! Translation of documentation text by free services.
//!
//! The library decides and the caller acts: [`page::translate_page`] and
//! [`job::translate_texts`] say which file to read or which address to fetch next, and go
//! on with what came of it. Code within the texts is hidden from the services and put back
//! afterwards. A text that cannot be translated stays as it is.
pub mod batch;
pub mod cache;
pub mod config;
pub mod digits;
pub mod error;
pub mod job;
pub mod job_laws;
pub mod json;
pub mod page;
pub mod page_laws;
pub mod paths;
pub mod pattern;
pub mod placeholder;
pub mod placeholder_laws;
pub mod provider;
pub mod provider_laws;
pub mod request;
pub mod request_laws;
pub mod search;
pub mod split;
pub mod split_laws;
pub mod text;
