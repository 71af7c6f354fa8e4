//! A small static-site toolkit: Markdown preprocessing, footnote linking,
//! search indexing and draft management.

pub mod text;
pub mod markdown;
pub mod footnotes;
pub mod highlight;
pub mod site;
pub mod new;
pub mod search;
