//! A feed digest library: an intermediate document model, a forgiving
//! HTML-fragment parser that classifies markup into it, dual renderers to
//! an e-book HTML dialect and Markdown, and an exact interchange codec.

pub mod ai_client;
pub mod ars_comments;
pub mod ast;
pub mod codec;
pub mod config;
pub mod dom;
pub mod epub_outputter;
pub mod front_page;
pub mod laws;
pub mod markdown_outputter;
pub mod parser;
pub mod sources;
pub mod strs;
