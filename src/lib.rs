//! A parser and renderers for the ShortStoryServer Writer's Format v2 (S3WF2), a line-oriented
//! markup for dialogue-driven prose.
pub mod console;
pub mod document;
pub mod emitter;
pub mod error;
pub mod foreign;
pub mod html;
pub mod inline;
pub mod parser;
pub mod text;
