//! Verified core logic of the Oxi model runner: model names, Modelfile
//! parsing, thinking-trace extraction, stop sequences, prompt caching,
//! line editing, progress rendering and grammar helpers.

pub mod text;
pub mod name;
pub mod stop;
pub mod thinking;
pub mod readline;
pub mod version;
pub mod format;
pub mod syncmap;
pub mod errtypes;
pub mod tools;
pub mod thinking_template;
pub mod modelfile;
pub mod progress;
pub mod cache;
pub mod image_cache;
pub mod schema;
pub mod grammar;
pub mod json;
pub mod builtin;
pub mod convert;
pub mod tool_calls;
pub mod template;
pub mod auth;
pub mod model_store;
