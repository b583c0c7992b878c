//! TF-IDF indexing and search over text documents: the tokenizer, the
//! term-frequency tables, the index updates and the decisions that the
//! command-line program and the web service make around them.
pub mod command;
pub mod index;
pub mod laws;
pub mod lexer;
pub mod model;
pub mod properties;
pub mod reverse_search;
pub mod search;
pub mod stem;
pub mod strmap;
pub mod text;
pub mod unicode;
