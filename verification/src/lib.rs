//! Small text-retrieval toolkit: byte hashing, a table-driven tokenizer,
//! suffix stemming and tagging, a document corpus and an inverted index.
pub mod utils;
pub mod text;
pub mod tokenizer;
pub mod stemmer;
pub mod postagger;
pub mod scanner;
pub mod corpus;
pub mod invertedindex;
