//! A small Markov-chain text model: a tokenizer that splits raw text into
//! typed tokens, a bounded text database that maps every N-token window to
//! the tokens observed after it, and a generator that walks that map at
//! random to produce novel text.

pub mod context_map;
pub mod generator;
pub mod text_db;
pub mod tokenizer;

pub use generator::MessageGenError;
pub use generator::MessageGenerator;
pub use text_db::TextDB;
pub use tokenizer::TextTokenizer;
pub use tokenizer::Token;
