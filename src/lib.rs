pub mod types;
pub mod text;
pub mod tokenizer;
pub mod reader;
pub mod eval;
pub mod printer;
pub mod roundtrip;
