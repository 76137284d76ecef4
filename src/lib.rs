pub mod summarizer;
pub mod tokenizer;

pub use summarizer::Summarizer;
pub use summarizer::TermStat;
pub use tokenizer::Tokenizer;
