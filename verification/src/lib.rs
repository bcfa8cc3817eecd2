//! A deduplicated, filtered wordlist built from arbitrary text, with random
//! sampling from the persisted list and exact contracts on every step.

pub mod filter;
pub mod order;
pub mod persist;
pub mod sample;
pub mod tokenize;
pub mod wordlist;

pub use filter::cleanup;
pub use filter::is_accepted;
pub use order::str_lt;
pub use persist::render_wordlist;
pub use persist::split_lines;
pub use sample::join;
pub use sample::sample_words;
pub use sample::SampleError;
pub use tokenize::tokenize;
pub use wordlist::sort_dedup;
pub use wordlist::update_wordlist;
