pub mod escape;
pub mod escape_csv;
pub mod varint;
pub mod structural;
pub mod extract;
pub mod parser;
pub mod rust_generator;
pub mod rust_parser;
pub mod visitor;
pub mod vector_classifier;
pub mod select;
pub mod print;
pub mod ranges;
pub mod clmul;
pub mod xor_masked_adjacent;
pub mod start_stop_transitions;
pub mod find_quote_transitions;
pub mod parser_parallel;
pub mod streaming;
pub mod parse_events;
pub mod utils;
