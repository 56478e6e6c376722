//! Unicode-aware text analysis: string statistics, Levenshtein edit
//! distance, normalization for comparison, multi-pattern search,
//! tokenization on a delimiter set, and morphological segmentation.

pub mod assoc;
pub mod distance;
pub mod errors;
pub mod normalize;
pub mod patterns;
pub mod segment;
pub mod stats;
pub mod text;
pub mod tokenize;
pub mod unicode;

pub use distance::levenshtein_distance;
pub use normalize::normalize_string;
pub use tokenize::tokenize;
pub use errors::LexicaError;
pub use errors::ParserError;
pub use patterns::find_patterns;
pub use patterns::PatternMatches;
pub use segment::Morpheme;
pub use segment::MorphemeKind;
pub use segment::ParsedWord;
pub use segment::RustParser;
pub use stats::calculate_string_stats;
pub use stats::calculate_string_stats_bytes;
pub use stats::process_byte_batch;
pub use stats::process_text_batch;
pub use stats::CharFrequencies;
pub use stats::StringStats;
pub use stats::WordFrequencies;
