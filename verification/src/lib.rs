//! Maps human-written country names, abbreviations and alias spellings to a
//! canonical country record identified by standard codes.
//!
//! The crate has two parts: a tokenizing text normalizer that reduces any
//! input string to a canonical lookup key, and an index built once from a
//! collection of country records that maps every normalized name variant to
//! the record that produced it.

pub mod country;
pub mod index;
pub mod normalize;

pub use country::Country;
pub use country::CountryRef;
pub use index::CountryNameNormalizer;
pub use normalize::normalize_name;
