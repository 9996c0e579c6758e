//! Conversion of JMdict dictionary entries into Yomichan term banks.
pub mod bank;
pub mod index;
pub mod jmdict;
pub mod preamble;
pub mod stats;
pub mod text;
pub mod word_frequency;
pub mod yomichan;
