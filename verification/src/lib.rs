//! Splits one input byte stream into a series of output segments whose sizes
//! are drawn pseudo-randomly from a caller-supplied byte interval, naming each
//! segment with an incrementing alphabetic label.

pub mod alpha_path;
pub mod encoder;
pub mod range_from_str;
