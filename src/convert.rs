//! Conversion of message bodies between Matrix markup and external plain text.
pub mod to_external;
pub mod to_matrix;
