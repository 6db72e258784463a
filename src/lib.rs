//! Extraction of submission records from the serialized responses of the
//! grading platform's remote-procedure-call layer.
pub mod model;
pub mod text;
pub mod parse;
pub mod laws;
