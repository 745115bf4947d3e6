//! A fixed-capacity input window that hands a lexical analyzer one
//! space-delimited word at a time.

pub mod words;
pub mod input_buffer;
