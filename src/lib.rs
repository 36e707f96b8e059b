pub mod driver;
pub mod laws;
pub mod model;
pub mod parsers;
pub mod parsers_char;
pub mod parsers_utf16;
pub mod scanner;
pub mod types;
pub mod utf16_buf_parser;
pub mod utf8;
pub mod window;
