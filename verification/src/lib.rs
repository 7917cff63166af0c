pub mod args;
pub mod chars;
pub mod creds;
pub mod dump_file;
pub mod json;
pub mod parse;
pub mod text;
pub mod traverse;
