pub mod parse;
pub mod text;
pub mod bytes;
pub mod cgfile;
pub mod float;
