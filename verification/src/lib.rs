pub mod codec;
pub mod note;
pub mod table;
