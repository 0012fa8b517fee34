pub mod bytessource;
pub mod extent_description;
pub mod spans;
pub mod text;
pub mod errors;
pub mod header;
pub mod storage;
pub mod vmdk_reader;
pub mod extents;
pub mod descriptor;
pub mod chunks;
pub mod table_laws;
