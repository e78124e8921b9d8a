pub mod bitio;
pub mod codes;
pub mod codec;
pub mod paths;
pub mod filters;
pub mod checksum;
pub mod cipher;
pub mod streams;
pub mod container;
pub mod archive;
pub mod desktop;
