//! The serving peer: its content-addressed file system and request rules.

pub mod fs;
pub mod host;
pub mod lookup;
pub mod seal_laws;
pub mod sorting;
pub mod svr;

pub use fs::VirtualFileSystem;
pub use lookup::LookupDirOrFile;
pub use svr::CreateArgs;
