pub mod archive;
pub mod des;
pub mod directory;
pub mod error;
pub mod header;
pub mod inflate;
pub mod text;
pub mod wire;

pub use archive::Archive;
pub use error::ArchiveError;
