//! nextar engine: the `.NEXT` archive format, block encoding, recovery
//! parity and the decisions of the archive operations, with their contracts.

pub mod bytes;
pub mod text;
pub mod paths;
pub mod format;
pub mod recovery;
pub mod crypto;
pub mod compress;
pub mod pipeline;
pub mod archive;
pub mod term;
pub mod units;
pub mod desktop;
pub mod setup;
pub mod progress;
pub mod cli;
