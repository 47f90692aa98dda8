//! Static-asset resolution for a small file server: request paths are split,
//! normalised and confined to a configured root directory, and each lookup
//! outcome is turned into an HTTP response.

pub mod mime;
pub mod path;
pub mod serve;
