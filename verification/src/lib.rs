//! Driver-framework ABI core: merging per-category capability schemas into
//! canonical signatures, generating the native header that fixes the binary
//! contract, and resolving / loading driver shared libraries.

pub mod codegen;
pub mod fieldmap;
pub mod loader;
pub mod merge;
pub mod schema;
