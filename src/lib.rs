//! Structured access to the kernel's loaded-module registry: one record per line,
//! holding the module's name, its size and the modules that use it.

pub mod module;
pub mod scan;
pub mod text;
