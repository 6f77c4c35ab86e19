//! Symbol-table construction for a module.
pub mod pipeline;
pub mod include_symbol_loader;
pub mod main_symbol_loader;
pub mod symbol;
pub mod symbol_loader;
