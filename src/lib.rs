pub mod compiler;
pub mod patcher;
pub mod plugin;
pub mod syntax;
