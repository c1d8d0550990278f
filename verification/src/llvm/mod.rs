pub mod types;
pub mod layout;
pub mod module;
pub mod async_cfg;
pub mod async_lower;
pub mod type_env;
