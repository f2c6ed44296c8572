//! Журнал дежурств: разбор и правка markdown-записей, настройки, сборка индексов.
pub mod text;
pub mod md;
pub mod config;
pub mod paths;
pub mod notes;
pub mod order;
pub mod cli;
