pub mod cleaner;
pub mod commands;
pub mod deps;
pub mod digest;
pub mod laws;
pub mod model;
pub mod paths;
pub mod plugins;
pub mod scanner;
pub mod settings;
pub mod snapshot;
pub mod sort;
pub mod text;
pub mod version;
pub mod vscode;
