//! Editor-independent logic of the Hephaestus IDE: code folding, brace
//! guides, Git output parsing, terminal key encoding and the other pieces
//! of text processing that the desktop shell builds on.

pub mod text;
pub mod folding;
pub mod brace_guide;
pub mod assets;
pub mod file_icons;
pub mod git;
pub mod commands;
pub mod terminal;
pub mod search;
pub mod output;
pub mod document;
pub mod settings;
pub mod language_server;
pub mod language_events;
pub mod vim;
pub mod syntax;
pub mod theme;
pub mod paths;
pub mod workspace;
pub mod shell;
pub mod navigation;
pub mod git_commands;
pub mod git_panel;
pub mod closing;
