//! The logic of a terminal text editor, apart from the terminal: documents
//! and their history, the commands that edit them, the comparison of two
//! texts, and what is said to language servers, debuggers and plugins.
pub mod actions;
pub mod align;
pub mod attach;
pub mod bindings;
pub mod blocks;
pub mod change;
pub mod chars;
pub mod cli;
pub mod client;
pub mod cmd;
pub mod course;
pub mod dap;
pub mod debugging;
pub mod diagnose;
pub mod diff;
pub mod doc;
pub mod edit;
pub mod files;
pub mod git;
pub mod host;
pub mod indent;
pub mod jdk;
pub mod json;
pub mod keys;
pub mod lang;
pub mod launch;
pub mod lines;
pub mod linewise;
pub mod log;
pub mod lsp;
pub mod menu;
pub mod numbers;
pub mod offers;
pub mod order;
pub mod outcome;
pub mod pack;
pub mod pane;
pub mod path;
pub mod picker;
pub mod plan;
pub mod protocol;
pub mod rank;
pub mod restore;
pub mod rope;
pub mod rpc;
pub mod scheme;
pub mod select;
pub mod servers;
pub mod shuffle;
pub mod source;
pub mod split;
pub mod strings;
pub mod telling;
pub mod text;
pub mod uri;
pub mod vars;

