pub mod align;
pub mod commands;
pub mod controls;
pub mod docview;
pub mod edit;
pub mod keys;
pub mod laws;
pub mod lines;
pub mod editor;
pub mod model;
pub mod nav;
pub mod numbering;
pub mod picker;
pub mod pointer;
pub mod position;
pub mod rich_clipboard;
pub mod runs;
pub mod segments;
pub mod smart_aim;
pub mod splitting;
pub mod style;
pub mod text;
pub mod toolbar;
pub mod undo;
pub mod words;
