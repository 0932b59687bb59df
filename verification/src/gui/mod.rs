//! Editor-side logic of the desktop client that does not depend on the
//! windowing toolkit.
pub mod command_palette;
pub mod document;
pub mod editor;
pub mod highlight;
pub mod ime;
pub mod keymap;
pub mod lines;
pub mod pane;
pub mod ranges;
pub mod tab;
pub mod theme;
pub mod util;
pub mod workspace;
