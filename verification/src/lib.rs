//! Terminal configuration utility: a markup-to-terminal-attribute renderer
//! and an interactive field editor for a small typed settings document.
//!
//! The renderer turns a lightweight in-text markup language into escape-coded
//! text; the translator turns escape-coded text into discrete terminal
//! attribute operations; the editor is a keyboard-driven state machine over
//! a navigable form built from the settings document.

pub mod editor;
pub mod fields;
pub mod markup;
pub mod numbers;
pub mod render;
pub mod settings;
pub mod surface;

