//! The verified core of an editor for Bevy: the script lexer and
//! interpreter, and the editor's decisions about selection and listings.
pub mod lexer;
pub mod scene;
pub mod vm;
pub mod editor;
