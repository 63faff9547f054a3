//! Turns a small line-oriented description of a sequence diagram into
//! xymatrix markup for LaTeX documents.
pub mod text;
pub mod nodes;
pub mod item;
pub mod diagram;
pub mod syntax;
