//! A slideshow document engine: a compiler for a small line-oriented
//! presentation format, an inline markup lexer, the reload matcher that keeps
//! the viewer's place when the source changes, and the page-transition state
//! machine.

pub mod color;
pub mod text;
pub mod utility;
pub mod slide_parser;
pub mod slide;
pub mod markup;
pub mod reload;
pub mod application_states;
pub mod layout;
