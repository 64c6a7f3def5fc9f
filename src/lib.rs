//! A small HTML and CSS parser: a character cursor drives two recursive-descent
//! grammars, one building a node tree, the other a stylesheet. Every parsing
//! method is proved to compute exactly the grammar functions stated over
//! sequences of characters.

pub mod chars;
pub mod css;
pub mod css_grammar;
pub mod error;
pub mod html_grammar;
pub mod laws;
pub mod node;
pub mod parsed;
pub mod parser;

pub use css::{
    Color, ColorError, Declaration, Decimal, Rule, Selector, SimpleSelector, Specificity,
    Stylesheet, Unit, Value,
};
pub use error::{ParseError, Token};
pub use parser::Parser;
pub use node::{elem, text, AttrMap, ElementData, Node, NodeType};

