//! A small page engine: it parses markup into a document, gives every node
//! its style from style sheets, lays the document out as boxes and lines of
//! text, and lists what is to be drawn.
//!
//! The engine does no input or output and measures no text. The markup and
//! the sheets are handed to it as text, and the widths and heights of the
//! words as numbers. Lengths are whole numbers of thousandths of a pixel.

pub mod text;
pub mod strmap;
pub mod units;
pub mod color;
pub mod node;
pub mod order;
pub mod html_parser;
pub mod selector;
pub mod css_parser;
pub mod cascade;
pub mod layout;
pub mod paint;
pub mod hit;
pub mod url;
pub mod tab;
pub mod browser;
