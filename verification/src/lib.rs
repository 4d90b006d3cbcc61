//! A verified core for a toy block-layout engine: a CSS parser that turns
//! stylesheet text into a rule model, a style resolver that cascades matching
//! rules onto a document tree, and a layout engine that computes the CSS block
//! box model (widths, margins, borders, padding, positions, heights) for each
//! styled node.
//!
//! All pixel quantities are whole signed pixels (`px::Px`); arithmetic on them
//! saturates at the ends of the representable range.

pub mod px;
pub mod strmap;
pub mod dom;
pub mod css;
pub mod style;
pub mod layout;
