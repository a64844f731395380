//! Rendering core for a terminal text-input widget.
//!
//! The crate composes one line of text with a cursor highlight and optional
//! search-match highlights into a gap-free sequence of styled spans
//! ([`highlight::LineHighlighter`]), keeps a packed viewport rectangle and
//! computes the minimal scroll adjustment that keeps the cursor visible
//! ([`widget::Viewport`] and [`widget::next_scroll_top`]), and assembles the
//! block of styled lines handed to the painting primitive
//! ([`widget::Renderer`]).

pub mod highlight;
pub mod style;
pub mod util;
pub mod widget;
