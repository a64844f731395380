//! The opaque style attribute bundle attached to text runs.
//!
//! Styles come from the host rendering framework and are never inspected
//! here: the library only copies them, compares them in specifications, and
//! overlays one on another through the framework's own `patch`.

use vstd::prelude::*;

verus! {

#[verifier::external_type_specification]
#[verifier::external_body]
pub struct ExStyle(ratatui::style::Style);

/// What `Style::patch` returns for a given pair of styles; it depends on the
/// two styles alone.
pub uninterp spec fn patch_of(base: ratatui::style::Style, over: ratatui::style::Style) -> ratatui::style::Style;

/// What `Style::default` returns: the style with every attribute unset, the
/// same constant in every process.
pub uninterp spec fn default_style_of(u: ()) -> ratatui::style::Style;

/// Relies on ratatui's `Style::default`: the style with every attribute
/// unset; a constant.
#[verifier::external_body]
pub fn default_style() -> (r: ratatui::style::Style)
    ensures
        r == default_style_of(()),
{
    ratatui::style::Style::default()
}

/// Relies on ratatui's `Style::patch`: overlays `over` on `base`; the result
/// is a function of the two styles alone.
#[verifier::external_body]
pub fn patch_style(base: ratatui::style::Style, over: ratatui::style::Style) -> (r: ratatui::style::Style)
    ensures
        r == patch_of(base, over),
{
    base.patch(over)
}

} // verus!
