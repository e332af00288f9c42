//! Color types for calendars, task lists, and color labels.

use vstd::prelude::*;

verus! {

/// Container color for calendars and task lists.
///
/// `source` distinguishes provider-supplied colors from user overrides, which
/// matters for writing changes back to the provider.
#[derive(Debug, Clone, PartialEq, Eq)]
pub struct ContainerColor {
    /// Hex color value including the leading `#`, e.g. `#4285f4`.
    pub hex: String,
    pub source: ColorSource,
}

#[derive(Debug, Clone, Copy, PartialEq, Eq, Structural)]
pub enum ColorSource {
    /// Delivered by the provider.
    Native,
    /// Overridden by the user inside the app.
    Custom,
}

impl ContainerColor {
    pub fn native(hex: &str) -> (r: ContainerColor)
        ensures
            r.hex@ == hex@,
            r.source is Native,
    {
        ContainerColor { hex: hex.to_owned(), source: ColorSource::Native }
    }

    pub fn custom(hex: &str) -> (r: ContainerColor)
        ensures
            r.hex@ == hex@,
            r.source is Custom,
    {
        ContainerColor { hex: hex.to_owned(), source: ColorSource::Custom }
    }
}

/// Stable reference to a global color label.
#[derive(Debug, Clone, PartialEq, Eq, Hash)]
pub struct ColorLabelId(pub String);

impl ColorLabelId {
    pub fn new(id: &str) -> (r: ColorLabelId)
        ensures
            r.0@ == id@,
    {
        ColorLabelId(id.to_owned())
    }

    pub fn as_str(&self) -> (r: &str)
        ensures
            r@ == self.0@,
    {
        self.0.as_str()
    }
}

/// What an optional label names.
pub open spec fn optional_label(o: Option<ColorLabelId>) -> Option<Seq<char>> {
    match o {
        Some(label) => Some(label.0@),
        None => None,
    }
}

pub(crate) fn copy_label(o: &Option<ColorLabelId>) -> (r: Option<ColorLabelId>)
    ensures
        optional_label(r) == optional_label(*o),
{
    match o {
        Some(label) => Some(ColorLabelId::new(label.as_str())),
        None => None,
    }
}

} // verus!
