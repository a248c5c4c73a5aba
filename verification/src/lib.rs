//! PDF generation building blocks: document model types, the object writer,
//! standard-security encryption, table and text layout logic.
use vstd::prelude::*;

pub mod chart;
pub mod fmt;
pub mod font;
pub mod image;
pub mod layout;
pub mod pdf;
pub mod strings;
pub mod svg;

verus! {

/// Horizontal text alignment.
#[derive(Clone, Copy, PartialEq, Eq, Debug, Structural)]
pub enum Align {
    Left,
    Center,
    Right,
}

/// Vertical alignment within a container.
#[derive(Clone, Copy, PartialEq, Eq, Debug, Structural)]
pub enum VAlign {
    Top,
    Center,
    Bottom,
}

/// A color in the RGB space.
#[derive(Clone, Copy, PartialEq, Eq, Debug, Structural)]
pub enum Color {
    Rgb(u8, u8, u8),
}


/// Page orientation.
#[derive(Clone, Copy, PartialEq, Eq, Debug, Structural)]
pub enum Orientation {
    Portrait,
    Landscape,
}

/// Position of automatic page numbers.
#[derive(Clone, Copy, PartialEq, Eq, Debug, Structural)]
pub enum PageNumberPosition {
    TopLeft,
    TopCenter,
    TopRight,
    BottomLeft,
    BottomCenter,
    BottomRight,
}

/// Document information: title, author and subject.
pub struct Metadata {
    pub title: Option<String>,
    pub author: Option<String>,
    pub subject: Option<String>,
}

} // verus!
