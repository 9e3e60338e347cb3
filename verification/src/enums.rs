//! Enumerations used throughout the library.

use vstd::prelude::*;

verus! {

/// Page orientation.
#[derive(Debug, Clone, Copy, PartialEq, Eq, Structural)]
pub enum Orientation {
    /// Portrait (height > width).
    Portrait,
    /// Landscape (width > height).
    Landscape,
}

impl Default for Orientation {
    fn default() -> (r: Self)
        ensures
            r == Orientation::Portrait,
    {
        Orientation::Portrait
    }
}

/// Rotation angle in degrees (clockwise).
#[derive(Debug, Clone, Copy, PartialEq, Eq, Structural)]
pub enum Rotation {
    /// No rotation.
    NoRotation,
    /// Rotate 90° clockwise.
    Clockwise90,
    /// Rotate 180°.
    Clockwise180,
    /// Rotate 270° clockwise (equivalent to 90° counter-clockwise).
    Clockwise270,
}

/// Horizontal text alignment.
#[derive(Debug, Clone, Copy, PartialEq, Eq, Structural)]
pub enum TextAlignment {
    /// Align text to the left.
    Left,
    /// Center text horizontally.
    Center,
    /// Align text to the right.
    Right,
    /// Justify text (stretch to fill the line width).
    Justify,
}

impl Default for TextAlignment {
    fn default() -> (r: Self)
        ensures
            r == TextAlignment::Left,
    {
        TextAlignment::Left
    }
}

/// Vertical alignment.
#[derive(Debug, Clone, Copy, PartialEq, Eq, Structural)]
pub enum VerticalAlignment {
    /// Align to the top.
    Top,
    /// Center vertically.
    Middle,
    /// Align to the bottom.
    Bottom,
}

impl Default for VerticalAlignment {
    fn default() -> (r: Self)
        ensures
            r == VerticalAlignment::Top,
    {
        VerticalAlignment::Top
    }
}

/// Supported image formats for embedding in PDFs.
#[derive(Debug, Clone, Copy, PartialEq, Eq, Structural)]
pub enum ImageFormat {
    /// JPEG image.
    Jpeg,
    /// PNG image.
    Png,
}

/// Direction for flow layout.
#[derive(Debug, Clone, Copy, PartialEq, Eq, Structural)]
pub enum Direction {
    /// Stack elements vertically (top to bottom).
    Vertical,
    /// Stack elements horizontally (left to right).
    Horizontal,
}

} // verus!
