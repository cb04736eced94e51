//! Shape and color vocabulary for drawing cells.

use vstd::prelude::*;

verus! {

/// Polygonal shapes and their star-shaped variants. `code` gives each
/// shape's numeric id: its number of sides, with star variants offset by
/// ten (a circle is 0).
#[derive(Clone, Copy, Debug)]
pub enum ShapeDesc {
    Circle,
    Triangle,
    Square,
    Pentagon,
    Pentagram,
    Hexagon,
    Hexagram,
    Heptagon,
    Heptagram,
    Octagon,
    Octagram,
    Nonagon,
    Enneagram,
    Decagon,
    Decagram,
}

impl ShapeDesc {
    /// The numeric shape id the renderer keys on.
    pub open spec fn spec_code(&self) -> u32 {
        match self {
            ShapeDesc::Circle => 0,
            ShapeDesc::Triangle => 3,
            ShapeDesc::Square => 4,
            ShapeDesc::Pentagon => 5,
            ShapeDesc::Pentagram => 15,
            ShapeDesc::Hexagon => 6,
            ShapeDesc::Hexagram => 16,
            ShapeDesc::Heptagon => 7,
            ShapeDesc::Heptagram => 17,
            ShapeDesc::Octagon => 8,
            ShapeDesc::Octagram => 18,
            ShapeDesc::Nonagon => 9,
            ShapeDesc::Enneagram => 19,
            ShapeDesc::Decagon => 10,
            ShapeDesc::Decagram => 20,
        }
    }

    /// The numeric shape id the renderer keys on.
    pub fn code(&self) -> (r: u32)
        ensures
            r == self.spec_code(),
    {
        match self {
            ShapeDesc::Circle => 0,
            ShapeDesc::Triangle => 3,
            ShapeDesc::Square => 4,
            ShapeDesc::Pentagon => 5,
            ShapeDesc::Pentagram => 15,
            ShapeDesc::Hexagon => 6,
            ShapeDesc::Hexagram => 16,
            ShapeDesc::Heptagon => 7,
            ShapeDesc::Heptagram => 17,
            ShapeDesc::Octagon => 8,
            ShapeDesc::Octagram => 18,
            ShapeDesc::Nonagon => 9,
            ShapeDesc::Enneagram => 19,
            ShapeDesc::Decagon => 10,
            ShapeDesc::Decagram => 20,
        }
    }
}

/// An RGBA color with 8-bit channels.
#[derive(Clone, Copy, Debug, PartialEq, Eq, Structural)]
pub struct Color {
    pub r: u8,
    pub g: u8,
    pub b: u8,
    pub a: u8,
}

impl Color {
    pub fn blue() -> (c: Color)
        ensures
            c == (Color { r: 0, g: 0, b: 255, a: 255 }),
    {
        Color { r: 0, g: 0, b: 255, a: 255 }
    }

    pub fn red() -> (c: Color)
        ensures
            c == (Color { r: 255, g: 0, b: 0, a: 255 }),
    {
        Color { r: 255, g: 0, b: 0, a: 255 }
    }

    pub fn yellow() -> (c: Color)
        ensures
            c == (Color { r: 255, g: 255, b: 0, a: 255 }),
    {
        Color { r: 255, g: 255, b: 0, a: 255 }
    }

    pub fn brown() -> (c: Color)
        ensures
            c == (Color { r: 139, g: 69, b: 19, a: 255 }),
    {
        Color { r: 139, g: 69, b: 19, a: 255 }
    }

    pub fn green() -> (c: Color)
        ensures
            c == (Color { r: 0, g: 255, b: 0, a: 255 }),
    {
        Color { r: 0, g: 255, b: 0, a: 255 }
    }

    pub fn purple() -> (c: Color)
        ensures
            c == (Color { r: 128, g: 0, b: 128, a: 255 }),
    {
        Color { r: 128, g: 0, b: 128, a: 255 }
    }

    pub fn black() -> (c: Color)
        ensures
            c == (Color { r: 0, g: 0, b: 0, a: 255 }),
    {
        Color { r: 0, g: 0, b: 0, a: 255 }
    }

    pub fn gray() -> (c: Color)
        ensures
            c == (Color { r: 128, g: 128, b: 128, a: 255 }),
    {
        Color { r: 128, g: 128, b: 128, a: 255 }
    }
}

} // verus!
