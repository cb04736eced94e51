//! The biological roles a cell can take, and how each is drawn.

use crate::models::{Color, ShapeDesc};
use vstd::prelude::*;

verus! {

/// The biological or functional type of a cell. Used for rendering and
/// classification only; it carries no physical meaning.
#[derive(Clone, Copy, Debug)]
pub enum CellType {
    Neural,
    Muscle,
    Fat,
    Liver,
    Intestinal,
    Kidney,
    HairFollicle,
    Spore,
}

/// The membrane shape and color each cell type is drawn with. The table is
/// total: every type maps to exactly one style.
pub open spec fn spec_membrane_style(typ: CellType) -> (ShapeDesc, Color) {
    match typ {
        CellType::Neural => (ShapeDesc::Circle, Color { r: 0, g: 0, b: 255, a: 255 }),
        CellType::Muscle => (ShapeDesc::Hexagon, Color { r: 255, g: 0, b: 0, a: 255 }),
        CellType::Fat => (ShapeDesc::Pentagon, Color { r: 255, g: 255, b: 0, a: 255 }),
        CellType::Liver => (ShapeDesc::Decagon, Color { r: 139, g: 69, b: 19, a: 255 }),
        CellType::Intestinal => (ShapeDesc::Triangle, Color { r: 0, g: 255, b: 0, a: 255 }),
        CellType::Kidney => (ShapeDesc::Heptagon, Color { r: 128, g: 0, b: 128, a: 255 }),
        CellType::HairFollicle => (ShapeDesc::Triangle, Color { r: 0, g: 0, b: 0, a: 255 }),
        CellType::Spore => (ShapeDesc::Square, Color { r: 128, g: 128, b: 128, a: 255 }),
    }
}

impl CellType {
    /// The membrane shape and color used to render this cell type; the
    /// renderer combines them with the cell's own transform.
    pub fn membrane_style(&self) -> (r: (ShapeDesc, Color))
        ensures
            r == spec_membrane_style(*self),
    {
        match self {
            CellType::Neural => (ShapeDesc::Circle, Color::blue()),
            CellType::Muscle => (ShapeDesc::Hexagon, Color::red()),
            CellType::Fat => (ShapeDesc::Pentagon, Color::yellow()),
            CellType::Liver => (ShapeDesc::Decagon, Color::brown()),
            CellType::Intestinal => (ShapeDesc::Triangle, Color::green()),
            CellType::Kidney => (ShapeDesc::Heptagon, Color::purple()),
            CellType::HairFollicle => (ShapeDesc::Triangle, Color::black()),
            CellType::Spore => (ShapeDesc::Square, Color::gray()),
        }
    }
}

} // verus!
