//! Plain-value model of a GDSII library, as the flattener reads it.
//!
//! Angles, magnifications and unit sizes are IEEE-754 doubles in the GDS
//! stream; this model keeps their exact bit patterns (`f64::to_bits`), so the
//! logic can carry, compare and key on them without floating-point arithmetic.
use vstd::prelude::*;

verus! {

/// Bit pattern of the double `0.0`.
pub const ZERO_BITS: u64 = 0x0000_0000_0000_0000u64;

/// Bit pattern of the double `1.0`.
pub const ONE_BITS: u64 = 0x3FF0_0000_0000_0000u64;

/// A 2D integer coordinate in database units.
#[derive(Debug, Clone, Copy, PartialEq, Eq, Structural)]
pub struct GdsPoint {
    pub x: i32,
    pub y: i32,
}

impl GdsPoint {
    pub fn new(x: i32, y: i32) -> (p: GdsPoint)
        ensures
            p.x == x,
            p.y == y,
    {
        GdsPoint { x, y }
    }
}

/// A structure reference (one placement of a named cell).
#[derive(Debug)]
pub struct GdsSref {
    pub sname: String,
    pub origin: GdsPoint,
    /// Bit pattern of the rotation angle in degrees.
    pub angle_deg_bits: u64,
    /// Bit pattern of the magnification.
    pub magnification_bits: u64,
    pub x_reflection: bool,
}

impl GdsSref {
    /// A placement with no rotation, unit magnification and no reflection.
    pub fn new(sname: String, origin: GdsPoint) -> (s: GdsSref)
        ensures
            s.sname == sname,
            s.origin == origin,
            s.angle_deg_bits == ZERO_BITS,
            s.magnification_bits == ONE_BITS,
            !s.x_reflection,
    {
        GdsSref {
            sname,
            origin,
            angle_deg_bits: ZERO_BITS,
            magnification_bits: ONE_BITS,
            x_reflection: false,
        }
    }
}

/// An array reference: `cols * rows` placements of one cell on a lattice.
/// `xy` is `[origin, column anchor, row anchor]` when well formed.
#[derive(Debug)]
pub struct GdsAref {
    pub ref_name: String,
    pub cols: u16,
    pub rows: u16,
    pub angle_deg_bits: u64,
    pub magnification_bits: u64,
    pub x_reflection: bool,
    pub xy: Vec<GdsPoint>,
}

impl GdsAref {
    /// An array with no rotation, unit magnification and no reflection.
    pub fn new(
        ref_name: String,
        cols: u16,
        rows: u16,
        origin: GdsPoint,
        col_pt: GdsPoint,
        row_pt: GdsPoint,
    ) -> (a: GdsAref)
        ensures
            a.ref_name == ref_name,
            a.cols == cols,
            a.rows == rows,
            a.angle_deg_bits == ZERO_BITS,
            a.magnification_bits == ONE_BITS,
            !a.x_reflection,
            a.xy@ == seq![origin, col_pt, row_pt],
    {
        GdsAref {
            ref_name,
            cols,
            rows,
            angle_deg_bits: ZERO_BITS,
            magnification_bits: ONE_BITS,
            x_reflection: false,
            xy: vec![origin, col_pt, row_pt],
        }
    }
}

/// A text label; `layer` is the label's GDS layer number.
#[derive(Debug)]
pub struct GdsText {
    pub string: String,
    pub origin: GdsPoint,
    pub layer: u16,
}

/// One element of a cell. Boundaries and paths carry no information the
/// flattener reads, so they are `Other`.
#[derive(Debug)]
pub enum GdsElement {
    Sref(GdsSref),
    Aref(GdsAref),
    Text(GdsText),
    Other,
}

/// A named cell and its elements, in stream order.
#[derive(Debug)]
pub struct GdsCell {
    pub name: String,
    pub elements: Vec<GdsElement>,
}

/// A library: its cells in stream order plus the unit sizes (as bit patterns).
#[derive(Debug)]
pub struct GdsLibrary {
    pub name: String,
    pub db_unit_m_bits: u64,
    pub user_unit_m_bits: u64,
    pub cells: Vec<GdsCell>,
}

} // verus!
