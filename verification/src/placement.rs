//! Where an instance sits in the layout.

use vstd::prelude::*;
use vstd::string::*;

use crate::duplicate::{duplicate_all, Duplicate};
use crate::names::Name;
use crate::sorting::views;

verus! {

/// A 64-bit IEEE 754 number, by its bit pattern.
#[derive(Clone, Copy, Debug)]
pub struct Number {
    pub bits: u64,
}

impl View for Number {
    type V = u64;

    open spec fn view(&self) -> u64 {
        self.bits
    }
}

/// Exponent and fraction of a bit pattern, without the sign.
pub open spec fn magnitude(bits: u64) -> int {
    bits as int % 0x8000_0000_0000_0000
}

/// The pattern of a NaN: all exponent bits set and some fraction bit.
pub open spec fn is_nan(bits: u64) -> bool {
    magnitude(bits) > 0x7ff0_0000_0000_0000
}

/// Equality of numbers: no NaN equals anything, and both zeros are equal.
pub open spec fn number_eq(a: u64, b: u64) -> bool {
    &&& !is_nan(a)
    &&& !is_nan(b)
    &&& a == b || (magnitude(a) == 0 && magnitude(b) == 0)
}

impl PartialEq for Number {
    fn eq(&self, other: &Self) -> (res: bool) {
        let sign: u64 = 0x8000_0000_0000_0000;
        let top: u64 = 0x7ff0_0000_0000_0000;
        let a = self.bits % sign;
        let b = other.bits % sign;
        a <= top && b <= top && (self.bits == other.bits || (a == 0 && b == 0))
    }
}

impl vstd::std_specs::cmp::PartialEqSpecImpl for Number {
    open spec fn obeys_eq_spec() -> bool {
        true
    }

    open spec fn eq_spec(&self, other: &Self) -> bool {
        number_eq(self.bits, other.bits)
    }
}

/// Axis-aligned bounding box in micrometres.
#[derive(Clone, Copy, Debug)]
pub struct BBox {
    pub left: Number,
    pub bottom: Number,
    pub right: Number,
    pub top: Number,
}

/// Equality of boxes, number by number.
pub open spec fn bbox_eq(a: BBox, b: BBox) -> bool {
    &&& number_eq(a.left.bits, b.left.bits)
    &&& number_eq(a.bottom.bits, b.bottom.bits)
    &&& number_eq(a.right.bits, b.right.bits)
    &&& number_eq(a.top.bits, b.top.bits)
}

impl PartialEq for BBox {
    fn eq(&self, other: &Self) -> (res: bool) {
        self.left == other.left && self.bottom == other.bottom && self.right == other.right
            && self.top == other.top
    }
}

impl vstd::std_specs::cmp::PartialEqSpecImpl for BBox {
    open spec fn obeys_eq_spec() -> bool {
        true
    }

    open spec fn eq_spec(&self, other: &Self) -> bool {
        bbox_eq(*self, *other)
    }
}

/// Physical placement of an instance: origin transform and bounding box.
///
/// The placement maps a point by mirroring it about the x-axis if `mirror` is
/// set, then rotating it by `orientation` degrees, then displacing it by `x`
/// and `y` micrometres.
#[derive(Clone, Copy, Debug)]
pub struct Placement {
    pub x: Number,
    pub y: Number,
    pub orientation: Number,
    pub mirror: bool,
    pub bbox: BBox,
}

impl View for Placement {
    type V = Placement;

    open spec fn view(&self) -> Placement {
        *self
    }
}

/// Equality of placements, field by field.
pub open spec fn placement_eq(a: Placement, b: Placement) -> bool {
    &&& number_eq(a.x.bits, b.x.bits)
    &&& number_eq(a.y.bits, b.y.bits)
    &&& number_eq(a.orientation.bits, b.orientation.bits)
    &&& a.mirror == b.mirror
    &&& bbox_eq(a.bbox, b.bbox)
}

impl PartialEq for Placement {
    fn eq(&self, other: &Self) -> (res: bool) {
        self.x == other.x && self.y == other.y && self.orientation == other.orientation
            && self.mirror == other.mirror && self.bbox == other.bbox
    }
}

impl vstd::std_specs::cmp::PartialEqSpecImpl for Placement {
    open spec fn obeys_eq_spec() -> bool {
        true
    }

    open spec fn eq_spec(&self, other: &Self) -> bool {
        placement_eq(*self, *other)
    }
}

impl Placement {
    pub fn new(x: Number, y: Number, orientation: Number, mirror: bool, bbox: BBox) -> (res: Self)
        ensures
            res == (Placement { x, y, orientation, mirror, bbox }),
    {
        Placement { x, y, orientation, mirror, bbox }
    }

    /// The bounding box.
    pub fn bbox(&self) -> (res: BBox)
        ensures
            res == self.bbox,
    {
        self.bbox
    }

    pub fn set_bbox(&mut self, value: BBox)
        ensures
            *final(self) == (Placement { bbox: value, ..*old(self) }),
    {
        self.bbox = value;
    }

    /// The placement in words, given its numbers in words.
    pub fn repr(&self, x: &str, y: &str, orientation: &str) -> (res: String)
        ensures
            res@ == "Placement(x="@ + x@ + ", y="@ + y@ + ", orientation="@ + orientation@
                + ", mirror="@ + (if self.mirror {
                "true"@
            } else {
                "false"@
            }) + ")"@,
    {
        let mut out = "Placement(x=".to_owned();
        out.append(x);
        out.append(", y=");
        out.append(y);
        out.append(", orientation=");
        out.append(orientation);
        out.append(", mirror=");
        out.append(if self.mirror {
            "true"
        } else {
            "false"
        });
        out.append(")");
        out
    }
}

/// Zero in every field, not mirrored.
pub open spec fn default_placement() -> Placement {
    let zero = Number { bits: 0 };
    Placement {
        x: zero,
        y: zero,
        orientation: zero,
        mirror: false,
        bbox: BBox { left: zero, bottom: zero, right: zero, top: zero },
    }
}

impl Default for Placement {
    fn default() -> (res: Self)
        ensures
            res == default_placement(),
    {
        let zero = Number { bits: 0 };
        Placement {
            x: zero,
            y: zero,
            orientation: zero,
            mirror: false,
            bbox: BBox { left: zero, bottom: zero, right: zero, top: zero },
        }
    }
}

impl Duplicate for Placement {
    fn duplicate(&self) -> (res: Self) {
        *self
    }
}

/// What a placed instance has beyond a plain one: the name of its cell and
/// where it sits.
#[derive(Debug)]
pub struct PlacedExtra {
    pub cell: String,
    pub placement: Placement,
}

/// View of [`PlacedExtra`].
pub struct ExtraView {
    pub cell: Name,
    pub placement: Placement,
}

impl View for PlacedExtra {
    type V = ExtraView;

    open spec fn view(&self) -> ExtraView {
        ExtraView { cell: self.cell@, placement: self.placement }
    }
}

impl ExtraView {
    /// No cell name and the default placement.
    pub open spec fn default() -> ExtraView {
        ExtraView { cell: Seq::empty(), placement: default_placement() }
    }
}

impl Default for PlacedExtra {
    fn default() -> (res: Self)
        ensures
            res@ == ExtraView::default(),
    {
        PlacedExtra { cell: String::new(), placement: Placement::default() }
    }
}

impl Duplicate for PlacedExtra {
    fn duplicate(&self) -> (res: Self) {
        PlacedExtra { cell: self.cell.clone(), placement: self.placement }
    }
}

/// The placement of an instance that may have been inlined: the placements of
/// the instances that held it, outermost first, then its own. Composed from
/// the first to the last they give its placement in the outermost cell.
#[derive(Debug)]
pub struct InlinedExtra {
    pub cell: String,
    pub path: Vec<Placement>,
}

/// View of [`InlinedExtra`].
pub struct InlinedView {
    pub cell: Name,
    pub path: Seq<Placement>,
}

impl View for InlinedExtra {
    type V = InlinedView;

    open spec fn view(&self) -> InlinedView {
        InlinedView { cell: self.cell@, path: self.path@ }
    }
}

impl Duplicate for InlinedExtra {
    fn duplicate(&self) -> (res: Self) {
        let path = duplicate_all(&self.path);
        assert(path@ =~= views(path@));
        assert(self.path@ =~= views(self.path@));
        InlinedExtra { cell: self.cell.clone(), path }
    }
}

} // verus!
