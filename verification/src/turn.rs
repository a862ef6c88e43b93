//! Rotations by multiples of 90 degrees, which are exact.

use vstd::prelude::*;

use crate::placement::{number_eq, Number, Placement};

verus! {

/// A rotation by a multiple of 90 degrees.
#[derive(Clone, Copy, Debug, PartialEq, Eq, Structural)]
pub enum Turn {
    Zero,
    Quarter,
    Half,
    ThreeQuarters,
}

/// The numbers 0, 1, -1, 90, 180 and 270.
pub const ZERO: u64 = 0;

pub const ONE: u64 = 0x3ff0_0000_0000_0000;

pub const MINUS_ONE: u64 = 0xbff0_0000_0000_0000;

pub const DEGREES_90: u64 = 0x4056_8000_0000_0000;

pub const DEGREES_180: u64 = 0x4066_8000_0000_0000;

pub const DEGREES_270: u64 = 0x4070_e000_0000_0000;

/// The turn by an angle between 0 and 360 degrees, if it is a multiple of 90.
pub open spec fn turn_by(angle: u64) -> Option<Turn> {
    if number_eq(angle, ZERO) {
        Some(Turn::Zero)
    } else if number_eq(angle, DEGREES_90) {
        Some(Turn::Quarter)
    } else if number_eq(angle, DEGREES_180) {
        Some(Turn::Half)
    } else if number_eq(angle, DEGREES_270) {
        Some(Turn::ThreeQuarters)
    } else {
        None
    }
}

/// The number of an integer between -1 and 1.
pub open spec fn unit_number(k: int) -> u64 {
    if k == 0 {
        ZERO
    } else if k == 1 {
        ONE
    } else {
        MINUS_ONE
    }
}

impl Turn {
    pub open spec fn sin(self) -> int {
        match self {
            Turn::Zero => 0,
            Turn::Quarter => 1,
            Turn::Half => 0,
            Turn::ThreeQuarters => -1,
        }
    }

    pub open spec fn cos(self) -> int {
        match self {
            Turn::Zero => 1,
            Turn::Quarter => 0,
            Turn::Half => -1,
            Turn::ThreeQuarters => 0,
        }
    }

    /// The number of quarters.
    pub open spec fn quarters(self) -> int {
        match self {
            Turn::Zero => 0,
            Turn::Quarter => 1,
            Turn::Half => 2,
            Turn::ThreeQuarters => 3,
        }
    }

    /// The turn by an angle between 0 and 360 degrees.
    pub fn by_angle(angle: Number) -> (res: Option<Turn>)
        ensures
            res == turn_by(angle.bits),
    {
        if angle == (Number { bits: ZERO }) {
            Some(Turn::Zero)
        } else if angle == (Number { bits: DEGREES_90 }) {
            Some(Turn::Quarter)
        } else if angle == (Number { bits: DEGREES_180 }) {
            Some(Turn::Half)
        } else if angle == (Number { bits: DEGREES_270 }) {
            Some(Turn::ThreeQuarters)
        } else {
            None
        }
    }

    /// Sine and cosine, without rounding.
    pub fn sin_cos(self) -> (res: (Number, Number))
        ensures
            res.0.bits == unit_number(self.sin()),
            res.1.bits == unit_number(self.cos()),
    {
        let zero = Number { bits: ZERO };
        match self {
            Turn::Zero => (zero, Number { bits: ONE }),
            Turn::Quarter => (Number { bits: ONE }, zero),
            Turn::Half => (zero, Number { bits: MINUS_ONE }),
            Turn::ThreeQuarters => (Number { bits: MINUS_ONE }, zero),
        }
    }
}

/// Composing two placements mirrors if exactly one of them does.
pub fn composed_mirror(parent: &Placement, child: &Placement) -> (res: bool)
    ensures
        res == (parent.mirror != child.mirror),
{
    parent.mirror != child.mirror
}

/// A placement on a grid: where the origin goes, the turn, and whether a
/// mirror image about the x-axis is taken first.
///
/// This is a mathematical model of placements with integer coordinates and
/// exact turns. No executable function works on it: what is proved of it says
/// nothing of floating-point arithmetic.
pub struct GridPlacement {
    pub x: int,
    pub y: int,
    pub turn: Turn,
    pub mirror: bool,
}

/// Where a placement takes a point.
pub open spec fn moved(p: GridPlacement, x: int, y: int) -> (int, int) {
    let m = if p.mirror {
        -y
    } else {
        y
    };
    (p.x + p.turn.cos() * x - p.turn.sin() * m, p.y + p.turn.sin() * x + p.turn.cos() * m)
}

/// Where a placement takes a point, turn by turn.
proof fn lemma_moved(p: GridPlacement, x: int, y: int)
    ensures
        moved(p, x, y) == ({
            let m = if p.mirror {
                -y
            } else {
                y
            };
            match p.turn {
                Turn::Zero => (p.x + x, p.y + m),
                Turn::Quarter => (p.x - m, p.y + x),
                Turn::Half => (p.x - x, p.y - m),
                Turn::ThreeQuarters => (p.x + m, p.y - x),
            }
        }),
{
    let m = if p.mirror {
        -y
    } else {
        y
    };
    let (s, c) = (p.turn.sin(), p.turn.cos());
    assert(s == 0 ==> s * x == 0 && s * m == 0) by (nonlinear_arith);
    assert(s == 1 ==> s * x == x && s * m == m) by (nonlinear_arith);
    assert(s == -1 ==> s * x == -x && s * m == -m) by (nonlinear_arith);
    assert(c == 0 ==> c * x == 0 && c * m == 0) by (nonlinear_arith);
    assert(c == 1 ==> c * x == x && c * m == m) by (nonlinear_arith);
    assert(c == -1 ==> c * x == -x && c * m == -m) by (nonlinear_arith);
}

/// The turn by a number of quarters.
pub open spec fn turn_of(quarters: int) -> Turn {
    let k = quarters % 4;
    if k == 0 {
        Turn::Zero
    } else if k == 1 {
        Turn::Quarter
    } else if k == 2 {
        Turn::Half
    } else {
        Turn::ThreeQuarters
    }
}

/// The placement of something inside a placed cell: its origin goes where the
/// cell's placement takes it, its turn counts backwards if the cell is
/// mirrored, and it is mirrored if exactly one of the two is.
pub open spec fn composed(parent: GridPlacement, child: GridPlacement) -> GridPlacement {
    let origin = moved(parent, child.x, child.y);
    GridPlacement {
        x: origin.0,
        y: origin.1,
        turn: turn_of(
            if parent.mirror {
                parent.turn.quarters() - child.turn.quarters()
            } else {
                parent.turn.quarters() + child.turn.quarters()
            },
        ),
        mirror: parent.mirror != child.mirror,
    }
}

/// The composed placement takes a point where the inner placement and then
/// the outer one take it. This holds of the grid model; no executable function
/// is tied to it.
pub proof fn law_composed_moves(parent: GridPlacement, child: GridPlacement, x: int, y: int)
    ensures
        moved(composed(parent, child), x, y) == moved(
            parent,
            moved(child, x, y).0,
            moved(child, x, y).1,
        ),
{
    lemma_moved(child, x, y);
    let inner = moved(child, x, y);
    lemma_moved(parent, inner.0, inner.1);
    lemma_moved(parent, child.x, child.y);
    lemma_moved(composed(parent, child), x, y);
}

/// Composing placements over several levels may start at either end. This holds
/// of the grid model; no executable function is tied to it.
pub proof fn law_composed_associative(a: GridPlacement, b: GridPlacement, c: GridPlacement)
    ensures
        composed(composed(a, b), c) == composed(a, composed(b, c)),
{
    law_composed_moves(a, b, c.x, c.y);
}

/// A box on a grid, with its sides. Like [`GridPlacement`] it belongs to the
/// mathematical model alone.
pub struct GridBox {
    pub left: int,
    pub bottom: int,
    pub right: int,
    pub top: int,
}

impl GridBox {
    /// The point is in the box or on a side.
    pub open spec fn has(self, x: int, y: int) -> bool {
        self.left <= x <= self.right && self.bottom <= y <= self.top
    }
}

pub open spec fn least(a: int, b: int) -> int {
    if a <= b {
        a
    } else {
        b
    }
}

pub open spec fn most(a: int, b: int) -> int {
    if a <= b {
        b
    } else {
        a
    }
}

/// The smallest box around the moved corners of a box.
pub open spec fn moved_box(p: GridPlacement, b: GridBox) -> GridBox {
    let one = moved(p, b.left, b.bottom);
    let two = moved(p, b.right, b.bottom);
    let three = moved(p, b.left, b.top);
    let four = moved(p, b.right, b.top);
    GridBox {
        left: least(least(least(one.0, two.0), three.0), four.0),
        bottom: least(least(least(one.1, two.1), three.1), four.1),
        right: most(most(most(one.0, two.0), three.0), four.0),
        top: most(most(most(one.1, two.1), three.1), four.1),
    }
}

/// The moved box holds exactly the moved points: it is not only a hull. This
/// holds of the grid model; no executable function is tied to it.
pub proof fn law_moved_box_exact(p: GridPlacement, b: GridBox, x: int, y: int)
    requires
        b.left <= b.right,
        b.bottom <= b.top,
    ensures
        moved_box(p, b).has(moved(p, x, y).0, moved(p, x, y).1) <==> b.has(x, y),
{
    lemma_moved(p, x, y);
    lemma_moved(p, b.left, b.bottom);
    lemma_moved(p, b.right, b.bottom);
    lemma_moved(p, b.left, b.top);
    lemma_moved(p, b.right, b.top);
}

} // verus!
