//! Buildings: the static rectangular obstacles of the world, with doors
//! in their walls.  Door positions feed agent spawn and goal points; the
//! building footprint feeds the world's static obstacle list.

use vstd::prelude::*;
use crate::geom::{rect_at, tdiv, tdiv64, Rect, Vec2, COORD_LIMIT, SCALE};

verus! {

/// Which wall of a building a door sits in.
#[derive(Clone, Copy, PartialEq, Eq, Structural, Debug)]
pub enum Side {
    Left,
    Right,
    Top,
    Bottom,
}

impl Side {
    /// Where a door at fraction `pos` (thousandths of the half-wall,
    /// `-1000 ..= 1000`) along this wall sits, relative to the building
    /// centre.
    pub open spec fn get_pos_spec(self, size: Vec2, pos: int) -> Vec2 {
        match self {
            Side::Left => Vec2 {
                x: (-tdiv(size.x as int, 2)) as i64,
                y: tdiv(pos * size.y, 2000) as i64,
            },
            Side::Right => Vec2 {
                x: tdiv(size.x as int, 2) as i64,
                y: tdiv(pos * size.y, 2000) as i64,
            },
            Side::Bottom => Vec2 {
                x: tdiv(pos * size.x, 2000) as i64,
                y: (-tdiv(size.y as int, 2)) as i64,
            },
            Side::Top => Vec2 {
                x: tdiv(pos * size.x, 2000) as i64,
                y: tdiv(size.y as int, 2) as i64,
            },
        }
    }

    /// Executable door-position computation.
    pub fn get_pos(self, size: Vec2, pos: i64) -> (r: Vec2)
        requires
            size.in_range(),
            size.x >= 0,
            size.y >= 0,
            -1000 <= pos <= 1000,
        ensures
            r == self.get_pos_spec(size, pos as int),
    {
        proof {
            crate::geom::lemma_abs_mul_le(pos as int, size.x as int, 1000, COORD_LIMIT as int);
            crate::geom::lemma_abs_mul_le(pos as int, size.y as int, 1000, COORD_LIMIT as int);
        }
        match self {
            Side::Left => Vec2 { x: -(size.x / 2), y: tdiv64(pos * size.y, 2000) },
            Side::Right => Vec2 { x: size.x / 2, y: tdiv64(pos * size.y, 2000) },
            Side::Bottom => Vec2 { x: tdiv64(pos * size.x, 2000), y: -(size.y / 2) },
            Side::Top => Vec2 { x: tdiv64(pos * size.x, 2000), y: size.y / 2 },
        }
    }

    /// The direction along the wall used to lay out the door marker.
    pub fn get_offset_dir(self) -> (r: Vec2)
        ensures
            self is Left ==> r == (Vec2 { x: 0, y: SCALE }),
            self is Right ==> r == (Vec2 { x: 0, y: (-SCALE) as i64 }),
            self is Bottom ==> r == (Vec2 { x: (-SCALE) as i64, y: 0 }),
            self is Top ==> r == (Vec2 { x: SCALE, y: 0 }),
    {
        match self {
            Side::Left => Vec2 { x: 0, y: SCALE },
            Side::Right => Vec2 { x: 0, y: -SCALE },
            Side::Bottom => Vec2 { x: -SCALE, y: 0 },
            Side::Top => Vec2 { x: SCALE, y: 0 },
        }
    }
}

/// A door in a building wall; `pos` is the fraction along the wall, in
/// thousandths of the half-wall.
#[derive(Clone, Copy, Debug)]
pub struct Door {
    pub side: Side,
    pub pos: i64,
}

impl Door {
    pub fn new(side: Side, pos: i64) -> (r: Self)
        ensures
            r == (Door { side, pos }),
    {
        Self { side, pos }
    }

    /// The position of this door relative to the building centre.
    pub fn get_pos(&self, building_size: Vec2) -> (r: Vec2)
        requires
            building_size.in_range(),
            building_size.x >= 0,
            building_size.y >= 0,
            -1000 <= self.pos <= 1000,
        ensures
            r == self.side.get_pos_spec(building_size, self.pos as int),
    {
        self.side.get_pos(building_size, self.pos)
    }

    /// The outward unit direction through the door: the way an agent
    /// leaves the building.
    pub fn get_open_dir(&self) -> (r: Vec2)
        ensures
            self.side is Left ==> r == (Vec2 { x: (-SCALE) as i64, y: 0 }),
            self.side is Right ==> r == (Vec2 { x: SCALE, y: 0 }),
            self.side is Bottom ==> r == (Vec2 { x: 0, y: (-SCALE) as i64 }),
            self.side is Top ==> r == (Vec2 { x: 0, y: SCALE }),
    {
        match self.side {
            Side::Left => Vec2 { x: -SCALE, y: 0 },
            Side::Right => Vec2 { x: SCALE, y: 0 },
            Side::Bottom => Vec2 { x: 0, y: -SCALE },
            Side::Top => Vec2 { x: 0, y: SCALE },
        }
    }
}

/// A building: a centred axis-aligned box with doors in its walls.
#[derive(Debug)]
pub struct Building {
    pub size: Vec2,
    pub pos: Vec2,
    pub doors: Vec<Door>,
}

impl Building {
    /// The static obstacle footprint this building contributes to the
    /// world: its box, centred on its position.
    pub fn footprint(&self) -> (r: Rect)
        requires
            self.size.in_range(),
            self.size.x >= 0,
            self.size.y >= 0,
            self.pos.in_range(),
        ensures
            r == rect_at(self.pos, tdiv(self.size.x as int, 2), tdiv(self.size.y as int, 2)),
    {
        let hx = self.size.x / 2;
        let hy = self.size.y / 2;
        Rect {
            min: Vec2 { x: self.pos.x - hx, y: self.pos.y - hy },
            max: Vec2 { x: self.pos.x + hx, y: self.pos.y + hy },
        }
    }
}

} // verus!
