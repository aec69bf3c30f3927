//! Heat by square and by wall.

use vstd::prelude::*;

use crate::position::board::WallOrientation;

verus! {

/// Corridor heat, forward continuations and bottleneck heat of every square.
#[derive(Clone, Copy)]
pub struct CorridorAttention {
    pub square_heat: [u16; 81],
    pub route_flex: [u8; 81],
    pub bottleneck_heat: [u16; 81],
}

pub open spec fn max_int(a: int, b: int) -> int {
    if a >= b {
        a
    } else {
        b
    }
}

pub open spec fn min_int(a: int, b: int) -> int {
    if a <= b {
        a
    } else {
        b
    }
}

/// The sum, at most 65535.
pub open spec fn sat16(a: int, b: int) -> int {
    min_int(a + b, 65535)
}

impl CorridorAttention {
    /// Heat of the step between two squares: what both carry, plus the larger
    /// bottleneck heat.
    pub open spec fn edge_heat(self, a: int, b: int) -> int {
        sat16(
            min_int(self.square_heat[a] as int, self.square_heat[b] as int),
            max_int(self.bottleneck_heat[a] as int, self.bottleneck_heat[b] as int),
        )
    }

    /// Heat of a wall: the hotter of the two steps that it cuts.
    pub open spec fn wall_heat(self, row: int, col: int, orientation: WallOrientation) -> int {
        let a = row * 9 + col;
        match orientation {
            WallOrientation::Horizontal => max_int(
                self.edge_heat(a, a + 9),
                self.edge_heat(a + 1, a + 10),
            ),
            WallOrientation::Vertical => max_int(
                self.edge_heat(a, a + 1),
                self.edge_heat(a + 9, a + 10),
            ),
        }
    }

    /// Heat of a square.
    #[inline]
    pub fn square_heat(&self, row: u8, col: u8) -> (r: u16)
        requires
            row < 9,
            col < 9,
        ensures
            r == self.square_heat[row * 9 + col],
    {
        self.square_heat[row as usize * 9 + col as usize]
    }

    fn step_heat(&self, a: usize, b: usize) -> (r: u16)
        requires
            a < 81,
            b < 81,
        ensures
            r == self.edge_heat(a as int, b as int),
    {
        let low: u16 = if self.square_heat[a] <= self.square_heat[b] {
            self.square_heat[a]
        } else {
            self.square_heat[b]
        };
        let neck: u16 = if self.bottleneck_heat[a] >= self.bottleneck_heat[b] {
            self.bottleneck_heat[a]
        } else {
            self.bottleneck_heat[b]
        };
        low.saturating_add(neck)
    }

    /// Heat of a wall.
    pub fn wall_edge_heat(&self, row: u8, col: u8, orientation: WallOrientation) -> (r: u16)
        requires
            row < 8,
            col < 8,
        ensures
            r == self.wall_heat(row as int, col as int, orientation),
    {
        let a: usize = row as usize * 9 + col as usize;
        let (x, y) = match orientation {
            WallOrientation::Horizontal => (
                self.step_heat(a, a + 9),
                self.step_heat(a + 1, a + 10),
            ),
            WallOrientation::Vertical => (self.step_heat(a, a + 1), self.step_heat(a + 9, a + 10)),
        };
        if x >= y {
            x
        } else {
            y
        }
    }
}

impl Default for CorridorAttention {
    fn default() -> (r: Self)
        ensures
            forall|i: int|
                0 <= i < 81 ==> #[trigger] r.square_heat[i] == 0 && r.route_flex[i] == 0
                    && r.bottleneck_heat[i] == 0,
    {
        let z16: [u16; 81] = [0u16; 81];
        let z8: [u8; 81] = [0u8; 81];
        CorridorAttention { square_heat: z16, route_flex: z8, bottleneck_heat: z16 }
    }
}

} // verus!
