use vstd::prelude::*;

verus! {

/// A cell of the simulation grid, or, after chunk resolution, the place of a
/// chunk among the chunks.
#[derive(Clone, Copy, Debug, PartialEq, Eq, Structural, Hash)]
pub struct Vector2Int {
    pub x: i32,
    pub y: i32,
}

pub type Vec2Int = Vector2Int;

/// Absolute value of an integer.
pub open spec fn abs(v: int) -> int {
    if v < 0 {
        -v
    } else {
        v
    }
}

/// Quotient of `a` by `b`, which is not zero, rounded toward zero.
pub open spec fn div_toward_zero(a: int, b: int) -> int {
    if b > 0 {
        if a >= 0 {
            a / b
        } else {
            -((-a) / b)
        }
    } else {
        if a >= 0 {
            -(a / (-b))
        } else {
            (-a) / (-b)
        }
    }
}

/// Whether the quotient of `a` by `b` is a number of the grid: `b` is not
/// zero, and the quotient is not the one that does not fit.
pub open spec fn can_divide(a: i32, b: i32) -> bool {
    b != 0 && !(a == i32::MIN && b == -1)
}

/// Number of unit steps along the axes that separate two cells.
pub open spec fn manhattan(a: Vector2Int, b: Vector2Int) -> int {
    abs(a.x - b.x) + abs(a.y - b.y)
}

/// Square of the straight-line distance between two cells.
pub open spec fn distance_squared(a: Vector2Int, b: Vector2Int) -> int {
    (a.x - b.x) * (a.x - b.x) + (a.y - b.y) * (a.y - b.y)
}

impl Default for Vector2Int {
    fn default() -> (r: Self)
        ensures
            r == (Vector2Int { x: 0, y: 0 }),
    {
        Vector2Int { x: 0, y: 0 }
    }
}

impl Vector2Int {
    pub fn new(x: i32, y: i32) -> (r: Self)
        ensures
            r.x == x,
            r.y == y,
    {
        Vector2Int { x, y }
    }

    /// Whether the componentwise sum with `other` is a cell of the grid.
    pub open spec fn can_add(self, other: Vector2Int) -> bool {
        &&& i32::MIN <= self.x + other.x <= i32::MAX
        &&& i32::MIN <= self.y + other.y <= i32::MAX
    }

    /// Whether the componentwise difference with `other` is a cell of the grid.
    pub open spec fn can_sub(self, other: Vector2Int) -> bool {
        &&& i32::MIN <= self.x - other.x <= i32::MAX
        &&& i32::MIN <= self.y - other.y <= i32::MAX
    }

    /// Whether the componentwise product with `factor` is a cell of the grid.
    pub open spec fn can_scale(self, factor: i32) -> bool {
        &&& i32::MIN <= self.x * factor <= i32::MAX
        &&& i32::MIN <= self.y * factor <= i32::MAX
    }

    /// Componentwise sum.
    pub fn plus(self, other: Vector2Int) -> (r: Vector2Int)
        requires
            self.can_add(other),
        ensures
            r.x == self.x + other.x,
            r.y == self.y + other.y,
    {
        Vector2Int { x: self.x + other.x, y: self.y + other.y }
    }

    /// Componentwise sum, or `None` where it leaves the grid.
    pub fn checked_plus(self, other: Vector2Int) -> (r: Option<Vector2Int>)
        ensures
            r.is_some() == self.can_add(other),
            r matches Some(v) ==> v.x == self.x + other.x && v.y == self.y + other.y,
    {
        match (self.x.checked_add(other.x), self.y.checked_add(other.y)) {
            (Some(x), Some(y)) => Some(Vector2Int { x, y }),
            _ => None,
        }
    }

    /// Componentwise difference.
    pub fn minus(self, other: Vector2Int) -> (r: Vector2Int)
        requires
            self.can_sub(other),
        ensures
            r.x == self.x - other.x,
            r.y == self.y - other.y,
    {
        Vector2Int { x: self.x - other.x, y: self.y - other.y }
    }

    /// Both components multiplied by `factor`.
    pub fn scaled(self, factor: i32) -> (r: Vector2Int)
        requires
            self.can_scale(factor),
        ensures
            r.x == self.x * factor,
            r.y == self.y * factor,
    {
        Vector2Int { x: self.x * factor, y: self.y * factor }
    }

    /// Both components divided by `divisor`, rounded toward zero.
    pub fn divided(self, divisor: i32) -> (r: Vector2Int)
        requires
            can_divide(self.x, divisor),
            can_divide(self.y, divisor),
        ensures
            r.x == div_toward_zero(self.x as int, divisor as int),
            r.y == div_toward_zero(self.y as int, divisor as int),
    {
        Vector2Int { x: div_i32(self.x, divisor), y: div_i32(self.y, divisor) }
    }

    /// Manhattan distance to `other`.
    pub fn distance(self, other: Vector2Int) -> (r: i64)
        ensures
            r == manhattan(self, other),
    {
        let dx: i64 = self.x as i64 - other.x as i64;
        let dy: i64 = self.y as i64 - other.y as i64;
        let ax: i64 = if dx < 0 { -dx } else { dx };
        let ay: i64 = if dy < 0 { -dy } else { dy };
        ax + ay
    }

    /// Square of the straight-line distance to `other`.
    pub fn distance_squared(self, other: Vector2Int) -> (r: u128)
        ensures
            r == distance_squared(self, other),
    {
        let dx: i64 = self.x as i64 - other.x as i64;
        let dy: i64 = self.y as i64 - other.y as i64;
        let ax: u128 = if dx < 0 { (-dx) as u128 } else { dx as u128 };
        let ay: u128 = if dy < 0 { (-dy) as u128 } else { dy as u128 };
        assert(ax * ax <= 0x1_0000_0000 * 0x1_0000_0000) by (nonlinear_arith)
            requires ax <= 0x1_0000_0000;
        assert(ay * ay <= 0x1_0000_0000 * 0x1_0000_0000) by (nonlinear_arith)
            requires ay <= 0x1_0000_0000;
        assert(ax * ax == (self.x - other.x) * (self.x - other.x)) by (nonlinear_arith)
            requires ax == self.x - other.x || ax == -(self.x - other.x);
        assert(ay * ay == (self.y - other.y) * (self.y - other.y)) by (nonlinear_arith)
            requires ay == self.y - other.y || ay == -(self.y - other.y);
        ax * ax + ay * ay
    }
}

/// Quotient of `a` by `b`, rounded toward zero.
pub fn div_i32(a: i32, b: i32) -> (r: i32)
    requires
        can_divide(a, b),
    ensures
        r == div_toward_zero(a as int, b as int),
{
    let x: i64 = if a < 0 {
        -(a as i64)
    } else {
        a as i64
    };
    let y: i64 = if b < 0 {
        -(b as i64)
    } else {
        b as i64
    };
    let q: i64 = x / y;
    assert(0 <= q <= x) by (nonlinear_arith)
        requires
            q == x / y,
            x >= 0,
            y > 0,
    ;
    if (a >= 0) == (b > 0) {
        assert(q <= i32::MAX) by {
            if a == i32::MIN {
                assert(q <= 0x4000_0000) by (nonlinear_arith)
                    requires
                        q == x / y,
                        x == 0x8000_0000,
                        y >= 2,
                ;
            }
        }
        q as i32
    } else {
        (-q) as i32
    }
}

} // verus!
