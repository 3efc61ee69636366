use vstd::prelude::*;
use crate::math::Vector2Int;

verus! {

/// Whether a point lies in the rectangle that spans `width` by `height` from
/// the corner `x`, `y`. The sides through the corner are left out, the two
/// opposite ones belong to it.
pub fn is_point_inside_rect(point: Vector2Int, x: i32, y: i32, width: i32, height: i32) -> (r: bool)
    ensures
        r == (x < point.x <= width + x && y < point.y <= height + y),
{
    let point_x: i64 = point.x as i64;
    let point_y: i64 = point.y as i64;
    point_x > x as i64 && point_x <= width as i64 + x as i64 && point_y > y as i64 && point_y
        <= height as i64 + y as i64
}

} // verus!
