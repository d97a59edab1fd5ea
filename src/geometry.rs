use vstd::prelude::*;

verus! {

/// The mean of two integers, rounded toward negative infinity.
pub open spec fn mid_of(start: int, end: int) -> int {
    (start + end) / 2
}

/// A one-dimensional range of integer coordinates, `start..=end`.
///
/// `start <= end` is expected of a range that bounds anything, but it is not
/// enforced: every operation below is total.
#[derive(Clone, Copy, Debug, PartialEq, Eq, Structural)]
pub struct Range {
    pub start: i64,
    pub end: i64,
}

/// A point in three-dimensional integer space.
#[derive(Clone, Copy, Debug, PartialEq, Eq, Structural)]
pub struct Point {
    pub x: i64,
    pub y: i64,
    pub z: i64,
}

/// An axis-aligned box, one range per axis.
#[derive(Clone, Copy, Debug, PartialEq, Eq, Structural)]
pub struct Cuboid {
    pub x: Range,
    pub y: Range,
    pub z: Range,
}

impl Range {
    pub open spec fn spec_mid(self) -> i64 {
        mid_of(self.start as int, self.end as int) as i64
    }

    pub open spec fn is_ordered(self) -> bool {
        self.start <= self.end
    }

    pub open spec fn contains(self, v: int) -> bool {
        self.start <= v <= self.end
    }

    /// `start..=mid`.
    pub open spec fn lower_half(self) -> Range {
        Range { start: self.start, end: self.spec_mid() }
    }

    /// `mid..=end`.
    pub open spec fn upper_half(self) -> Range {
        Range { start: self.spec_mid(), end: self.end }
    }

    pub open spec fn half(self, upper: bool) -> Range {
        if upper {
            self.upper_half()
        } else {
            self.lower_half()
        }
    }

    /// The midpoint `(start + end) / 2`, rounded down; it never overflows.
    pub fn midpoint(&self) -> (r: i64)
        ensures
            r == mid_of(self.start as int, self.end as int),
            r == self.spec_mid(),
            self.is_ordered() ==> self.start <= r <= self.end,
    {
        let sum: i128 = self.start as i128 + self.end as i128;
        if sum >= 0 {
            (sum / 2) as i64
        } else {
            let neg: i128 = -sum;
            (-((neg + 1) / 2)) as i64
        }
    }
}

/// Whether the coordinate `v` falls in the upper half of an axis split at `mid`.
pub open spec fn upper_side(v: i64, mid: i64) -> bool {
    !(v < mid)
}

pub open spec fn bit(b: bool) -> int {
    if b {
        1
    } else {
        0
    }
}

impl Cuboid {
    pub open spec fn is_ordered(self) -> bool {
        self.x.is_ordered() && self.y.is_ordered() && self.z.is_ordered()
    }

    pub open spec fn contains(self, p: Point) -> bool {
        self.x.contains(p.x as int) && self.y.contains(p.y as int) && self.z.contains(p.z as int)
    }

    /// The octant with index `i = sx + 2 * sy + 4 * sz`, where each sign picks
    /// the lower (0) or upper (1) half of its axis.
    pub open spec fn sub_cuboid(self, i: int) -> Cuboid {
        Cuboid {
            x: self.x.half(i % 2 == 1),
            y: self.y.half((i / 2) % 2 == 1),
            z: self.z.half((i / 4) % 2 == 1),
        }
    }

    /// The octant index of `p`: per axis, sign 1 where the coordinate is at or
    /// above the midpoint, 0 where it is below.
    pub open spec fn octant_index(self, p: Point) -> int {
        bit(upper_side(p.x, self.x.spec_mid())) + 2 * bit(upper_side(p.y, self.y.spec_mid())) + 4
            * bit(upper_side(p.z, self.z.spec_mid()))
    }

    /// The eight octants, indexed as `sub_cuboid` describes.
    pub fn split(&self) -> (r: [Cuboid; 8])
        ensures
            forall|i: int| 0 <= i < 8 ==> #[trigger] r[i] == self.sub_cuboid(i),
    {
        let x_mid = self.x.midpoint();
        let y_mid = self.y.midpoint();
        let z_mid = self.z.midpoint();
        let xl = Range { start: self.x.start, end: x_mid };
        let xh = Range { start: x_mid, end: self.x.end };
        let yl = Range { start: self.y.start, end: y_mid };
        let yh = Range { start: y_mid, end: self.y.end };
        let zl = Range { start: self.z.start, end: z_mid };
        let zh = Range { start: z_mid, end: self.z.end };
        let octants = [
            Cuboid { x: xl, y: yl, z: zl },
            Cuboid { x: xh, y: yl, z: zl },
            Cuboid { x: xl, y: yh, z: zl },
            Cuboid { x: xh, y: yh, z: zl },
            Cuboid { x: xl, y: yl, z: zh },
            Cuboid { x: xh, y: yl, z: zh },
            Cuboid { x: xl, y: yh, z: zh },
            Cuboid { x: xh, y: yh, z: zh },
        ];
        assert forall|i: int| 0 <= i < 8 implies #[trigger] octants[i] == self.sub_cuboid(i) by {
            if i == 0 {
            } else if i == 1 {
            } else if i == 2 {
            } else if i == 3 {
            } else if i == 4 {
            } else if i == 5 {
            } else if i == 6 {
            } else {
            }
        }
        octants
    }

    /// The index of the octant that `point` falls in, by comparison with the
    /// midpoints alone; a point outside the box still gets an index.
    pub fn octant_contains_point(&self, point: &Point) -> (r: usize)
        ensures
            r < 8,
            r == self.octant_index(*point),
    {
        let x_mid = self.x.midpoint();
        let y_mid = self.y.midpoint();
        let z_mid = self.z.midpoint();
        let x_sign: usize = if point.x < x_mid { 0 } else { 1 };
        let y_sign: usize = if point.y < y_mid { 0 } else { 1 };
        let z_sign: usize = if point.z < z_mid { 0 } else { 1 };
        x_sign + 2 * y_sign + 4 * z_sign
    }
}

/// Classification is total: every point, inside the box or not, gets exactly
/// one octant index, in `0..8`, and the index names an octant whose sign on
/// each axis matches the side of the midpoint the point lies on.
pub proof fn lemma_octant_index_total(c: Cuboid, p: Point)
    ensures
        0 <= c.octant_index(p) < 8,
        c.sub_cuboid(c.octant_index(p)).x == c.x.half(upper_side(p.x, c.x.spec_mid())),
        c.sub_cuboid(c.octant_index(p)).y == c.y.half(upper_side(p.y, c.y.spec_mid())),
        c.sub_cuboid(c.octant_index(p)).z == c.z.half(upper_side(p.z, c.z.spec_mid())),
{
}

/// Splitting an ordered box cuts each axis into two contiguous halves that
/// meet at the midpoint, so the eight octants tile the box: every octant lies
/// inside it, every point of the box lies in the octant that classification
/// names, two distinct octants share only points on a midpoint plane, and the
/// lowest and highest octants reach the box's own corners.
pub proof fn lemma_split_tiles(c: Cuboid, p: Point)
    requires
        c.is_ordered(),
    ensures
        c.x.lower_half().start == c.x.start,
        c.x.lower_half().end == c.x.upper_half().start,
        c.x.upper_half().end == c.x.end,
        c.y.lower_half().start == c.y.start,
        c.y.lower_half().end == c.y.upper_half().start,
        c.y.upper_half().end == c.y.end,
        c.z.lower_half().start == c.z.start,
        c.z.lower_half().end == c.z.upper_half().start,
        c.z.upper_half().end == c.z.end,
        forall|i: int| 0 <= i < 8 ==> (#[trigger] c.sub_cuboid(i)).is_ordered(),
        c.sub_cuboid(0).x.start == c.x.start && c.sub_cuboid(0).y.start == c.y.start
            && c.sub_cuboid(0).z.start == c.z.start,
        c.sub_cuboid(7).x.end == c.x.end && c.sub_cuboid(7).y.end == c.y.end
            && c.sub_cuboid(7).z.end == c.z.end,
        forall|i: int| 0 <= i < 8 && (#[trigger] c.sub_cuboid(i)).contains(p) ==> c.contains(p),
        c.contains(p) ==> c.sub_cuboid(c.octant_index(p)).contains(p),
        forall|i: int, j: int|
            0 <= i < 8 && 0 <= j < 8 && i != j && (#[trigger] c.sub_cuboid(i)).contains(p)
                && (#[trigger] c.sub_cuboid(j)).contains(p) ==> p.x == c.x.spec_mid() || p.y
                == c.y.spec_mid() || p.z == c.z.spec_mid(),
{
    assert forall|i: int| 0 <= i < 8 implies (#[trigger] c.sub_cuboid(i)).is_ordered() by {
        if i == 0 {
        } else if i == 1 {
        } else if i == 2 {
        } else if i == 3 {
        } else if i == 4 {
        } else if i == 5 {
        } else if i == 6 {
        } else {
        }
    }
    assert forall|i: int, j: int|
        0 <= i < 8 && 0 <= j < 8 && i != j && (#[trigger] c.sub_cuboid(i)).contains(p)
            && (#[trigger] c.sub_cuboid(j)).contains(p) implies p.x == c.x.spec_mid() || p.y
        == c.y.spec_mid() || p.z == c.z.spec_mid() by {
        assert(i % 2 != j % 2 || (i / 2) % 2 != (j / 2) % 2 || (i / 4) % 2 != (j / 4) % 2);
    }
}

} // verus!
