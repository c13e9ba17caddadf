//! Coordinates at a level of detail, and the addressing scheme that turns
//! one into a path of octant selectors through an octree.

use vstd::arithmetic::div_mod::{
    lemma_basic_div, lemma_div_by_multiple, lemma_div_denominator, lemma_div_pos_is_pos,
    lemma_fundamental_div_mod, lemma_fundamental_div_mod_converse, lemma_multiply_divide_lt,
    lemma_small_div_converse,
};
use vstd::arithmetic::mul::lemma_mul_is_commutative;
use vstd::arithmetic::power2::{
    lemma2_to64, lemma_pow2_adds, lemma_pow2_pos, lemma_pow2_strictly_increases,
    lemma_pow2_unfold, pow2,
};
use vstd::bits::lemma_u32_shr_is_div;
use vstd::prelude::*;

verus! {

/// Exponent of a cube's edge length: a cube of scale `s` spans `2^s` voxels
/// along each axis. Scale `0` is the finest resolution.
pub type Scale = i8;

/// Why an addressed operation was refused.
#[derive(Clone, Copy, Debug, PartialEq, Eq, Structural)]
pub enum SubdivError {
    /// The coordinate, at its declared level, does not lie inside the tree.
    OutOfBounds,
}

/// A coordinate expressed at a level of detail: the cube of edge `2^scale`
/// whose low corner is `(x, y, z) * 2^scale`.
#[derive(Clone, Copy, Debug, PartialEq, Eq, Structural)]
pub struct OctPos {
    pub scale: Scale,
    pub x: u32,
    pub y: u32,
    pub z: u32,
}

/// Bit `k` of the coordinate `c`, as `0` or `1`.
pub open spec fn axis_bit(c: int, k: nat) -> int {
    (c / (pow2(k) as int)) % 2
}

/// The octant selector that the coordinate `(x, y, z)` picks when a cube of
/// edge `2^(k + 1)` is split: bit 0 is the x half, bit 1 the y half, bit 2
/// the z half.
pub open spec fn octant_index(x: int, y: int, z: int, k: nat) -> int {
    axis_bit(x, k) + 2 * axis_bit(y, k) + 4 * axis_bit(z, k)
}

/// Every element of `path` selects one of the eight octants.
pub open spec fn valid_path(path: Seq<u8>) -> bool {
    forall|j: int| 0 <= j < path.len() ==> #[trigger] path[j] < 8
}

/// Whether the selectors of `path` are the octants that the voxel
/// `(x, y, z)` falls into, level by level, below a cube of edge `2^depth`.
pub open spec fn path_leads_to(path: Seq<u8>, depth: nat, x: int, y: int, z: int) -> bool {
    forall|j: int|
        0 <= j < path.len() ==> #[trigger] path[j] as int == octant_index(
            x,
            y,
            z,
            (depth - 1 - j) as nat,
        )
}

/// Whether `(x, y, z)` can be the low corner of a cube of scale `scale`:
/// each coordinate is a non-negative multiple of the edge.
pub open spec fn aligned(x: int, y: int, z: int, scale: nat) -> bool {
    &&& 0 <= x && x % (pow2(scale) as int) == 0
    &&& 0 <= y && y % (pow2(scale) as int) == 0
    &&& 0 <= z && z % (pow2(scale) as int) == 0
}

/// Whether the voxel `(a, b, c)` lies in the cube of scale `scale` at
/// `(x, y, z)`.
pub open spec fn in_cube(x: int, y: int, z: int, scale: nat, a: int, b: int, c: int) -> bool {
    &&& x <= a < x + pow2(scale)
    &&& y <= b < y + pow2(scale)
    &&& z <= c < z + pow2(scale)
}

/// The low corner of octant `i` of the cube of scale `scale` at
/// `(x, y, z)`.
pub open spec fn octant_corner(x: int, y: int, z: int, scale: int, i: int) -> (int, int, int) {
    let half = pow2((scale - 1) as nat) as int;
    (x + axis_bit(i, 0) * half, y + axis_bit(i, 1) * half, z + axis_bit(i, 2) * half)
}

impl OctPos {
    /// Whether the position addresses a cube inside a tree of scale
    /// `root_scale`.
    pub open spec fn in_bounds(self, root_scale: int) -> bool {
        &&& 0 <= self.scale <= root_scale
        &&& self.x < pow2((root_scale - self.scale) as nat)
        &&& self.y < pow2((root_scale - self.scale) as nat)
        &&& self.z < pow2((root_scale - self.scale) as nat)
    }

    /// Whether the finest-level voxel `(x, y, z)` lies in the addressed cube.
    pub open spec fn covers(self, x: int, y: int, z: int) -> bool {
        let edge = pow2(self.scale as nat) as int;
        &&& x / edge == self.x
        &&& y / edge == self.y
        &&& z / edge == self.z
    }

    /// The finest-level voxel at the low corner of the addressed cube.
    pub open spec fn origin(self) -> (int, int, int) {
        let edge = pow2(self.scale as nat) as int;
        (self.x * edge, self.y * edge, self.z * edge)
    }

    /// The selectors that lead from the root of a tree of scale `root_scale`
    /// to the addressed cube, root first.
    pub open spec fn spec_octant_path(self, root_scale: int) -> Seq<u8> {
        let depth = (root_scale - self.scale) as nat;
        Seq::new(
            depth,
            |j: int| octant_index(self.x as int, self.y as int, self.z as int, (depth - 1 - j) as nat) as u8,
        )
    }
}

/// Builds the position `(x, y, z)` at level `scale`.
pub fn opos(x: u32, y: u32, z: u32, scale: Scale) -> (pos: OctPos)
    ensures
        pos == (OctPos { scale, x, y, z }),
{
    OctPos { scale, x, y, z }
}

/// Whether `c` is below `2^bits`.
fn below_pow2(c: u32, bits: u32) -> (r: bool)
    ensures
        r == (c < pow2(bits as nat)),
{
    proof {
        lemma2_to64();
    }
    if bits >= 32 {
        proof {
            if bits > 32 {
                lemma_pow2_strictly_increases(32, bits as nat);
            }
        }
        true
    } else {
        proof {
            lemma_u32_shr_is_div(c, bits);
            lemma_pow2_pos(bits as nat);
            let p = pow2(bits as nat) as int;
            if c < p {
                lemma_basic_div(c as int, p);
            } else {
                lemma_div_pos_is_pos(c as int, p);
                lemma_fundamental_div_mod(c as int, p);
                if (c as int) / p == 0 {
                    lemma_small_div_converse(c as int, p);
                }
            }
        }
        (c >> bits) == 0
    }
}

/// Bit `k` of `c`.
fn bit_at(c: u32, k: u32) -> (b: u8)
    ensures
        b == axis_bit(c as int, k as nat),
        b <= 1,
{
    proof {
        lemma2_to64();
    }
    if k >= 32 {
        proof {
            if k > 32 {
                lemma_pow2_strictly_increases(32, k as nat);
            }
            lemma_basic_div(c as int, pow2(k as nat) as int);
        }
        0
    } else {
        let shifted: u32 = c >> k;
        proof {
            lemma_u32_shr_is_div(c, k);
            assert(shifted & 1 == shifted % 2) by (bit_vector);
        }
        (shifted & 1) as u8
    }
}

impl OctPos {
    /// Addresses the position in a tree of scale `root_scale`: the ordered
    /// octant selectors from the root down to the addressed cube. The path
    /// is empty when the position addresses the root itself. A position
    /// that does not fit in the tree is refused.
    pub fn octant_path(&self, root_scale: Scale) -> (r: Result<Vec<u8>, SubdivError>)
        ensures
            self.in_bounds(root_scale as int) ==> r is Ok && r->Ok_0@ == self.spec_octant_path(
                root_scale as int,
            ),
            !self.in_bounds(root_scale as int) ==> r == Err::<Vec<u8>, SubdivError>(
                SubdivError::OutOfBounds,
            ),
    {
        if self.scale < 0 || self.scale > root_scale {
            return Err(SubdivError::OutOfBounds);
        }
        let depth: u32 = (root_scale - self.scale) as u32;
        if !below_pow2(self.x, depth) || !below_pow2(self.y, depth) || !below_pow2(self.z, depth) {
            return Err(SubdivError::OutOfBounds);
        }
        let mut path: Vec<u8> = Vec::new();
        let mut level: u32 = depth;
        while level > 0
            invariant
                level <= depth,
                depth == root_scale - self.scale,
                path.len() == depth - level,
                forall|j: int|
                    0 <= j < path.len() ==> path[j] == octant_index(
                        self.x as int,
                        self.y as int,
                        self.z as int,
                        (depth - 1 - j) as nat,
                    ),
            decreases level,
        {
            level = level - 1;
            let bx: u8 = bit_at(self.x, level);
            let by: u8 = bit_at(self.y, level);
            let bz: u8 = bit_at(self.z, level);
            path.push(bx + 2 * by + 4 * bz);
        }
        proof {
            assert(path@ =~= self.spec_octant_path(root_scale as int));
        }
        Ok(path)
    }
}

/// The rest of a valid path is a valid path.
pub proof fn lemma_valid_path_tail(path: Seq<u8>)
    requires
        valid_path(path),
        path.len() > 0,
    ensures
        valid_path(path.drop_first()),
{
    let rest = path.drop_first();
    assert forall|j: int| 0 <= j < rest.len() implies #[trigger] rest[j] < 8 by {
        assert(rest[j] == path[j + 1]);
    }
}

/// A path leads to a voxel when its first selector is the octant of the
/// voxel and the rest of the path leads to the voxel one level down.
pub proof fn lemma_path_leads_to_tail(path: Seq<u8>, depth: nat, x: int, y: int, z: int)
    requires
        0 < path.len() <= depth,
    ensures
        path_leads_to(path, depth, x, y, z) <==> path[0] as int == octant_index(
            x,
            y,
            z,
            (depth - 1) as nat,
        ) && path_leads_to(path.drop_first(), (depth - 1) as nat, x, y, z),
{
    let rest = path.drop_first();
    let below = (depth - 1) as nat;
    if path_leads_to(path, depth, x, y, z) {
        assert(path[0] as int == octant_index(x, y, z, below));
        assert forall|j: int| 0 <= j < rest.len() implies #[trigger] rest[j] as int
            == octant_index(x, y, z, (below - 1 - j) as nat) by {
            assert(rest[j] == path[j + 1]);
        }
    }
    if path[0] as int == octant_index(x, y, z, below) && path_leads_to(rest, below, x, y, z) {
        assert forall|j: int| 0 <= j < path.len() implies #[trigger] path[j] as int
            == octant_index(x, y, z, (depth - 1 - j) as nat) by {
            if j > 0 {
                assert(path[j] == rest[j - 1]);
            }
        }
    }
}

/// Bits are `0` or `1`, and so a selector lies in `0..8`.
pub proof fn lemma_octant_index_range(x: int, y: int, z: int, k: nat)
    ensures
        0 <= axis_bit(x, k) <= 1,
        0 <= axis_bit(y, k) <= 1,
        0 <= axis_bit(z, k) <= 1,
        0 <= octant_index(x, y, z, k) < 8,
{
}

/// Bit `k` of `c / 2^low` is bit `low + k` of `c`.
pub proof fn lemma_axis_bit_shift(c: int, low: nat, k: nat)
    requires
        0 <= c,
    ensures
        axis_bit(c / (pow2(low) as int), k) == axis_bit(c, low + k),
{
    lemma_pow2_pos(low);
    lemma_pow2_pos(k);
    lemma_pow2_adds(low, k);
    lemma_div_denominator(c, pow2(low) as int, pow2(k) as int);
}

/// Two numbers below `2^bits` that agree on their low `bits` bits are equal.
pub proof fn lemma_bits_determine(a: int, b: int, bits: nat)
    requires
        0 <= a < pow2(bits),
        0 <= b < pow2(bits),
        forall|k: nat| k < bits ==> #[trigger] axis_bit(a, k) == axis_bit(b, k),
    ensures
        a == b,
    decreases bits,
{
    lemma2_to64();
    if bits > 0 {
        let rest = (bits - 1) as nat;
        lemma_pow2_unfold(bits);
        let (half_a, half_b) = (a / 2, b / 2);
        assert(axis_bit(a, 0) == axis_bit(b, 0));
        assert forall|k: nat| k < rest implies #[trigger] axis_bit(half_a, k) == axis_bit(
            half_b,
            k,
        ) by {
            lemma_axis_bit_shift(a, 1, k);
            lemma_axis_bit_shift(b, 1, k);
            assert(axis_bit(a, 1 + k) == axis_bit(b, 1 + k));
        }
        lemma_bits_determine(half_a, half_b, rest);
    }
}

impl OctPos {
    /// The path of a position that is in bounds has one valid selector for
    /// each level between the root and the addressed cube.
    pub proof fn lemma_octant_path_valid(self, root_scale: int)
        requires
            self.in_bounds(root_scale),
        ensures
            self.spec_octant_path(root_scale).len() == root_scale - self.scale,
            valid_path(self.spec_octant_path(root_scale)),
    {
        let depth = (root_scale - self.scale) as nat;
        let path = self.spec_octant_path(root_scale);
        assert forall|j: int| 0 <= j < path.len() implies #[trigger] path[j] < 8 by {
            lemma_octant_index_range(
                self.x as int,
                self.y as int,
                self.z as int,
                (depth - 1 - j) as nat,
            );
        }
    }

    /// The path of a position leads to exactly the voxels of the tree that
    /// the addressed cube covers.
    pub proof fn lemma_octant_path_covers(self, root_scale: int, x: int, y: int, z: int)
        requires
            self.in_bounds(root_scale),
            0 <= x < pow2(root_scale as nat),
            0 <= y < pow2(root_scale as nat),
            0 <= z < pow2(root_scale as nat),
        ensures
            self.covers(x, y, z) <==> path_leads_to(
                self.spec_octant_path(root_scale),
                root_scale as nat,
                x,
                y,
                z,
            ),
    {
        let level = self.scale as nat;
        let depth = (root_scale - self.scale) as nat;
        let edge = pow2(level) as int;
        let path = self.spec_octant_path(root_scale);
        let (qx, qy, qz) = (x / edge, y / edge, z / edge);
        lemma_pow2_pos(level);
        lemma_pow2_adds(level, depth);
        assert(0 <= qx < pow2(depth) && 0 <= qy < pow2(depth) && 0 <= qz < pow2(depth)) by {
            lemma_mul_is_commutative(edge, pow2(depth) as int);
            lemma_div_pos_is_pos(x, edge);
            lemma_div_pos_is_pos(y, edge);
            lemma_div_pos_is_pos(z, edge);
            lemma_multiply_divide_lt(x, edge, pow2(depth) as int);
            lemma_multiply_divide_lt(y, edge, pow2(depth) as int);
            lemma_multiply_divide_lt(z, edge, pow2(depth) as int);
        }
        assert forall|k: nat| k < depth implies octant_index(x, y, z, level + k)
            == #[trigger] octant_index(qx, qy, qz, k) by {
            lemma_axis_bit_shift(x, level, k);
            lemma_axis_bit_shift(y, level, k);
            lemma_axis_bit_shift(z, level, k);
        }
        if self.covers(x, y, z) {
            assert forall|j: int| 0 <= j < path.len() implies #[trigger] path[j] as int
                == octant_index(x, y, z, (root_scale - 1 - j) as nat) by {
                let k = (depth - 1 - j) as nat;
                lemma_octant_index_range(qx, qy, qz, k);
                assert(level + k == root_scale - 1 - j);
            }
        }
        if path_leads_to(path, root_scale as nat, x, y, z) {
            let (px, py, pz) = (self.x as int, self.y as int, self.z as int);
            assert forall|k: nat| k < depth implies #[trigger] octant_index(qx, qy, qz, k)
                == octant_index(px, py, pz, k) by {
                let j = depth - 1 - k;
                lemma_octant_index_range(px, py, pz, k);
                assert(path[j] as int == octant_index(x, y, z, (root_scale - 1 - j) as nat));
                assert(level + k == root_scale - 1 - j);
            }
            assert forall|k: nat| k < depth implies #[trigger] axis_bit(qx, k) == axis_bit(px, k) by {
                assert(octant_index(qx, qy, qz, k) == octant_index(px, py, pz, k));
            }
            assert forall|k: nat| k < depth implies #[trigger] axis_bit(qy, k) == axis_bit(py, k) by {
                assert(octant_index(qx, qy, qz, k) == octant_index(px, py, pz, k));
            }
            assert forall|k: nat| k < depth implies #[trigger] axis_bit(qz, k) == axis_bit(pz, k) by {
                assert(octant_index(qx, qy, qz, k) == octant_index(px, py, pz, k));
            }
            lemma_bits_determine(qx, px, depth);
            lemma_bits_determine(qy, py, depth);
            lemma_bits_determine(qz, pz, depth);
        }
    }

    /// At the finest level a position is its own low corner, and the cube
    /// it addresses holds that one voxel.
    pub proof fn lemma_finest_level(self)
        requires
            self.scale == 0,
        ensures
            self.origin() == (self.x as int, self.y as int, self.z as int),
            forall|x: int, y: int, z: int| #[trigger]
                self.covers(x, y, z) <==> x == self.x && y == self.y && z == self.z,
    {
        lemma2_to64();
        let edge = pow2(self.scale as nat) as int;
        assert(edge == 1);
        assert(self.x * edge == self.x && self.y * edge == self.y && self.z * edge == self.z)
            by (nonlinear_arith)
            requires
                edge == 1,
        ;
    }

    /// The low corner of the addressed cube is a voxel of the tree, the cube
    /// covers it, and its coordinate bits below the addressed level are all
    /// zero.
    pub proof fn lemma_origin(self, root_scale: int)
        requires
            self.in_bounds(root_scale),
        ensures
            0 <= self.origin().0 < pow2(root_scale as nat),
            0 <= self.origin().1 < pow2(root_scale as nat),
            0 <= self.origin().2 < pow2(root_scale as nat),
            self.covers(self.origin().0, self.origin().1, self.origin().2),
            forall|k: nat|
                k < self.scale ==> #[trigger] octant_index(
                    self.origin().0,
                    self.origin().1,
                    self.origin().2,
                    k,
                ) == 0,
    {
        let level = self.scale as nat;
        let depth = (root_scale - self.scale) as nat;
        lemma_pow2_pos(level);
        lemma_pow2_adds(depth, level);
        lemma_scaled_coordinate(self.x as int, level, depth);
        lemma_scaled_coordinate(self.y as int, level, depth);
        lemma_scaled_coordinate(self.z as int, level, depth);
    }
}

/// A coordinate `c` below `2^depth`, scaled up by `2^level`, stays below
/// `2^(depth + level)`, divides back to `c`, and has only zero bits below
/// `level`.
proof fn lemma_scaled_coordinate(c: int, level: nat, depth: nat)
    requires
        0 <= c < pow2(depth),
    ensures
        0 <= c * pow2(level) < pow2(depth) * pow2(level),
        (c * pow2(level)) / (pow2(level) as int) == c,
        forall|k: nat| k < level ==> #[trigger] axis_bit(c * pow2(level), k) == 0,
{
    let edge = pow2(level) as int;
    lemma_pow2_pos(level);
    assert(0 <= c * edge < pow2(depth) * edge) by (nonlinear_arith)
        requires
            0 <= c < pow2(depth),
            0 < edge,
    ;
    lemma_div_by_multiple(c, edge);
    let scaled = c * edge;
    assert forall|k: nat| k < level implies #[trigger] axis_bit(scaled, k) == 0 by {
        let low = pow2(k) as int;
        let high = pow2((level - k) as nat) as int;
        lemma_pow2_pos(k);
        lemma_pow2_adds(k, (level - k) as nat);
        lemma_pow2_unfold((level - k) as nat);
        let half = pow2((level - k - 1) as nat) as int;
        assert(c * edge == (c * half * 2) * low) by (nonlinear_arith)
            requires
                edge == low * high,
                high == 2 * half,
        ;
        lemma_div_by_multiple(c * half * 2, low);
        assert((c * half * 2) % 2 == 0) by (nonlinear_arith);
    }
}

/// Halving an aligned cube along one axis: a coordinate `a` inside a cube
/// of edge `2^(k + 1)` whose low corner `origin` is a multiple of that edge
/// lies in the half that bit `k` of `a` names, and that half is aligned to
/// its own edge.
pub proof fn lemma_half_of_aligned(origin: int, k: nat, a: int)
    requires
        0 <= origin,
        origin % (pow2(k + 1) as int) == 0,
        origin <= a < origin + pow2(k + 1),
    ensures
        0 <= axis_bit(a, k) <= 1,
        origin + axis_bit(a, k) * pow2(k) <= a < origin + axis_bit(a, k) * pow2(k) + pow2(k),
        (origin + axis_bit(a, k) * pow2(k)) % (pow2(k) as int) == 0,
{
    let half = pow2(k) as int;
    let whole = pow2(k + 1) as int;
    lemma_pow2_pos(k);
    lemma_pow2_unfold(k + 1);
    let m = origin / whole;
    let q = a / half;
    let r = a % half;
    lemma_fundamental_div_mod(origin, whole);
    lemma_fundamental_div_mod(a, half);
    assert(2 * m <= q <= 2 * m + 1) by (nonlinear_arith)
        requires
            half > 0,
            0 <= r < half,
            whole == 2 * half,
            origin == whole * m,
            a == half * q + r,
            origin <= a < origin + whole,
    ;
    let bit = axis_bit(a, k);
    assert(bit == q - 2 * m);
    assert(origin + bit * half == q * half) by (nonlinear_arith)
        requires
            whole == 2 * half,
            origin == whole * m,
            bit == q - 2 * m,
    ;
    assert(half * q == q * half) by (nonlinear_arith);
    lemma_fundamental_div_mod_converse(q * half, half, q, 0);
}

/// The converse: the half in which a coordinate lies names its bit.
pub proof fn lemma_bit_of_half(origin: int, k: nat, a: int, bit: int)
    requires
        0 <= origin,
        origin % (pow2(k + 1) as int) == 0,
        0 <= bit <= 1,
        origin + bit * pow2(k) <= a < origin + bit * pow2(k) + pow2(k),
    ensures
        axis_bit(a, k) == bit,
        origin <= a < origin + pow2(k + 1),
{
    let half = pow2(k) as int;
    lemma_pow2_pos(k);
    lemma_pow2_unfold(k + 1);
    assert(bit * half == if bit == 0 {
        0
    } else {
        half
    }) by (nonlinear_arith)
        requires
            0 <= bit <= 1,
    ;
    lemma_half_of_aligned(origin, k, a);
    let other = axis_bit(a, k);
    assert(other * half == if other == 0 {
        0
    } else {
        half
    }) by (nonlinear_arith)
        requires
            0 <= other <= 1,
    ;
}

/// The octants of an aligned cube are aligned, lie inside it, and hold
/// exactly the voxels of the cube that select them.
pub proof fn lemma_octant_corner(x: int, y: int, z: int, scale: nat, i: int)
    requires
        scale > 0,
        aligned(x, y, z, scale),
        0 <= i < 8,
    ensures
        aligned(
            octant_corner(x, y, z, scale as int, i).0,
            octant_corner(x, y, z, scale as int, i).1,
            octant_corner(x, y, z, scale as int, i).2,
            (scale - 1) as nat,
        ),
        forall|a: int, b: int, c: int| #[trigger]
            in_cube(
                octant_corner(x, y, z, scale as int, i).0,
                octant_corner(x, y, z, scale as int, i).1,
                octant_corner(x, y, z, scale as int, i).2,
                (scale - 1) as nat,
                a,
                b,
                c,
            ) <==> in_cube(x, y, z, scale, a, b, c) && octant_index(a, b, c, (scale - 1) as nat)
                == i,
{
    let k = (scale - 1) as nat;
    let half = pow2(k) as int;
    let corner = octant_corner(x, y, z, scale as int, i);
    let (bx, by, bz) = (axis_bit(i, 0), axis_bit(i, 1), axis_bit(i, 2));
    lemma2_to64();
    lemma_pow2_pos(k);
    lemma_pow2_unfold(scale);
    assert(i == bx + 2 * by + 4 * bz);
    assert(bx * half == if bx == 0 { 0 } else { half }) by (nonlinear_arith)
        requires 0 <= bx <= 1;
    assert(by * half == if by == 0 { 0 } else { half }) by (nonlinear_arith)
        requires 0 <= by <= 1;
    assert(bz * half == if bz == 0 { 0 } else { half }) by (nonlinear_arith)
        requires 0 <= bz <= 1;
    lemma_half_of_aligned(x, k, corner.0);
    lemma_half_of_aligned(y, k, corner.1);
    lemma_half_of_aligned(z, k, corner.2);
    lemma_bit_of_half(x, k, corner.0, bx);
    lemma_bit_of_half(y, k, corner.1, by);
    lemma_bit_of_half(z, k, corner.2, bz);
    assert forall|a: int, b: int, c: int| #[trigger]
        in_cube(corner.0, corner.1, corner.2, k, a, b, c) <==> in_cube(x, y, z, scale, a, b, c)
            && octant_index(a, b, c, k) == i by {
        if in_cube(corner.0, corner.1, corner.2, k, a, b, c) {
            lemma_bit_of_half(x, k, a, bx);
            lemma_bit_of_half(y, k, b, by);
            lemma_bit_of_half(z, k, c, bz);
        }
        if in_cube(x, y, z, scale, a, b, c) && octant_index(a, b, c, k) == i {
            lemma_half_of_aligned(x, k, a);
            lemma_half_of_aligned(y, k, b);
            lemma_half_of_aligned(z, k, c);
        }
    }
}

} // verus!
