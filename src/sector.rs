//! Octants, hierarchical region ids and the bounding region of a tree node.
use vstd::prelude::*;
use crate::fp::{abs, FP128, Vec3F};

verus! {

/// The deepest level of the tree; the root is at depth zero.
pub const MAX_DEPTH: usize = 40;

/// The marker that every id starts with, so that the length of an id gives
/// its depth.
pub const ID_ROOT: u128 = 7;

/// One of the eight sub-regions of a box, by the side of the centre taken on
/// each axis (`N` below, `P` at or above).
#[derive(Clone, Copy, Debug, PartialEq, Eq, Structural, Hash)]
pub enum Octant {
    NxNyNz,
    NxNyPz,
    NxPyNz,
    NxPyPz,
    PxNyNz,
    PxNyPz,
    PxPyNz,
    PxPyPz,
}

impl Octant {
    /// The octant's three-bit code: x is the high bit, z the low bit.
    pub open spec fn code(self) -> nat {
        match self {
            Octant::NxNyNz => 0,
            Octant::NxNyPz => 1,
            Octant::NxPyNz => 2,
            Octant::NxPyPz => 3,
            Octant::PxNyNz => 4,
            Octant::PxNyPz => 5,
            Octant::PxPyNz => 6,
            Octant::PxPyPz => 7,
        }
    }

    pub open spec fn of_code(c: nat) -> Octant {
        if c == 0 {
            Octant::NxNyNz
        } else if c == 1 {
            Octant::NxNyPz
        } else if c == 2 {
            Octant::NxPyNz
        } else if c == 3 {
            Octant::NxPyPz
        } else if c == 4 {
            Octant::PxNyNz
        } else if c == 5 {
            Octant::PxNyPz
        } else if c == 6 {
            Octant::PxPyNz
        } else {
            Octant::PxPyPz
        }
    }

    pub open spec fn x_high(self) -> bool {
        self.code() >= 4
    }

    pub open spec fn y_high(self) -> bool {
        self.code() % 4 >= 2
    }

    pub open spec fn z_high(self) -> bool {
        self.code() % 2 == 1
    }

    pub fn index(self) -> (r: usize)
        ensures
            r == self.code(),
    {
        match self {
            Octant::NxNyNz => 0,
            Octant::NxNyPz => 1,
            Octant::NxPyNz => 2,
            Octant::NxPyPz => 3,
            Octant::PxNyNz => 4,
            Octant::PxNyPz => 5,
            Octant::PxPyNz => 6,
            Octant::PxPyPz => 7,
        }
    }

    pub fn from_index(c: usize) -> (r: Octant)
        requires
            c < 8,
        ensures
            r == Octant::of_code(c as nat),
            r.code() == c,
    {
        if c == 0 {
            Octant::NxNyNz
        } else if c == 1 {
            Octant::NxNyPz
        } else if c == 2 {
            Octant::NxPyNz
        } else if c == 3 {
            Octant::NxPyPz
        } else if c == 4 {
            Octant::PxNyNz
        } else if c == 5 {
            Octant::PxNyPz
        } else if c == 6 {
            Octant::PxPyNz
        } else {
            Octant::PxPyPz
        }
    }

    /// The octant on the high side of each axis for which the flag is set.
    pub fn from_sides(x: bool, y: bool, z: bool) -> (r: Octant)
        ensures
            r.x_high() == x,
            r.y_high() == y,
            r.z_high() == z,
    {
        if x {
            if y {
                if z { Octant::PxPyPz } else { Octant::PxPyNz }
            } else {
                if z { Octant::PxNyPz } else { Octant::PxNyNz }
            }
        } else {
            if y {
                if z { Octant::NxPyPz } else { Octant::NxPyNz }
            } else {
                if z { Octant::NxNyPz } else { Octant::NxNyNz }
            }
        }
    }
}

pub open spec fn pow8(n: nat) -> int
    decreases n,
{
    if n == 0 {
        1
    } else {
        8 * pow8((n - 1) as nat)
    }
}

/// The id of the region reached from the root by `path`.
pub open spec fn encode_path(path: Seq<Octant>) -> int
    decreases path.len(),
{
    if path.len() == 0 {
        ID_ROOT as int
    } else {
        encode_path(path.drop_last()) * 8 + path.last().code()
    }
}

/// The path that an id encodes: its octal digits after the root marker.
pub open spec fn decode_id(id: nat) -> Seq<Octant>
    decreases id,
{
    if id <= ID_ROOT {
        Seq::empty()
    } else {
        decode_id(id / 8).push(Octant::of_code(id % 8))
    }
}

proof fn lemma_encode_range(path: Seq<Octant>)
    ensures
        7 * pow8(path.len()) <= encode_path(path) < pow8(path.len() + 1),
    decreases path.len(),
{
    if path.len() > 0 {
        lemma_encode_range(path.drop_last());
        assert(path.last().code() < 8);
    }
}

proof fn lemma_of_code(o: Octant)
    ensures
        Octant::of_code(o.code()) == o,
{
}

/// Decoding the id of a path gives the path back.
pub proof fn lemma_id_round_trip(path: Seq<Octant>)
    requires
        path.len() <= MAX_DEPTH,
    ensures
        decode_id(encode_path(path) as nat) == path,
    decreases path.len(),
{
    if path.len() > 0 {
        let q = path.drop_last();
        lemma_id_round_trip(q);
        lemma_encode_range(q);
        let e = encode_path(q);
        let c = path.last().code() as int;
        assert((e * 8 + c) / 8 == e && (e * 8 + c) % 8 == c) by (nonlinear_arith)
            requires
                0 <= c < 8,
                e >= 7,
        ;
        lemma_of_code(path.last());
        assert(path =~= q.push(path.last()));
    }
}

proof fn lemma_pow8_bound(n: nat)
    requires
        n <= MAX_DEPTH + 1,
    ensures
        1 <= pow8(n) <= pow8((MAX_DEPTH + 1) as nat),
        pow8((MAX_DEPTH + 1) as nat) == 0x8000_0000_0000_0000_0000_0000_0000_000,
    decreases MAX_DEPTH + 1 - n,
{
    reveal_with_fuel(pow8, 42);
    if n < MAX_DEPTH + 1 {
        lemma_pow8_bound(n + 1);
        assert(pow8(n + 1) == 8 * pow8(n));
    }
}

proof fn lemma_pow8_mono(a: nat, b: nat)
    requires
        a <= b,
    ensures
        1 <= pow8(a) <= pow8(b),
    decreases b,
{
    if b > 0 {
        if a < b {
            lemma_pow8_mono(a, (b - 1) as nat);
        } else {
            lemma_pow8_mono((a - 1) as nat, (b - 1) as nat);
        }
    }
}

/// The id of the child in octant `oct` of the region with id `id`.
pub fn id_push(id: u128, oct: Octant) -> (r: u128)
    requires
        id < pow8(MAX_DEPTH as nat),
    ensures
        r == id * 8 + oct.code(),
{
    proof {
        lemma_pow8_bound(MAX_DEPTH as nat);
        assert(pow8((MAX_DEPTH + 1) as nat) == 8 * pow8(MAX_DEPTH as nat));
    }
    id * 8 + oct.index() as u128
}

/// The id of the region reached from the root by `tree_coord`.
pub fn calc_id(tree_coord: &[Octant]) -> (r: u128)
    requires
        tree_coord@.len() <= MAX_DEPTH,
    ensures
        r == encode_path(tree_coord@),
{
    let mut out: u128 = ID_ROOT;
    let mut i: usize = 0;
    while i < tree_coord.len()
        invariant
            i <= tree_coord@.len() <= MAX_DEPTH,
            out == encode_path(tree_coord@.take(i as int)),
        decreases tree_coord@.len() - i,
    {
        proof {
            let t = tree_coord@.take(i as int);
            lemma_encode_range(t);
            lemma_pow8_mono((i + 1) as nat, MAX_DEPTH as nat);
            let t1 = tree_coord@.take(i + 1);
            assert(t1.drop_last() =~= t);
        }
        out = id_push(out, tree_coord[i]);
        i = i + 1;
    }
    assert(tree_coord@.take(i as int) =~= tree_coord@);
    out
}

/// The path of octants that an id encodes, from the root down.
pub fn tree_coord(id: u128) -> (r: Vec<Octant>)
    ensures
        r@ == decode_id(id as nat),
{
    let mut digits: Vec<Octant> = Vec::new();
    let mut rest: u128 = id;
    while rest > ID_ROOT
        invariant
            decode_id(id as nat) == decode_id(rest as nat) + digits@.reverse(),
        decreases rest,
    {
        let o = Octant::from_index((rest % 8) as usize);
        proof {
            let d = digits@;
            assert(d.push(o).reverse() =~= seq![o] + d.reverse());
            assert(decode_id(rest as nat) == decode_id((rest / 8) as nat).push(o));
            assert(decode_id((rest / 8) as nat).push(o) + d.reverse() =~= decode_id((rest / 8) as nat) + d.push(o).reverse());
        }
        digits.push(o);
        rest = rest / 8;
    }
    assert(decode_id(rest as nat) =~= Seq::<Octant>::empty());
    assert(decode_id(id as nat) =~= digits@.reverse());
    let mut out: Vec<Octant> = Vec::new();
    let mut k: usize = digits.len();
    while k > 0
        invariant
            k <= digits@.len(),
            out@ =~= digits@.subrange(k as int, digits@.len() as int).reverse(),
        decreases k,
    {
        k = k - 1;
        proof {
            let d = digits@;
            assert(d.subrange(k as int, d.len() as int).reverse() =~= d.subrange(k + 1, d.len() as int).reverse().push(d[k as int]));
        }
        out.push(digits[k]);
    }
    assert(digits@.subrange(0, digits@.len() as int) =~= digits@);
    out
}

/// Coordinates of a region's bounds stay strictly within this many raw units
/// of the origin, so that sums and differences of two of them fit.
pub const DOMAIN_LIMIT: i128 = 0x4000_0000_0000_0000_0000_0000_0000_0000;

pub open spec fn in_domain(v: Vec3F) -> bool {
    &&& abs(v.x.val()) < DOMAIN_LIMIT
    &&& abs(v.y.val()) < DOMAIN_LIMIT
    &&& abs(v.z.val()) < DOMAIN_LIMIT
}

pub open spec fn le3(a: Vec3F, b: Vec3F) -> bool {
    a.x.bits <= b.x.bits && a.y.bits <= b.y.bits && a.z.bits <= b.z.bits
}

/// Non-negative light intensity on three channels.
#[derive(Clone, Copy, Debug, PartialEq, Eq, Structural, Hash)]
pub struct Colour {
    pub r: u128,
    pub g: u128,
    pub b: u128,
}

pub open spec fn sat(v: int) -> int {
    if v > u128::MAX {
        u128::MAX as int
    } else {
        v
    }
}

impl Colour {
    pub fn new(r: u128, g: u128, b: u128) -> (c: Colour)
        ensures
            c.r == r && c.g == g && c.b == b,
    {
        Colour { r, g, b }
    }

    pub open spec fn zero_spec() -> Colour {
        Colour { r: 0, g: 0, b: 0 }
    }

    pub fn zero() -> (c: Colour)
        ensures
            c == Colour::zero_spec(),
    {
        Colour { r: 0, g: 0, b: 0 }
    }

    /// The channelwise sum, each channel saturating at `u128::MAX`.
    pub open spec fn plus(self, o: Colour) -> Colour {
        Colour {
            r: sat(self.r + o.r) as u128,
            g: sat(self.g + o.g) as u128,
            b: sat(self.b + o.b) as u128,
        }
    }

    pub fn add(self, o: Colour) -> (c: Colour)
        ensures
            c == self.plus(o),
    {
        Colour {
            r: self.r.saturating_add(o.r),
            g: self.g.saturating_add(o.g),
            b: self.b.saturating_add(o.b),
        }
    }

    pub open spec fn peak_spec(self) -> u128 {
        if self.r >= self.g && self.r >= self.b {
            self.r
        } else if self.g >= self.b {
            self.g
        } else {
            self.b
        }
    }

    /// The brightest channel.
    pub fn peak(&self) -> (p: u128)
        ensures
            p == self.peak_spec(),
    {
        if self.r >= self.g && self.r >= self.b {
            self.r
        } else if self.g >= self.b {
            self.g
        } else {
            self.b
        }
    }

    /// Every channel divided by eight, rounded down.
    pub open spec fn eighth_spec(self) -> Colour {
        Colour { r: self.r / 8, g: self.g / 8, b: self.b / 8 }
    }

    pub fn eighth(&self) -> (c: Colour)
        ensures
            c == self.eighth_spec(),
    {
        Colour { r: self.r / 8, g: self.g / 8, b: self.b / 8 }
    }
}

/// The bounds and summary of one region of the tree.
#[derive(Clone, Copy, Debug, PartialEq, Eq, Structural, Hash)]
pub struct Sector {
    pub id: u128,
    pub min: Vec3F,
    pub max: Vec3F,
    pub centre: Vec3F,
    pub luminosity: Colour,
    pub depth: usize,
}

pub open spec fn mid(a: FP128, b: FP128) -> int {
    (a.val() + b.val()) / 2
}

/// The lower and upper bound of the child half of `[lo, hi)` on one axis.
pub open spec fn half_axis(lo: FP128, centre: FP128, hi: FP128, high: bool) -> (FP128, FP128) {
    if high {
        (centre, hi)
    } else {
        (lo, centre)
    }
}

pub open spec fn axis_side(p: FP128, centre: FP128) -> nat {
    if p.bits >= centre.bits {
        1
    } else {
        0
    }
}

impl Sector {
    pub open spec fn wf(self) -> bool {
        &&& le3(self.min, self.max)
        &&& in_domain(self.min)
        &&& in_domain(self.max)
        &&& self.centre.x.val() == mid(self.min.x, self.max.x)
        &&& self.centre.y.val() == mid(self.min.y, self.max.y)
        &&& self.centre.z.val() == mid(self.min.z, self.max.z)
        &&& self.depth <= MAX_DEPTH
        &&& 7 * pow8(self.depth as nat) <= self.id < pow8((self.depth + 1) as nat)
    }

    /// The point lies in the half-open box `[min, max)`.
    pub open spec fn contains(self, p: Vec3F) -> bool {
        &&& self.min.x.bits <= p.x.bits < self.max.x.bits
        &&& self.min.y.bits <= p.y.bits < self.max.y.bits
        &&& self.min.z.bits <= p.z.bits < self.max.z.bits
    }

    /// The octant of a point, by its side of the centre on each axis.
    pub open spec fn octant_of(self, p: Vec3F) -> Octant {
        Octant::of_code(
            4 * axis_side(p.x, self.centre.x) + 2 * axis_side(p.y, self.centre.y) + axis_side(p.z, self.centre.z),
        )
    }

    /// The bounds of the child region in octant `o`: on each axis the half
    /// below the centre or the half from the centre up, so that the eight
    /// children tile the region exactly.
    pub open spec fn child_min(self, o: Octant) -> Vec3F {
        Vec3F {
            x: half_axis(self.min.x, self.centre.x, self.max.x, o.x_high()).0,
            y: half_axis(self.min.y, self.centre.y, self.max.y, o.y_high()).0,
            z: half_axis(self.min.z, self.centre.z, self.max.z, o.z_high()).0,
        }
    }

    pub open spec fn child_max(self, o: Octant) -> Vec3F {
        Vec3F {
            x: half_axis(self.min.x, self.centre.x, self.max.x, o.x_high()).1,
            y: half_axis(self.min.y, self.centre.y, self.max.y, o.y_high()).1,
            z: half_axis(self.min.z, self.centre.z, self.max.z, o.z_high()).1,
        }
    }

    /// The sector of the child region in octant `o` with the given luminosity.
    pub open spec fn child(self, o: Octant, lum: Colour) -> Sector {
        Sector {
            id: (self.id * 8 + o.code()) as u128,
            min: self.child_min(o),
            max: self.child_max(o),
            centre: Vec3F {
                x: FP128 { bits: mid(self.child_min(o).x, self.child_max(o).x) as i128 },
                y: FP128 { bits: mid(self.child_min(o).y, self.child_max(o).y) as i128 },
                z: FP128 { bits: mid(self.child_min(o).z, self.child_max(o).z) as i128 },
            },
            luminosity: lum,
            depth: (self.depth + 1) as usize,
        }
    }

    /// The same region with another luminosity.
    pub open spec fn with_luminosity(self, lum: Colour) -> Sector {
        Sector { luminosity: lum, ..self }
    }

    /// A sector for the box `[bound_min, bound_max)`.
    pub fn with_depth(id: u128, bound_min: Vec3F, bound_max: Vec3F, luminosity: Colour, depth: usize) -> (s: Sector)
        requires
            le3(bound_min, bound_max),
            in_domain(bound_min),
            in_domain(bound_max),
            depth <= MAX_DEPTH,
            7 * pow8(depth as nat) <= id < pow8((depth + 1) as nat),
        ensures
            s.wf(),
            s.id == id,
            s.min == bound_min,
            s.max == bound_max,
            s.luminosity == luminosity,
            s.depth == depth,
    {
        let centre = Vec3F::new(
            bound_min.x.mean(bound_max.x),
            bound_min.y.mean(bound_max.y),
            bound_min.z.mean(bound_max.z),
        );
        Sector { id, min: bound_min, max: bound_max, centre, luminosity, depth }
    }

    /// The octant of `point`, or `None` where it lies outside `[min, max)`.
    pub fn octant(&self, point: Vec3F) -> (r: Option<Octant>)
        ensures
            r is None <==> !self.contains(point),
            r matches Some(o) ==> o == self.octant_of(point),
    {
        if point.x.bits < self.min.x.bits || point.y.bits < self.min.y.bits || point.z.bits < self.min.z.bits
            || self.max.x.bits <= point.x.bits || self.max.y.bits <= point.y.bits || self.max.z.bits <= point.z.bits {
            return None;
        }
        let o = Octant::from_sides(
            point.x.bits >= self.centre.x.bits,
            point.y.bits >= self.centre.y.bits,
            point.z.bits >= self.centre.z.bits,
        );
        proof {
            let c = o.code();
            assert(Octant::of_code(c) == o) by {
                lemma_of_code(o);
            }
        }
        Some(o)
    }

    /// The extent of the region on each axis.
    pub fn dimensions(&self) -> (d: Vec3F)
        requires
            self.wf(),
        ensures
            d.x.val() == self.max.x.val() - self.min.x.val(),
            d.y.val() == self.max.y.val() - self.min.y.val(),
            d.z.val() == self.max.z.val() - self.min.z.val(),
    {
        self.max.sub(self.min)
    }

    pub fn id(&self) -> (r: u128)
        ensures
            r == self.id,
    {
        self.id
    }

    pub fn luminosity(&self) -> (r: Colour)
        ensures
            r == self.luminosity,
    {
        self.luminosity
    }

    /// The bounds of the child region in octant `o`.
    pub fn child_bounds(&self, o: Octant) -> (r: (Vec3F, Vec3F))
        ensures
            r.0 == self.child_min(o),
            r.1 == self.child_max(o),
    {
        let i = o.index();
        let min = Vec3F::new(
            if i >= 4 { self.centre.x } else { self.min.x },
            if i % 4 >= 2 { self.centre.y } else { self.min.y },
            if i % 2 == 1 { self.centre.z } else { self.min.z },
        );
        let max = Vec3F::new(
            if i >= 4 { self.max.x } else { self.centre.x },
            if i % 4 >= 2 { self.max.y } else { self.centre.y },
            if i % 2 == 1 { self.max.z } else { self.centre.z },
        );
        (min, max)
    }

    /// The sector of the child region in octant `o`.
    pub fn child_sector(&self, o: Octant, lum: Colour) -> (r: Sector)
        requires
            self.wf(),
            self.depth < MAX_DEPTH,
        ensures
            r == self.child(o, lum),
            r.wf(),
    {
        proof {
            lemma_child_wf(*self, o, lum);
            lemma_pow8_mono((self.depth + 1) as nat, MAX_DEPTH as nat);
        }
        let (min, max) = self.child_bounds(o);
        let id = id_push(self.id, o);
        Sector::with_depth(id, min, max, lum, self.depth + 1)
    }
}

proof fn lemma_mid_between(a: FP128, b: FP128)
    requires
        a.bits <= b.bits,
    ensures
        a.bits <= mid(a, b) <= b.bits,
{
}

/// Every child region of a well-formed region is well formed.
pub proof fn lemma_child_wf(s: Sector, o: Octant, lum: Colour)
    requires
        s.wf(),
        s.depth < MAX_DEPTH,
    ensures
        s.child(o, lum).wf(),
{
    lemma_mid_between(s.min.x, s.max.x);
    lemma_mid_between(s.min.y, s.max.y);
    lemma_mid_between(s.min.z, s.max.z);
    lemma_pow8_mono((s.depth + 1) as nat, MAX_DEPTH as nat);
    assert(pow8((s.depth + 2) as nat) == 8 * pow8((s.depth + 1) as nat));
    assert(pow8((s.depth + 1) as nat) == 8 * pow8(s.depth as nat));
    let p = pow8(s.depth as nat);
    let id = s.id as int;
    assert(7 * (8 * p) <= id * 8 + o.code() && id * 8 + o.code() < 8 * (8 * p)) by (nonlinear_arith)
        requires
            7 * p <= id < 8 * p,
            0 <= o.code() < 8,
    ;
    lemma_pow8_bound((s.depth + 2) as nat);
    let c = s.child(o, lum);
    assert(c.id as int == id * 8 + o.code());
    assert(7 * pow8(c.depth as nat) <= c.id);
    assert(c.id < pow8((c.depth + 1) as nat));
}

/// The id of a well-formed region determines its depth.
pub proof fn lemma_id_depth(a: nat, b: nat, id: int)
    requires
        7 * pow8(a) <= id < pow8(a + 1),
        7 * pow8(b) <= id < pow8(b + 1),
    ensures
        a == b,
{
    if a < b {
        lemma_pow8_mono(a + 1, b);
    } else if b < a {
        lemma_pow8_mono(b + 1, a);
    }
}

/// A point in a region lies in the child region of its octant.
pub proof fn lemma_child_contains(s: Sector, p: Vec3F, lum: Colour)
    requires
        s.wf(),
        s.contains(p),
    ensures
        s.child(s.octant_of(p), lum).contains(p),
{
    let c = 4 * axis_side(p.x, s.centre.x) + 2 * axis_side(p.y, s.centre.y) + axis_side(p.z, s.centre.z);
    assert(Octant::of_code(c).code() == c);
}

} // verus!
