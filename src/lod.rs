//! The per-frame visibility query: brightness culling of regions and bodies,
//! and merging of small batches into their parent's batch.
use vstd::prelude::*;
use crate::fp::{abs, FP128, FRAC_ONE, Vec3F};
use crate::sector::{Colour, MAX_DEPTH, Octant, Sector, lemma_id_depth};
use crate::tree::{Body, Cell, Node, fits_under, node_wf};
use crate::wide::{two_128, wide_gt, wide_mul, wide_value};

verus! {

/// The reciprocal of the faintest brightness that still counts as visible
/// (`0.01 / 255`).
pub const MIN_BRIGHTNESS_INV: u128 = 25500;

/// A child cell whose batches hold fewer points than this has them merged
/// into its parent's batch.
pub const MESH_COMBINE_THRESHOLD: usize = 8192;

/// Vector components below this bound have squares whose sum fits in `u128`.
pub const SQUARE_LIMIT: u128 = 0x4000_0000_0000_0000;

/// The largest whole number whose square is at most `n`.
pub open spec fn floor_sqrt(n: nat) -> nat
    decreases n,
{
    if n == 0 {
        0
    } else {
        let r = floor_sqrt((n - 1) as nat);
        if (r + 1) * (r + 1) <= n {
            r + 1
        } else {
            r
        }
    }
}

/// Relies on `u128::isqrt`: the square root rounded down.
#[verifier::external_body]
fn isqrt(n: u128) -> (r: u128)
    ensures
        r == floor_sqrt(n as nat),
{
    n.isqrt()
}

proof fn lemma_floor_sqrt(n: nat)
    ensures
        floor_sqrt(n) * floor_sqrt(n) <= n,
    decreases n,
{
    if n > 0 {
        lemma_floor_sqrt((n - 1) as nat);
        let r = floor_sqrt((n - 1) as nat);
        let f = floor_sqrt(n);
        if (r + 1) * (r + 1) <= n {
            assert(f == r + 1);
            assert(f * f <= n);
        } else {
            assert(f == r);
            assert(f * f <= n);
        }
    } else {
        assert(floor_sqrt(n) == 0);
        assert(floor_sqrt(n) * floor_sqrt(n) == 0);
    }
}

proof fn lemma_floor_sqrt_le(n: nat, m: nat)
    requires
        n <= m * m,
    ensures
        floor_sqrt(n) <= m,
{
    lemma_floor_sqrt(n);
    let r = floor_sqrt(n);
    if r > m {
        assert(r * r > m * m) by (nonlinear_arith)
            requires
                r > m,
                m >= 0,
        ;
    }
}

/// The Euclidean length of `(x, y, z)` rounded down; where a component is too
/// large to square exactly, the length of the halved vector, doubled.
pub open spec fn norm3(x: nat, y: nat, z: nat) -> nat
    decreases x + y + z,
{
    if x < SQUARE_LIMIT && y < SQUARE_LIMIT && z < SQUARE_LIMIT {
        floor_sqrt(x * x + y * y + z * z)
    } else {
        2 * norm3(x / 2, y / 2, z / 2)
    }
}

fn norm3_exec(x: u128, y: u128, z: u128) -> (r: u128)
    requires
        x < 0x1_0000_0000_0000_0000_0000_0000,
        y < 0x1_0000_0000_0000_0000_0000_0000,
        z < 0x1_0000_0000_0000_0000_0000_0000,
    ensures
        r == norm3(x as nat, y as nat, z as nat),
        r <= x + y + z,
    decreases x + y + z,
{
    if x < SQUARE_LIMIT && y < SQUARE_LIMIT && z < SQUARE_LIMIT {
        proof {
            assert(x * x <= SQUARE_LIMIT * SQUARE_LIMIT) by (nonlinear_arith)
                requires
                    x < SQUARE_LIMIT,
            ;
            assert(y * y <= SQUARE_LIMIT * SQUARE_LIMIT) by (nonlinear_arith)
                requires
                    y < SQUARE_LIMIT,
            ;
            assert(z * z <= SQUARE_LIMIT * SQUARE_LIMIT) by (nonlinear_arith)
                requires
                    z < SQUARE_LIMIT,
            ;
            let s = x * x + y * y + z * z;
            assert(s <= (x + y + z) * (x + y + z)) by (nonlinear_arith)
                requires
                    x >= 0,
                    y >= 0,
                    z >= 0,
                    s == x * x + y * y + z * z,
            ;
            lemma_floor_sqrt_le(s as nat, (x + y + z) as nat);
        }
        isqrt(x * x + y * y + z * z)
    } else {
        let h = norm3_exec(x / 2, y / 2, z / 2);
        2 * h
    }
}

/// A raw distance in whole units, rounded down.
pub open spec fn whole(raw: int) -> int {
    raw / (FRAC_ONE as int)
}

/// The distance between two points in whole units.
pub open spec fn distance(a: Vec3F, b: Vec3F) -> int {
    norm3(
        whole(abs(a.x.val() - b.x.val())) as nat,
        whole(abs(a.y.val() - b.y.val())) as nat,
        whole(abs(a.z.val() - b.z.val())) as nat,
    ) as int
}

/// `|a - b|`, which always fits in `u128`.
fn abs_diff(a: i128, b: i128) -> (r: u128)
    ensures
        r == abs(a - b),
{
    let (hi, lo) = if a >= b { (a, b) } else { (b, a) };
    if lo >= 0 || hi < 0 {
        (hi - lo) as u128
    } else {
        hi as u128 + (-(lo + 1)) as u128 + 1
    }
}

fn whole_abs_diff(a: i128, b: i128) -> (r: u128)
    ensures
        r == whole(abs(a - b)),
        r < 0x1_0000_0000_0000_0000_0000_0000,
{
    let d = abs_diff(a, b);
    assert(d / (FRAC_ONE as u128) < 0x1_0000_0000_0000_0000_0000_0000) by (nonlinear_arith)
        requires
            d <= u128::MAX,
    ;
    d / (FRAC_ONE as u128)
}

fn distance_exec(a: Vec3F, b: Vec3F) -> (r: u128)
    ensures
        r == distance(a, b),
        r < 0x4_0000_0000_0000_0000_0000_0000,
{
    let x = whole_abs_diff(a.x.bits, b.x.bits);
    let y = whole_abs_diff(a.y.bits, b.y.bits);
    let z = whole_abs_diff(a.z.bits, b.z.bits);
    norm3_exec(x, y, z)
}

/// A light of brightness `peak` seen from `d` whole units away is bright
/// enough: `peak / ((1 + d)^2 * fov) > MIN_BRIGHTNESS`, where `fov` is the
/// field-of-view factor in raw units of 2^-32.
pub open spec fn bright_enough(peak: int, d: int, fov: int) -> bool {
    peak * MIN_BRIGHTNESS_INV * FRAC_ONE > (1 + d) * (1 + d) * fov
}

/// `MIN_BRIGHTNESS_INV * FRAC_ONE`.
const SCALED_INV: u128 = 109_521_666_048_000;

/// Below this bound the squared distance times the field-of-view factor fits
/// in 256 bits with room to spare.
const E_LIMIT: u128 = 0x100_0000_0000_0000_0000_0000;

fn bright_enough_exec(peak: u128, d: u128, fov: u64) -> (r: bool)
    requires
        d < 0x4_0000_0000_0000_0000_0000_0000,
    ensures
        r == bright_enough(peak as int, d as int, fov as int),
{
    let ghost lhs = peak as int * MIN_BRIGHTNESS_INV * FRAC_ONE;
    assert(SCALED_INV == MIN_BRIGHTNESS_INV * FRAC_ONE);
    assert(lhs == peak as int * SCALED_INV) by (nonlinear_arith)
        requires
            lhs == peak as int * MIN_BRIGHTNESS_INV * FRAC_ONE,
            SCALED_INV == MIN_BRIGHTNESS_INV * FRAC_ONE,
    ;
    if fov == 0 {
        proof {
            assert((lhs > 0) == (peak > 0)) by (nonlinear_arith)
                requires
                    lhs == peak as int * SCALED_INV,
                    SCALED_INV > 0,
                    peak >= 0,
            ;
        }
        return peak > 0;
    }
    let e: u128 = d + 1;
    let ghost rhs = (1 + d) * (1 + d) * fov;
    if e >= E_LIMIT {
        proof {
            assert(lhs < two_128() * SCALED_INV) by (nonlinear_arith)
                requires
                    lhs == peak as int * SCALED_INV,
                    peak < two_128(),
                    SCALED_INV > 0,
            ;
            assert(rhs >= E_LIMIT * E_LIMIT) by (nonlinear_arith)
                requires
                    rhs == (1 + d) * (1 + d) * fov,
                    1 + d >= E_LIMIT,
                    fov >= 1,
            ;
        }
        return false;
    }
    let (eh, el) = wide_mul(e, e);
    proof {
        assert(e * e < E_LIMIT * E_LIMIT) by (nonlinear_arith)
            requires
                0 <= e < E_LIMIT,
        ;
        assert(eh < 0x1_0000_0000_0000) by (nonlinear_arith)
            requires
                eh * two_128() + el == e * e,
                e * e < E_LIMIT * E_LIMIT,
                el >= 0,
                two_128() == 0x1_0000_0000_0000_0000 * 0x1_0000_0000_0000_0000,
        ;
    }
    let (fh, fl) = wide_mul(el, fov as u128);
    proof {
        assert(fh < 0x1_0000_0000_0000_0000) by (nonlinear_arith)
            requires
                fh * two_128() + fl == el * fov,
                el < two_128(),
                fov < 0x1_0000_0000_0000_0000,
                fl >= 0,
                two_128() == 0x1_0000_0000_0000_0000 * 0x1_0000_0000_0000_0000,
        ;
        assert(eh * fov < 0x1_0000_0000_0000 * 0x1_0000_0000_0000_0000) by (nonlinear_arith)
            requires
                eh < 0x1_0000_0000_0000,
                fov < 0x1_0000_0000_0000_0000,
        ;
    }
    let rh = eh * (fov as u128) + fh;
    proof {
        assert(wide_value(rh, fl) == rhs) by (nonlinear_arith)
            requires
                rh == eh * fov + fh,
                fh * two_128() + fl == el * fov,
                eh * two_128() + el == e * e,
                e == 1 + d,
                rhs == (1 + d) * (1 + d) * fov,
                wide_value(rh, fl) == rh * two_128() + fl,
        ;
    }
    let (ph, pl) = wide_mul(peak, SCALED_INV);
    wide_gt(ph, pl, rh, fl)
}

/// The largest extent of a region on any axis, in raw units.
pub open spec fn max_extent(s: Sector) -> int {
    let dx = s.max.x.val() - s.min.x.val();
    let dy = s.max.y.val() - s.min.y.val();
    let dz = s.max.z.val() - s.min.z.val();
    if dx >= dy && dx >= dz {
        dx
    } else if dy >= dz {
        dy
    } else {
        dz
    }
}

/// The radius that a region's distance is measured to, in whole units: its
/// largest extent.
pub open spec fn radius(s: Sector) -> int {
    whole(max_extent(s))
}

/// A region can be seen from `p`: from inside or next to it, if it holds any
/// light at all; from further away, if its brightest channel is bright enough
/// at its distance beyond the radius.
pub open spec fn region_visible(s: Sector, p: Vec3F, fov: u64) -> bool {
    let d = distance(s.centre, p) - radius(s);
    if d <= 0 {
        s.luminosity.peak_spec() > 0
    } else {
        bright_enough(s.luminosity.peak_spec() as int, d, fov as int)
    }
}

/// A body can be seen from `p`: its brightest channel is bright enough at its
/// distance.
pub open spec fn body_visible(b: Body, p: Vec3F, fov: u64) -> bool {
    bright_enough(b.colour.peak_spec() as int, distance(b.position, p), fov as int)
}

fn sector_visible(s: &Sector, p: Vec3F, fov: u64) -> (r: bool)
    requires
        s.wf(),
    ensures
        r == region_visible(*s, p, fov),
{
    let dist = distance_exec(s.centre, p);
    let dims = s.dimensions();
    let m = dims.max();
    let rad: u128 = (m.bits as u128) / (FRAC_ONE as u128);
    let peak = s.luminosity.peak();
    if dist <= rad {
        peak > 0
    } else {
        bright_enough_exec(peak, dist - rad, fov)
    }
}

pub fn body_visible_exec(b: &Body, p: Vec3F, fov: u64) -> (r: bool)
    ensures
        r == body_visible(*b, p, fov),
{
    let dist = distance_exec(b.position, p);
    bright_enough_exec(b.colour.peak(), dist, fov)
}

/// A light in a query's result: a body, or a stand-in for a whole region.
#[derive(Clone, Copy, Debug, PartialEq, Eq, Structural, Hash)]
pub struct PointLight {
    pub position: Vec3F,
    pub diameter: FP128,
    pub colour: Colour,
    pub is_body: bool,
}

/// One batch of a query's result: the lights found for one cell.
#[derive(Clone, Debug, PartialEq, Eq, Hash)]
pub struct CellVisibility {
    pub centre: Vec3F,
    pub depth: usize,
    pub bodies: Vec<PointLight>,
}

/// A batch as a value: centre, depth and lights.
pub type Batch = (Vec3F, usize, Seq<PointLight>);

pub open spec fn batch_of(v: CellVisibility) -> Batch {
    (v.centre, v.depth, v.bodies@)
}

pub open spec fn batches(v: Seq<CellVisibility>) -> Seq<Batch> {
    v.map_values(|b: CellVisibility| batch_of(b))
}

/// The number of lights in a list of batches.
pub open spec fn point_count(bs: Seq<Batch>) -> int
    decreases bs.len(),
{
    if bs.len() == 0 {
        0
    } else {
        point_count(bs.drop_last()) + bs.last().2.len()
    }
}

/// The lights of a list of batches, in order.
pub open spec fn flatten(bs: Seq<Batch>) -> Seq<PointLight>
    decreases bs.len(),
{
    if bs.len() == 0 {
        Seq::empty()
    } else {
        flatten(bs.drop_last()) + bs.last().2
    }
}

/// The light that stands for a body.
pub open spec fn body_light(b: Body) -> PointLight {
    PointLight { position: b.position, diameter: FP128 { bits: FRAC_ONE }, colour: b.colour, is_body: true }
}

/// The lights of the visible bodies among `bs`, in order.
pub open spec fn visible_lights(bs: Seq<Body>, p: Vec3F, fov: u64) -> Seq<PointLight>
    decreases bs.len(),
{
    if bs.len() == 0 {
        Seq::empty()
    } else {
        let rest = visible_lights(bs.drop_last(), p, fov);
        if body_visible(bs.last(), p, fov) {
            rest.push(body_light(bs.last()))
        } else {
            rest
        }
    }
}

/// The light that stands for a whole region seen only in aggregate.
pub open spec fn impostor(s: Sector) -> PointLight {
    PointLight {
        position: s.centre,
        diameter: FP128 { bits: max_extent(s) as i128 },
        colour: s.luminosity,
        is_body: false,
    }
}

impl Cell {
    /// The batches that a query from `p` returns for this cell.
    pub open spec fn query(self, p: Vec3F, fov: u64) -> Seq<Batch>
        decreases MAX_DEPTH - self.sector.depth, 1int, 0int,
    {
        if !region_visible(self.sector, p, fov) {
            Seq::empty()
        } else {
            let g = self.gather(p, fov, 8);
            if g.0.len() > 0 || g.1.len() > 0 {
                g.1.push((self.sector.centre, self.sector.depth, g.0))
            } else {
                seq![(self.sector.centre, self.sector.depth, seq![impostor(self.sector)])]
            }
        }
    }

    /// The lights merged into this cell's batch and the batches kept apart,
    /// from the first `k` children.
    pub open spec fn gather(self, p: Vec3F, fov: u64, k: int) -> (Seq<PointLight>, Seq<Batch>)
        decreases MAX_DEPTH - self.sector.depth, 0int, k,
    {
        if k <= 0 {
            (Seq::empty(), Seq::empty())
        } else {
            let g = self.gather(p, fov, k - 1);
            match self.children[k - 1] {
                Node::Cell(c) => if self.below(*c) {
                    let sub = c.query(p, fov);
                    if point_count(sub) < MESH_COMBINE_THRESHOLD {
                        (g.0 + flatten(sub), g.1)
                    } else {
                        (g.0, g.1 + sub)
                    }
                } else {
                    g
                },
                Node::Leaf(l) => (g.0 + visible_lights(l.children@, p, fov), g.1),
                Node::Unloaded(_) => g,
            }
        }
    }

    /// `new` is this cell after a query from `p`: the same regions, with each
    /// unloaded child of a visible cell replaced by the cell that `gen`
    /// returned for it.
    pub open spec fn refreshed<F: Fn(u128, (Vec3F, Vec3F), Colour) -> Cell>(
        self,
        new: Cell,
        p: Vec3F,
        fov: u64,
        gen: &F,
    ) -> bool
        decreases MAX_DEPTH - self.sector.depth, 1int,
    {
        &&& new.sector == self.sector
        &&& if !region_visible(self.sector, p, fov) {
            new.children == self.children
        } else {
            forall|j: int|
                0 <= j < 8 ==> self.child_refreshed(j, #[trigger] self.children[j], new.children[j], p, fov, gen)
        }
    }

    /// `new` is child `j` of this cell, `old`, after a query from `p` reached
    /// it: a cell refreshed in turn, the same leaf, or for an unloaded region
    /// the cell that `gen` returned for its id, its bounds and an eighth of
    /// this cell's luminosity.
    pub open spec fn child_refreshed<F: Fn(u128, (Vec3F, Vec3F), Colour) -> Cell>(
        self,
        j: int,
        old: Node,
        new: Node,
        p: Vec3F,
        fov: u64,
        gen: &F,
    ) -> bool
        decreases MAX_DEPTH - self.sector.depth, 0int,
    {
        match old {
            Node::Cell(oc) => new is Cell && (self.below(*oc) ==> oc.refreshed(*new->Cell_0, p, fov, gen)),
            Node::Leaf(_) => new == old,
            Node::Unloaded(id) => new is Cell && gen.ensures(
                (
                    id,
                    (
                        self.sector.child_min(Octant::of_code(j as nat)),
                        self.sector.child_max(Octant::of_code(j as nat)),
                    ),
                    self.sector.luminosity.eighth_spec(),
                ),
                *new->Cell_0,
            ),
        }
    }
}

/// `b` are the bounds of child `o` of a well-formed region that may hold an
/// unloaded child, and `id` is that child's id.
pub open spec fn paged_region(id: u128, b: (Vec3F, Vec3F)) -> bool {
    exists|s: Sector, o: Octant|
        s.wf() && s.depth + 1 < MAX_DEPTH && id == s.id * 8 + o.code() && b.0 == #[trigger] s.child_min(o) && b.1
            == s.child_max(o)
}

/// A generator of cells for unloaded regions that may be called on any
/// arguments, and that returns a well-formed cell with the given id and
/// bounds for the id and bounds of any child region that may be unloaded.
pub open spec fn generator_ok<F: Fn(u128, (Vec3F, Vec3F), Colour) -> Cell>(f: &F) -> bool {
    &&& forall|id: u128, b: (Vec3F, Vec3F), l: Colour| #[trigger] f.requires((id, b, l))
    &&& forall|id: u128, b: (Vec3F, Vec3F), l: Colour, c: Cell|
        paged_region(id, b) && #[trigger] f.ensures((id, b, l), c) ==> c.wf() && c.sector.id == id && c.sector.min
            == b.0 && c.sector.max == b.1
}

/// The number of lights in `sub`, or the merge threshold if that is smaller.
fn capped_point_count(sub: &Vec<CellVisibility>) -> (n: usize)
    ensures
        (n < MESH_COMBINE_THRESHOLD) == (point_count(batches(sub@)) < MESH_COMBINE_THRESHOLD),
{
    let mut total: usize = 0;
    let mut k: usize = 0;
    while k < sub.len()
        invariant
            k <= sub@.len(),
            total <= MESH_COMBINE_THRESHOLD,
            total == if point_count(batches(sub@.take(k as int))) < MESH_COMBINE_THRESHOLD {
                point_count(batches(sub@.take(k as int)))
            } else {
                MESH_COMBINE_THRESHOLD as int
            },
        decreases sub@.len() - k,
    {
        let len = sub[k].bodies.len();
        proof {
            assert(batches(sub@.take(k + 1)).drop_last() =~= batches(sub@.take(k as int)));
            assert(batches(sub@.take(k + 1)).last() == batch_of(sub@[k as int]));
        }
        if len >= MESH_COMBINE_THRESHOLD - total {
            total = MESH_COMBINE_THRESHOLD;
        } else {
            total = total + len;
        }
        k = k + 1;
    }
    assert(sub@.take(k as int) =~= sub@);
    total
}

/// Appends the lights of `sub` to `points`, in order.
fn flatten_into(points: &mut Vec<PointLight>, sub: &Vec<CellVisibility>)
    ensures
        final(points)@ == old(points)@ + flatten(batches(sub@)),
{
    let mut k: usize = 0;
    while k < sub.len()
        invariant
            k <= sub@.len(),
            points@ == old(points)@ + flatten(batches(sub@.take(k as int))),
        decreases sub@.len() - k,
    {
        let ghost before = points@;
        let mut m: usize = 0;
        while m < sub[k].bodies.len()
            invariant
                k < sub@.len(),
                m <= sub@[k as int].bodies@.len(),
                points@ == before + sub@[k as int].bodies@.take(m as int),
            decreases sub@[k as int].bodies@.len() - m,
        {
            points.push(sub[k].bodies[m]);
            proof {
                assert(sub@[k as int].bodies@.take(m + 1) =~= sub@[k as int].bodies@.take(m as int).push(
                    sub@[k as int].bodies@[m as int],
                ));
            }
            m = m + 1;
        }
        proof {
            assert(sub@[k as int].bodies@.take(m as int) =~= sub@[k as int].bodies@);
            assert(batches(sub@.take(k + 1)).drop_last() =~= batches(sub@.take(k as int)));
            assert(batches(sub@.take(k + 1)).last() == batch_of(sub@[k as int]));
        }
        k = k + 1;
    }
    assert(sub@.take(k as int) =~= sub@);
}

/// Appends the lights of the visible bodies among `bodies` to `points`.
fn push_visible(points: &mut Vec<PointLight>, bodies: &Vec<Body>, p: Vec3F, fov: u64)
    ensures
        final(points)@ == old(points)@ + visible_lights(bodies@, p, fov),
{
    let mut k: usize = 0;
    while k < bodies.len()
        invariant
            k <= bodies@.len(),
            points@ == old(points)@ + visible_lights(bodies@.take(k as int), p, fov),
        decreases bodies@.len() - k,
    {
        let b = bodies[k];
        proof {
            assert(bodies@.take(k + 1).drop_last() =~= bodies@.take(k as int));
            assert(bodies@.take(k + 1).last() == b);
        }
        if body_visible_exec(&b, p, fov) {
            points.push(PointLight { position: b.position, diameter: FP128 { bits: FRAC_ONE }, colour: b.colour, is_body: true });
        }
        k = k + 1;
    }
    assert(bodies@.take(k as int) =~= bodies@);
}

impl Cell {
    /// The cell's region can be seen from `point` with field-of-view factor
    /// `fov` (in raw units of 2^-32).
    pub fn visible_from(&self, point: Vec3F, fov: u64) -> (r: bool)
        requires
            self.wf(),
        ensures
            r == region_visible(self.sector, point, fov),
    {
        sector_visible(&self.sector, point, fov)
    }

    /// The lights visible from `point` below this cell, in batches; `fov` is
    /// the field-of-view factor in raw units of 2^-32, and a larger factor
    /// culls more. Regions too faint to see are pruned; a child cell whose batches hold fewer
    /// than `MESH_COMBINE_THRESHOLD` lights has them merged into this cell's
    /// batch; a visible cell where nothing below is visible yields one light
    /// standing for the whole region. Each unloaded child of a visible cell is
    /// replaced by the cell that `generate_cell` makes for its id, bounds and
    /// an eighth of this cell's luminosity.
    pub fn all_visible_from<F: Fn(u128, (Vec3F, Vec3F), Colour) -> Cell>(
        &mut self,
        point: Vec3F,
        fov: u64,
        generate_cell: &F,
    ) -> (r: Vec<CellVisibility>)
        requires
            old(self).wf(),
            generator_ok(generate_cell),
        ensures
            final(self).wf(),
            batches(r@) == old(self).query(point, fov),
            old(self).refreshed(*final(self), point, fov, generate_cell),
        decreases MAX_DEPTH - old(self).sector.depth,
    {
        let mut points: Vec<PointLight> = Vec::new();
        let mut visibility: Vec<CellVisibility> = Vec::new();
        if !self.visible_from(point, fov) {
            assert(batches(visibility@) =~= Seq::<Batch>::empty());
            return visibility;
        }
        let ghost c0 = *self;
        let mut i: usize = 0;
        while i < 8
            invariant
                0 <= i <= 8,
                c0.wf(),
                c0 == *old(self),
                generator_ok(generate_cell),
                region_visible(c0.sector, point, fov),
                self.sector == c0.sector,
                forall|j: int| i <= j < 8 ==> self.children[j] == c0.children[j],
                forall|j: int| 0 <= j < 8 ==> node_wf(#[trigger] self.children[j], c0.sector, Octant::of_code(j as nat)),
                forall|j: int|
                    0 <= j < i ==> c0.child_refreshed(j, #[trigger] c0.children[j], self.children[j], point, fov, generate_cell),
                (points@, batches(visibility@)) == c0.gather(point, fov, i as int),
            decreases 8 - i,
        {
            let o = Octant::from_index(i);
            let mut child = Node::Unloaded(0);
            std::mem::swap(&mut self.children[i], &mut child);
            assert(child == c0.children[i as int]);
            assert(node_wf(child, c0.sector, o));
            match child {
                Node::Cell(b) => {
                    let mut cc = *b;
                    assert(cc.sector.depth == c0.sector.depth + 1);
                    let mut sub = cc.all_visible_from(point, fov, generate_cell);
                    let n = capped_point_count(&sub);
                    if n < MESH_COMBINE_THRESHOLD {
                        flatten_into(&mut points, &sub);
                    } else {
                        let ghost before = visibility@;
                        let ghost kept = sub@;
                        visibility.append(&mut sub);
                        assert(batches(visibility@) =~= batches(before) + batches(kept)) by {
                            assert(visibility@ =~= before + kept);
                        }
                    }
                    self.children[i] = Node::Cell(Box::new(cc));
                },
                Node::Leaf(leaf) => {
                    push_visible(&mut points, &leaf.children, point, fov);
                    self.children[i] = Node::Leaf(leaf);
                },
                Node::Unloaded(id) => {
                    let bounds = self.sector.child_bounds(o);
                    let cell = generate_cell(id, bounds, self.sector.luminosity.eighth());
                    proof {
                        assert(paged_region(id, bounds));
                        lemma_id_depth(cell.sector.depth as nat, (c0.sector.depth + 1) as nat, id as int);
                        assert(fits_under(Node::Cell(Box::new(cell)), c0.sector, o));
                    }
                    self.children[i] = Node::Cell(Box::new(cell));
                },
            }
            i = i + 1;
        }
        proof {
            assert forall|j: int|
                0 <= j < 8 implies c0.child_refreshed(j, #[trigger] c0.children[j], self.children[j], point, fov, generate_cell) by {}
            assert(c0.refreshed(*self, point, fov, generate_cell));
        }
        if points.len() > 0 || visibility.len() > 0 {
            let ghost before = visibility@;
            visibility.push(CellVisibility { centre: self.sector.centre, depth: self.sector.depth, bodies: points });
            assert(batches(visibility@) =~= batches(before).push(batch_of(visibility@.last())));
        } else {
            let d = self.sector.dimensions().max();
            let mut lights: Vec<PointLight> = Vec::new();
            lights.push(PointLight { position: self.sector.centre, diameter: d, colour: self.sector.luminosity, is_body: false });
            visibility.push(CellVisibility { centre: self.sector.centre, depth: self.sector.depth, bodies: lights });
            assert(lights@ =~= seq![impostor(c0.sector)]);
            assert(batches(visibility@) =~= seq![(c0.sector.centre, c0.sector.depth, seq![impostor(c0.sector)])]);
        }
        visibility
    }
}

} // verus!
