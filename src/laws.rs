//! Properties of the visibility query that relate several calls.
use vstd::prelude::*;
use crate::fp::Vec3F;
use crate::lod::{
    Batch, MESH_COMBINE_THRESHOLD, body_visible, bright_enough, flatten, point_count,
    region_visible, visible_lights,
};
use crate::sector::{Colour, MAX_DEPTH, Octant};
use crate::tree::{Body, Cell, Node};

verus! {

proof fn lemma_bright_mono(peak: int, d: int, f1: int, f2: int)
    requires
        0 <= f1 <= f2,
        bright_enough(peak, d, f2),
    ensures
        bright_enough(peak, d, f1),
{
    assert((1 + d) * (1 + d) * f1 <= (1 + d) * (1 + d) * f2) by (nonlinear_arith)
        requires
            0 <= f1 <= f2,
    ;
}

proof fn lemma_point_count_append(a: Seq<Batch>, b: Seq<Batch>)
    ensures
        point_count(a + b) == point_count(a) + point_count(b),
    decreases b.len(),
{
    if b.len() > 0 {
        lemma_point_count_append(a, b.drop_last());
        assert((a + b).drop_last() =~= a + b.drop_last());
    } else {
        assert(a + b =~= a);
    }
}

proof fn lemma_flatten_len(b: Seq<Batch>)
    ensures
        flatten(b).len() == point_count(b),
    decreases b.len(),
{
    if b.len() > 0 {
        lemma_flatten_len(b.drop_last());
    }
}

proof fn lemma_visible_lights_mono(bs: Seq<Body>, p: Vec3F, f1: u64, f2: u64)
    requires
        f1 <= f2,
    ensures
        visible_lights(bs, p, f2).len() <= visible_lights(bs, p, f1).len(),
    decreases bs.len(),
{
    if bs.len() > 0 {
        lemma_visible_lights_mono(bs.drop_last(), p, f1, f2);
        if body_visible(bs.last(), p, f2) {
            lemma_bright_mono(bs.last().colour.peak_spec() as int, crate::lod::distance(bs.last().position, p), f1 as int, f2 as int);
        }
    }
}

/// The number of lights gathered from the first `k` children.
pub open spec fn gathered(c: Cell, p: Vec3F, fov: u64, k: int) -> int {
    c.gather(p, fov, k).0.len() + point_count(c.gather(p, fov, k).1)
}

/// The number of lights a query returns.
pub open spec fn query_count(c: Cell, p: Vec3F, fov: u64) -> int {
    point_count(c.query(p, fov))
}

proof fn lemma_point_count_nonneg(b: Seq<Batch>)
    ensures
        point_count(b) >= 0,
    decreases b.len(),
{
    if b.len() > 0 {
        lemma_point_count_nonneg(b.drop_last());
    }
}

/// Batches are only kept apart when they hold many lights.
proof fn lemma_kept_count(c: Cell, p: Vec3F, fov: u64, k: int)
    ensures
        c.gather(p, fov, k).1.len() > 0 ==> point_count(c.gather(p, fov, k).1) >= MESH_COMBINE_THRESHOLD,
        point_count(c.gather(p, fov, k).1) >= 0,
    decreases k,
{
    if k > 0 {
        lemma_kept_count(c, p, fov, k - 1);
        let g = c.gather(p, fov, k - 1);
        match c.children[k - 1] {
            Node::Cell(cc) => {
                if c.below(*cc) {
                    let sub = cc.query(p, fov);
                    lemma_point_count_append(g.1, sub);
                    lemma_point_count_nonneg(sub);
                }
            },
            _ => {},
        }
    }
}

proof fn lemma_query_count(c: Cell, p: Vec3F, fov: u64)
    ensures
        query_count(c, p, fov) == if !region_visible(c.sector, p, fov) {
            0
        } else if gathered(c, p, fov, 8) > 0 {
            gathered(c, p, fov, 8)
        } else {
            1
        },
{
    let g = c.gather(p, fov, 8);
    lemma_kept_count(c, p, fov, 8);
    assert(point_count(Seq::<Batch>::empty()) == 0);
    if region_visible(c.sector, p, fov) {
        if g.0.len() > 0 || g.1.len() > 0 {
            let q = g.1.push((c.sector.centre, c.sector.depth, g.0));
            assert(q.drop_last() =~= g.1);
            assert(point_count(q) == point_count(g.1) + g.0.len());
        } else {
            let b = seq![(c.sector.centre, c.sector.depth, seq![crate::lod::impostor(c.sector)])];
            assert(b.drop_last() =~= Seq::<Batch>::empty());
            assert(point_count(b) == 1);
        }
    } else {
        assert(c.query(p, fov) =~= Seq::<Batch>::empty());
    }
}

proof fn lemma_gather_mono(c: Cell, p: Vec3F, f1: u64, f2: u64, k: int)
    requires
        f1 <= f2,
        k <= 8,
    ensures
        gathered(c, p, f2, k) <= gathered(c, p, f1, k),
    decreases MAX_DEPTH - c.sector.depth, 0int, k,
{
    if k > 0 {
        lemma_gather_mono(c, p, f1, f2, k - 1);
        let g1 = c.gather(p, f1, k - 1);
        let g2 = c.gather(p, f2, k - 1);
        match c.children[k - 1] {
            Node::Cell(cc) => {
                if c.below(*cc) {
                    lemma_query_mono(*cc, p, f1, f2);
                    let s1 = cc.query(p, f1);
                    let s2 = cc.query(p, f2);
                    lemma_point_count_append(g1.1, s1);
                    lemma_point_count_append(g2.1, s2);
                    lemma_flatten_len(s1);
                    lemma_flatten_len(s2);
                }
            },
            Node::Leaf(l) => {
                lemma_visible_lights_mono(l.children@, p, f1, f2);
            },
            Node::Unloaded(_) => {},
        }
    }
}

/// A larger field-of-view factor culls more strictly: for the same tree and
/// viewpoint, the query returns no more lights in total.
pub proof fn lemma_query_mono(c: Cell, p: Vec3F, f1: u64, f2: u64)
    requires
        f1 <= f2,
    ensures
        query_count(c, p, f2) <= query_count(c, p, f1),
    decreases MAX_DEPTH - c.sector.depth, 1int, 0int,
{
    lemma_query_count(c, p, f1);
    lemma_query_count(c, p, f2);
    if region_visible(c.sector, p, f2) {
        let d = crate::lod::distance(c.sector.centre, p) - crate::lod::radius(c.sector);
        if d > 0 {
            lemma_bright_mono(c.sector.luminosity.peak_spec() as int, d, f1 as int, f2 as int);
        }
        lemma_gather_mono(c, p, f1, f2, 8);
    }
}

/// A child cell whose batches hold fewer than `MESH_COMBINE_THRESHOLD` lights
/// has its lights merged into its parent's batch; one whose batches hold that
/// many or more keeps them as separate batches of the result.
pub proof fn lemma_merge_threshold(c: Cell, p: Vec3F, fov: u64, i: int)
    requires
        0 <= i < 8,
        c.children[i] is Cell,
        c.below(*c.children[i]->Cell_0),
    ensures
        ({
            let sub = c.children[i]->Cell_0.query(p, fov);
            let before = c.gather(p, fov, i);
            let after = c.gather(p, fov, i + 1);
            &&& point_count(sub) < MESH_COMBINE_THRESHOLD ==> after.0 == before.0 + flatten(sub) && after.1
                == before.1
            &&& point_count(sub) >= MESH_COMBINE_THRESHOLD ==> after.0 == before.0 && after.1 == before.1 + sub
        }),
{
}

/// An unloaded region is generated once: after a first query that reaches
/// it, the child is the cell that the generator returned for its id, its
/// bounds and an eighth of the parent's luminosity; a second query from the
/// same point finds that cell, which keeps its region, and calls the
/// generator for it no more.
pub proof fn lemma_materialize_once<F: Fn(u128, (Vec3F, Vec3F), Colour) -> Cell>(
    t0: Cell,
    t1: Cell,
    t2: Cell,
    p: Vec3F,
    fov: u64,
    gen: &F,
    i: int,
)
    requires
        t0.wf(),
        t1.wf(),
        0 <= i < 8,
        t0.children[i] is Unloaded,
        region_visible(t0.sector, p, fov),
        t0.refreshed(t1, p, fov, gen),
        t1.refreshed(t2, p, fov, gen),
    ensures
        t1.children[i] is Cell,
        gen.ensures(
            (
                t0.children[i]->Unloaded_0,
                (t0.sector.child_min(Octant::of_code(i as nat)), t0.sector.child_max(Octant::of_code(i as nat))),
                t0.sector.luminosity.eighth_spec(),
            ),
            *t1.children[i]->Cell_0,
        ),
        t2.children[i] is Cell,
        t2.children[i]->Cell_0.sector == t1.children[i]->Cell_0.sector,
        t1.below(*t1.children[i]->Cell_0) ==> t1.children[i]->Cell_0.refreshed(*t2.children[i]->Cell_0, p, fov, gen),
{
    assert(t0.child_refreshed(i, t0.children[i], t1.children[i], p, fov, gen));
    assert(t1.sector == t0.sector);
    assert(t1.child_refreshed(i, t1.children[i], t2.children[i], p, fov, gen));
}

} // verus!
