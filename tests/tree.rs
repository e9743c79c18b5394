use std::cell::Cell as Counter;

use fixed::types::I96F32;
use starfield::fp::{FP128, Vec3F};
use starfield::lod::{CellVisibility, MESH_COMBINE_THRESHOLD};
use starfield::sector::{calc_id, id_push, tree_coord, Colour, Octant, ID_ROOT};
use starfield::tree::{Body, Cell, InsertError, Node};

fn f(v: f64) -> FP128 {
    FP128::from_bits(I96F32::from_num(v).to_bits())
}

fn vec(x: f64, y: f64, z: f64) -> Vec3F {
    Vec3F::new(f(x), f(y), f(z))
}

fn splat(v: f64) -> Vec3F {
    vec(v, v, v)
}

const ONE_FOV: u64 = 1 << 32;

fn all_octants() -> Vec<Octant> {
    (0..8).map(Octant::from_index).collect()
}

fn total_points(v: &[CellVisibility]) -> usize {
    v.iter().map(|c| c.bodies.len()).sum()
}

fn never(_: u128, _: (Vec3F, Vec3F), _: Colour) -> Cell {
    panic!("no region is unloaded")
}

#[test]
fn tree_init() {
    // check that we can insert without panicking
    let white = Colour::new(1, 1, 1);
    let mut cell = Cell::new(splat(0.0), splat(1.0), Colour::zero());
    for d in [5.0, 4.0, 3.0, 2.0, 1.8, 1.6, 1.4, 1.2] {
        assert_eq!(cell.add_body(Body { position: splat(1.0 / d), colour: white }), Ok(()));
    }

    let mut cell = Cell::new(splat(1.0), splat(2.0), Colour::zero());
    for d in [5.0, 4.0, 3.0, 2.0, 1.8, 1.6, 1.4, 1.2] {
        assert_eq!(cell.add_body(Body { position: splat(1.0 + 1.0 / d), colour: white }), Ok(()));
    }
}

#[test]
fn sector_ids() {
    let mut id = ID_ROOT;
    let mut octs = vec![];
    for o in all_octants() {
        octs.push(o);
        id = id_push(id, o);
        assert_eq!(tree_coord(id), octs);
    }
    for o in all_octants().iter().rev() {
        octs.push(*o);
        id = id_push(id, *o);
        assert_eq!(tree_coord(id), octs);
    }
}

#[test]
fn id_round_trip_and_known_values() {
    assert_eq!(calc_id(&[]), 7);
    assert_eq!(calc_id(&[Octant::NxNyNz, Octant::NxNyPz, Octant::NxPyNz]), 0b111_000_001_010);
    assert_eq!(tree_coord(7), vec![]);
    let path: Vec<Octant> = (0..40).map(|i| Octant::from_index((i * 5 + 3) % 8)).collect();
    assert_eq!(tree_coord(calc_id(&path)), path);
}

#[test]
fn octant_classification() {
    let cell = Cell::new(splat(0.0), splat(8.0), Colour::zero());
    let s = cell.sector();
    assert_eq!(s.octant(splat(1.0)), Some(Octant::NxNyNz));
    assert_eq!(s.octant(vec(4.0, 0.0, 0.0)), Some(Octant::PxNyNz));
    assert_eq!(s.octant(vec(0.0, 4.0, 7.9)), Some(Octant::NxPyPz));
    assert_eq!(s.octant(splat(8.0)), None);
    assert_eq!(s.octant(vec(-0.1, 1.0, 1.0)), None);
}

#[test]
fn insert_outside_bounds_is_rejected_on_each_axis() {
    let mut cell = Cell::new(splat(0.0), splat(8.0), Colour::zero());
    let c = Colour::new(1, 2, 3);
    for p in [
        vec(8.0, 1.0, 1.0),
        vec(1.0, 8.0, 1.0),
        vec(1.0, 1.0, 8.0),
        vec(-1.0, 1.0, 1.0),
        vec(1.0, -1.0, 1.0),
        vec(1.0, 1.0, -1.0),
    ] {
        assert_eq!(cell.add_body(Body { position: p, colour: c }), Err(InsertError::OutOfBounds));
    }
    assert_eq!(cell.sector().luminosity(), Colour::zero());
    // the lower bound is inside, the upper bound is not
    assert_eq!(cell.add_body(Body { position: splat(0.0), colour: c }), Ok(()));
}

#[test]
fn luminosity_is_conserved() {
    let mut cell = Cell::new(splat(0.0), splat(8.0), Colour::zero());
    let mut sum = (0u128, 0u128, 0u128);
    for i in 0..50u128 {
        let p = vec((i % 8) as f64 + 0.5, ((i / 8) % 8) as f64 + 0.25, (i % 5) as f64 + 0.125);
        let c = Colour::new(i, 2 * i + 1, 3);
        sum = (sum.0 + c.r, sum.1 + c.g, sum.2 + c.b);
        assert_eq!(cell.add_body(Body { position: p, colour: c }), Ok(()));
    }
    assert_eq!(cell.sector().luminosity(), Colour::new(sum.0, sum.1, sum.2));
}

#[test]
fn luminosity_saturates() {
    let mut cell = Cell::new(splat(0.0), splat(8.0), Colour::zero());
    let big = Colour::new(u128::MAX - 1, 5, 0);
    assert_eq!(cell.add_body(Body { position: splat(1.0), colour: big }), Ok(()));
    assert_eq!(cell.add_body(Body { position: splat(2.0), colour: big }), Ok(()));
    assert_eq!(cell.sector().luminosity(), Colour::new(u128::MAX, 10, 0));
}

#[test]
fn end_to_end_scenario() {
    let mut cell = Cell::new(splat(0.0), splat(8.0), Colour::zero());
    let bodies = [
        (vec(1.0, 1.0, 1.0), Colour::new(1, 0, 0)),
        (vec(5.0, 5.0, 5.0), Colour::new(0, 1, 0)),
        (vec(7.0, 1.0, 1.0), Colour::new(0, 0, 1)),
    ];
    for (position, colour) in bodies {
        assert_eq!(cell.add_body(Body { position, colour }), Ok(()));
    }
    let visible = cell.all_visible_from(splat(0.0), ONE_FOV, &never);
    let mut sum = (0, 0, 0);
    let mut count = 0;
    for batch in &visible {
        for light in &batch.bodies {
            assert!(light.is_body);
            sum = (sum.0 + light.colour.r, sum.1 + light.colour.g, sum.2 + light.colour.b);
            count += 1;
        }
    }
    assert_eq!(count, 3);
    assert_eq!(sum, (1, 1, 1));
}

#[test]
fn faint_region_is_pruned_and_dark_region_is_empty() {
    let mut cell = Cell::new(splat(0.0), splat(1.0), Colour::zero());
    // nothing to see, even from inside
    assert!(cell.all_visible_from(splat(0.5), ONE_FOV, &never).is_empty());
    assert_eq!(cell.add_body(Body { position: splat(0.5), colour: Colour::new(1, 1, 1) }), Ok(()));
    // from far away one unit of light is culled
    assert!(cell.all_visible_from(splat(1000.0), ONE_FOV, &never).is_empty());
    // from inside it is seen
    assert_eq!(total_points(&cell.all_visible_from(splat(0.5), ONE_FOV, &never)), 1);
}

#[test]
fn region_seen_only_in_aggregate_becomes_one_light() {
    let mut cell = Cell::new(splat(0.0), splat(8.0), Colour::zero());
    assert_eq!(cell.add_body(Body { position: splat(1.0), colour: Colour::new(1000, 0, 0) }), Ok(()));
    // 1000 units of light pass up to a distance of 5049 units: the region,
    // whose distance is taken 8 units (its extent) short, passes, and the
    // body alone does not
    let visible = cell.all_visible_from(vec(5055.0, 4.0, 4.0), ONE_FOV, &never);
    assert_eq!(visible.len(), 1);
    assert_eq!(visible[0].bodies.len(), 1);
    let light = visible[0].bodies[0];
    assert!(!light.is_body);
    assert_eq!(light.position, splat(4.0));
    assert_eq!(light.diameter, f(8.0));
    assert_eq!(light.colour, Colour::new(1000, 0, 0));
    assert_eq!(visible[0].centre, splat(4.0));
    assert_eq!(visible[0].depth, 0);
}

#[test]
fn larger_fov_factor_never_shows_more() {
    let mut cell = Cell::new(splat(0.0), splat(64.0), Colour::zero());
    for i in 0..40u128 {
        let p = vec((i % 7) as f64 * 9.0 + 0.5, (i % 5) as f64 * 12.0 + 0.5, (i % 3) as f64 * 20.0 + 0.5);
        assert_eq!(cell.add_body(Body { position: p, colour: Colour::new(i + 1, 0, 0) }), Ok(()));
    }
    let eye = vec(200.0, 30.0, 30.0);
    let mut last = usize::MAX;
    for fov in [0, 1 << 20, 1 << 30, 1 << 32, 1 << 36, 1 << 40, 1 << 48, 1 << 56] {
        let n = total_points(&cell.all_visible_from(eye, fov, &never));
        assert!(n <= last);
        last = n;
    }
    assert_eq!(last, 0);
}

fn merge_scenario(n: u64) -> Vec<CellVisibility> {
    let mut cell = Cell::new(splat(0.0), splat(64.0), Colour::zero());
    for i in 0..n {
        let p = vec((i % 32) as f64 * 0.5 + 0.25, ((i / 32) % 32) as f64 * 0.5 + 0.25, (i / 1024) as f64 * 0.5 + 0.25);
        assert_eq!(cell.add_body(Body { position: p, colour: Colour::new(1_000_000, 0, 0) }), Ok(()));
    }
    cell.all_visible_from(splat(8.0), ONE_FOV, &never)
}

#[test]
fn merge_threshold_boundary() {
    let below = merge_scenario(MESH_COMBINE_THRESHOLD as u64 - 1);
    assert_eq!(total_points(&below), MESH_COMBINE_THRESHOLD - 1);
    assert_eq!(below.len(), 1);
    assert_eq!(below[0].depth, 0);

    let at = merge_scenario(MESH_COMBINE_THRESHOLD as u64);
    assert_eq!(total_points(&at), MESH_COMBINE_THRESHOLD);
    assert!(at.len() >= 2);
    let last = at.last().unwrap();
    assert_eq!(last.depth, 0);
    assert_eq!(last.bodies.len(), 0);
}

#[test]
fn unloaded_region_is_generated_once() {
    let mut cell = Cell::new(splat(0.0), splat(8.0), Colour::new(80, 80, 80));
    let id = id_push(ID_ROOT, Octant::PxPyPz);
    cell.children[7] = Node::Unloaded(id);
    let calls = Counter::new(0);
    let seen = Counter::new(0u128);
    let generate = |gid: u128, bounds: (Vec3F, Vec3F), lum: Colour| {
        calls.set(calls.get() + 1);
        seen.set(gid);
        assert_eq!(bounds, (splat(4.0), splat(8.0)));
        assert_eq!(lum, Colour::new(10, 10, 10));
        Cell::with_depth(bounds.0, bounds.1, lum, 1, gid)
    };
    let eye = splat(1.0);
    cell.all_visible_from(eye, ONE_FOV, &generate);
    assert_eq!(calls.get(), 1);
    assert_eq!(seen.get(), id);
    assert!(matches!(&cell.children[7], Node::Cell(c) if c.sector().id() == id));
    cell.all_visible_from(eye, ONE_FOV, &generate);
    assert_eq!(calls.get(), 1);
    assert!(matches!(&cell.children[7], Node::Cell(c) if c.sector().id() == id));
}

#[test]
fn brightness_threshold_is_exact() {
    // one unit of light is seen while (1 + d)^2 < 25500, that is up to d = 158
    let mut cell = Cell::new(splat(0.0), splat(1024.0), Colour::zero());
    assert_eq!(cell.add_body(Body { position: splat(0.5), colour: Colour::new(0, 1, 0) }), Ok(()));
    let near = cell.all_visible_from(vec(158.5, 0.5, 0.5), ONE_FOV, &never);
    assert_eq!(total_points(&near), 1);
    assert!(near[0].bodies[0].is_body);
    let far = cell.all_visible_from(vec(159.5, 0.5, 0.5), ONE_FOV, &never);
    assert_eq!(total_points(&far), 1);
    assert!(!far[0].bodies[0].is_body);
    // doubling the field-of-view factor halves the threshold: 112^2 < 12750 < 113^2
    let strict = cell.all_visible_from(vec(111.5, 0.5, 0.5), 2 * ONE_FOV, &never);
    assert!(strict[0].bodies[0].is_body);
    let strict = cell.all_visible_from(vec(112.5, 0.5, 0.5), 2 * ONE_FOV, &never);
    assert!(!strict[0].bodies[0].is_body);
}

#[test]
fn bright_bodies_are_seen_from_far_away() {
    let half = 1.0e20;
    let mut cell = Cell::new(splat(-half), splat(half), Colour::zero());
    let sun_like = Colour::new(10_u128.pow(34), 10_u128.pow(34), 10_u128.pow(33));
    assert_eq!(cell.add_body(Body { position: splat(0.0), colour: sun_like }), Ok(()));
    assert_eq!(cell.add_body(Body { position: vec(3.0e16, 0.0, 0.0), colour: sun_like }), Ok(()));
    // about one parsec away: (1 + 3e16)^2 = 9e32 < 1e34 * 25500
    let visible = cell.all_visible_from(splat(0.0), ONE_FOV, &never);
    assert_eq!(total_points(&visible), 2);
    assert!(visible.iter().all(|b| b.bodies.iter().all(|l| l.is_body)));
}

#[test]
fn inner_regions_hold_the_light_of_their_bodies() {
    let mut cell = Cell::new(splat(0.0), splat(8.0), Colour::zero());
    assert_eq!(cell.add_body(Body { position: splat(1.0), colour: Colour::new(1, 0, 0) }), Ok(()));
    match &cell.children[0] {
        Node::Leaf(l) => {
            assert_eq!(l.children.len(), 1);
            assert_eq!(l.sector.luminosity(), Colour::new(1, 0, 0));
        },
        _ => panic!("a single body stays in a leaf"),
    }
    assert_eq!(cell.add_body(Body { position: splat(1.5), colour: Colour::new(0, 2, 0) }), Ok(()));
    match &cell.children[0] {
        Node::Cell(c) => {
            assert_eq!(c.sector().luminosity(), Colour::new(1, 2, 0));
            assert_eq!(c.sector().id(), id_push(ID_ROOT, Octant::NxNyNz));
            assert_eq!(c.sector().depth, 1);
        },
        _ => panic!("a second body subdivides the leaf"),
    }
    for i in 1..8 {
        assert!(matches!(&cell.children[i], Node::Leaf(l) if l.children.is_empty()));
    }
    assert_eq!(cell.sector().luminosity(), Colour::new(1, 2, 0));
}
