//! The octree of bodies: insertion with subdivision.
use vstd::prelude::*;
use vstd::multiset::Multiset;
use crate::fp::Vec3F;
use crate::sector::{sat, Colour, ID_ROOT, MAX_DEPTH, Octant, Sector, in_domain, le3, lemma_child_contains, pow8};

verus! {

broadcast use vstd::seq_lib::group_to_multiset_ensures, vstd::multiset::lemma_multiset_empty_len;

/// A point light source held by the tree.
#[derive(Clone, Copy, Debug, PartialEq, Eq, Structural, Hash)]
pub struct Body {
    pub position: Vec3F,
    pub colour: Colour,
}

/// Why a body could not be inserted.
#[derive(Clone, Copy, Debug, PartialEq, Eq, Structural, Hash)]
pub enum InsertError {
    /// The position lies outside the cell's half-open bounds.
    OutOfBounds,
}

/// A terminal node holding its bodies directly.
#[derive(Debug)]
pub struct Leaf {
    pub sector: Sector,
    pub children: Vec<Body>,
}

/// A child of a cell.
#[derive(Debug)]
pub enum Node {
    Cell(Box<Cell>),
    Leaf(Leaf),
    /// A region with this id whose contents have not been generated yet.
    Unloaded(u128),
}

/// An internal node with one child per octant, indexed by octant code.
#[derive(Debug)]
pub struct Cell {
    pub sector: Sector,
    pub children: [Node; 8],
}

impl Leaf {
    pub open spec fn wf(self) -> bool {
        &&& self.sector.wf()
        &&& forall|k: int| 0 <= k < self.children@.len() ==> self.sector.contains(#[trigger] self.children@[k].position)
    }
}

/// The node may stand in octant `o` of a cell with sector `parent`.
pub open spec fn fits_under(n: Node, parent: Sector, o: Octant) -> bool {
    match n {
        Node::Cell(c) => c.sector == parent.child(o, c.sector.luminosity),
        Node::Leaf(l) => l.sector == parent.child(o, l.sector.luminosity),
        Node::Unloaded(id) => id == parent.id * 8 + o.code() && parent.depth + 1 < MAX_DEPTH,
    }
}

impl Cell {
    pub open spec fn below(self, c: Cell) -> bool {
        c.sector.depth == self.sector.depth + 1 && self.sector.depth < MAX_DEPTH
    }

    /// The structural invariant: every child's region is the matching child
    /// region of this cell, and every body lies in its leaf's bounds.
    pub open spec fn wf(self) -> bool
        decreases MAX_DEPTH - self.sector.depth,
    {
        &&& self.sector.wf()
        &&& self.sector.depth < MAX_DEPTH
        &&& forall|i: int|
            0 <= i < 8 ==> {
                &&& fits_under(#[trigger] self.children[i], self.sector, Octant::of_code(i as nat))
                &&& match self.children[i] {
                    Node::Cell(c) => self.below(*c) && c.wf(),
                    Node::Leaf(l) => l.wf(),
                    Node::Unloaded(_) => true,
                }
            }
    }

    /// No region below this cell is unloaded.
    pub open spec fn loaded(self) -> bool
        decreases MAX_DEPTH - self.sector.depth,
    {
        forall|i: int|
            0 <= i < 8 ==> match #[trigger] self.children[i] {
                Node::Cell(c) => self.below(*c) && c.loaded(),
                Node::Leaf(_) => true,
                Node::Unloaded(_) => false,
            }
    }

    /// The bodies held in child `i`.
    pub open spec fn child_bodies(self, i: int) -> Multiset<Body>
        decreases MAX_DEPTH - self.sector.depth, 0int, 0int,
    {
        match self.children[i] {
            Node::Cell(c) => if self.below(*c) {
                c.bodies()
            } else {
                Multiset::empty()
            },
            Node::Leaf(l) => l.children@.to_multiset(),
            Node::Unloaded(_) => Multiset::empty(),
        }
    }

    /// The bodies held in the first `k` children.
    pub open spec fn children_bodies(self, k: int) -> Multiset<Body>
        decreases MAX_DEPTH - self.sector.depth, 1int, k,
    {
        if k <= 0 {
            Multiset::empty()
        } else {
            self.children_bodies(k - 1).add(self.child_bodies(k - 1))
        }
    }

    /// Every body held below this cell.
    pub open spec fn bodies(self) -> Multiset<Body>
        decreases MAX_DEPTH - self.sector.depth, 2int, 0int,
    {
        self.children_bodies(8)
    }

    /// The sum of channel `ch` of the colours of the bodies in child `i`.
    pub open spec fn child_total(self, i: int, ch: int) -> int
        decreases MAX_DEPTH - self.sector.depth, 0int, 0int,
    {
        match self.children[i] {
            Node::Cell(c) => if self.below(*c) {
                c.total(ch)
            } else {
                0
            },
            Node::Leaf(l) => channel_sum(l.children@, ch),
            Node::Unloaded(_) => 0,
        }
    }

    /// The sum of channel `ch` over the first `k` children.
    pub open spec fn children_total(self, k: int, ch: int) -> int
        decreases MAX_DEPTH - self.sector.depth, 1int, k,
    {
        if k <= 0 {
            0
        } else {
            self.children_total(k - 1, ch) + self.child_total(k - 1, ch)
        }
    }

    /// The sum of channel `ch` of the colours of every body below this cell.
    pub open spec fn total(self, ch: int) -> int
        decreases MAX_DEPTH - self.sector.depth, 2int, 0int,
    {
        self.children_total(8, ch)
    }

    /// The luminosity of every region below this cell, this cell's included,
    /// is the sum of the colours of the bodies beneath it, each channel
    /// capped at `u128::MAX`.
    pub open spec fn summed(self) -> bool
        decreases MAX_DEPTH - self.sector.depth,
    {
        &&& sums_to(self.sector.luminosity, self.total(0), self.total(1), self.total(2))
        &&& forall|i: int|
            0 <= i < 8 ==> match #[trigger] self.children[i] {
                Node::Cell(c) => self.below(*c) && c.summed(),
                Node::Leaf(l) => l.summed(),
                Node::Unloaded(_) => true,
            }
    }

    /// `new` is this cell after inserting `b`: the body went down the child
    /// of its octant; a child cell took it in the same way; a leaf holding
    /// bodies above the deepest level became a cell over the same region
    /// with its bodies and then `b`; any other leaf had `b` appended and its
    /// luminosity raised by `b`'s colour. Every region on the way gained
    /// `b`'s colour.
    pub open spec fn placed(self, new: Cell, b: Body) -> bool
        decreases MAX_DEPTH - self.sector.depth,
    {
        let i = self.sector.octant_of(b.position).code() as int;
        &&& new.sector == self.sector.with_luminosity(self.sector.luminosity.plus(b.colour))
        &&& forall|j: int| 0 <= j < 8 && j != i ==> #[trigger] new.children[j] == self.children[j]
        &&& match self.children[i] {
            Node::Cell(oc) => new.children[i] is Cell && (self.below(*oc) ==> oc.placed(
                *new.children[i]->Cell_0,
                b,
            )),
            Node::Leaf(l) => leaf_placed(l, new.children[i], b),
            Node::Unloaded(_) => false,
        }
    }
}

/// `n` is what the leaf `l` became after `b` was inserted into it.
pub open spec fn leaf_placed(l: Leaf, n: Node, b: Body) -> bool {
    if l.children@.len() > 0 && l.sector.depth < MAX_DEPTH {
        &&& n is Cell
        &&& n->Cell_0.sector == l.sector.with_luminosity(n->Cell_0.sector.luminosity)
        &&& n->Cell_0.bodies() =~= l.children@.to_multiset().insert(b)
        &&& n->Cell_0.summed()
        &&& n->Cell_0.loaded()
    } else {
        &&& n is Leaf
        &&& n->Leaf_0.children@ == l.children@.push(b)
        &&& n->Leaf_0.sector == l.sector.with_luminosity(l.sector.luminosity.plus(b.colour))
    }
}

/// Each channel of `lum` is the matching sum, capped at `u128::MAX`.
pub open spec fn sums_to(lum: Colour, r: int, g: int, b: int) -> bool {
    lum.r == sat(r) && lum.g == sat(g) && lum.b == sat(b)
}

impl Leaf {
    /// The leaf's luminosity is the capped sum of its bodies' colours.
    pub open spec fn summed(self) -> bool {
        sums_to(
            self.sector.luminosity,
            channel_sum(self.children@, 0),
            channel_sum(self.children@, 1),
            channel_sum(self.children@, 2),
        )
    }
}

fn empty_leaf(parent: &Sector, o: Octant, lum: Colour) -> (n: Node)
    requires
        parent.wf(),
        parent.depth < MAX_DEPTH,
    ensures
        n == Node::Leaf(Leaf { sector: parent.child(o, lum), children: n->Leaf_0.children }),
        n->Leaf_0.children@.len() == 0,
        n->Leaf_0.wf(),
{
    Node::Leaf(Leaf { sector: parent.child_sector(o, lum), children: Vec::new() })
}

impl Cell {
    /// A cell over `[bound_min, bound_max)` with eight empty leaves, each
    /// starting from the same luminosity as the cell.
    pub fn with_depth(bound_min: Vec3F, bound_max: Vec3F, luminosity: Colour, depth: usize, id: u128) -> (c: Cell)
        requires
            le3(bound_min, bound_max),
            in_domain(bound_min),
            in_domain(bound_max),
            depth < MAX_DEPTH,
            7 * pow8(depth as nat) <= id < pow8((depth + 1) as nat),
        ensures
            c.wf(),
            c.loaded(),
            c.bodies() =~= Multiset::empty(),
            forall|ch: int| #[trigger] c.total(ch) == 0,
            luminosity == Colour::zero_spec() ==> c.summed(),
            c.sector.id == id,
            c.sector.min == bound_min,
            c.sector.max == bound_max,
            c.sector.luminosity == luminosity,
            c.sector.depth == depth,
            forall|i: int|
                0 <= i < 8 ==> #[trigger] c.children[i] is Leaf && c.children[i]->Leaf_0.children@.len() == 0
                    && c.children[i]->Leaf_0.sector == c.sector.child(Octant::of_code(i as nat), luminosity),
    {
        let s = Sector::with_depth(id, bound_min, bound_max, luminosity, depth);
        let children = [
            empty_leaf(&s, Octant::NxNyNz, luminosity),
            empty_leaf(&s, Octant::NxNyPz, luminosity),
            empty_leaf(&s, Octant::NxPyNz, luminosity),
            empty_leaf(&s, Octant::NxPyPz, luminosity),
            empty_leaf(&s, Octant::PxNyNz, luminosity),
            empty_leaf(&s, Octant::PxNyPz, luminosity),
            empty_leaf(&s, Octant::PxPyNz, luminosity),
            empty_leaf(&s, Octant::PxPyPz, luminosity),
        ];
        let c = Cell { sector: s, children };
        proof {
            assert forall|i: int| 0 <= i < 8 implies #[trigger] c.children[i] is Leaf
                && c.children[i]->Leaf_0.children@.len() == 0
                && fits_under(c.children[i], c.sector, Octant::of_code(i as nat))
                && c.children[i]->Leaf_0.wf() by {
            }
            assert(c.children_bodies(8) =~= Multiset::empty()) by {
                reveal_with_fuel(Cell::children_bodies, 9);
                assert(c.children[0]->Leaf_0.children@.to_multiset() =~= Multiset::empty());
                assert(c.children[1]->Leaf_0.children@.to_multiset() =~= Multiset::empty());
                assert(c.children[2]->Leaf_0.children@.to_multiset() =~= Multiset::empty());
                assert(c.children[3]->Leaf_0.children@.to_multiset() =~= Multiset::empty());
                assert(c.children[4]->Leaf_0.children@.to_multiset() =~= Multiset::empty());
                assert(c.children[5]->Leaf_0.children@.to_multiset() =~= Multiset::empty());
                assert(c.children[6]->Leaf_0.children@.to_multiset() =~= Multiset::empty());
                assert(c.children[7]->Leaf_0.children@.to_multiset() =~= Multiset::empty());
            }
            assert forall|ch: int| #[trigger] c.total(ch) == 0 by {
                assert forall|i: int| 0 <= i < 8 implies #[trigger] c.child_total(i, ch) == 0 by {
                    let l = c.children[i]->Leaf_0;
                    assert(l.children@.len() == 0);
                    assert(channel_sum(l.children@, ch) == 0);
                }
                assert(c.child_total(0, ch) == 0 && c.child_total(1, ch) == 0 && c.child_total(2, ch) == 0
                    && c.child_total(3, ch) == 0 && c.child_total(4, ch) == 0 && c.child_total(5, ch) == 0
                    && c.child_total(6, ch) == 0 && c.child_total(7, ch) == 0);
                reveal_with_fuel(Cell::children_total, 9);
                assert(c.total(ch) == c.children_total(8, ch));
            }
            if luminosity == Colour::zero_spec() {
                assert(c.total(0) == 0 && c.total(1) == 0 && c.total(2) == 0);
                assert forall|i: int| 0 <= i < 8 implies match #[trigger] c.children[i] {
                    Node::Cell(cc) => c.below(*cc) && cc.summed(),
                    Node::Leaf(l) => l.summed(),
                    Node::Unloaded(_) => true,
                } by {
                    assert(c.children[i]->Leaf_0.children@.len() == 0);
                }
            }
        }
        c
    }

    /// The root cell over `[bound_min, bound_max)`.
    pub fn new(bound_min: Vec3F, bound_max: Vec3F, luminosity: Colour) -> (c: Cell)
        requires
            le3(bound_min, bound_max),
            in_domain(bound_min),
            in_domain(bound_max),
        ensures
            c.wf(),
            c.loaded(),
            c.bodies() =~= Multiset::empty(),
            luminosity == Colour::zero_spec() ==> c.summed(),
            c.sector.id == ID_ROOT,
            c.sector.min == bound_min,
            c.sector.max == bound_max,
            c.sector.luminosity == luminosity,
            c.sector.depth == 0,
            forall|i: int|
                0 <= i < 8 ==> #[trigger] c.children[i] is Leaf && c.children[i]->Leaf_0.children@.len() == 0
                    && c.children[i]->Leaf_0.sector == c.sector.child(Octant::of_code(i as nat), luminosity),
    {
        assert(pow8(1) == 8 * pow8(0));
        assert(pow8(0) == 1);
        Cell::with_depth(bound_min, bound_max, luminosity, 0, ID_ROOT)
    }

    pub fn sector(&self) -> (r: &Sector)
        ensures
            *r == self.sector,
    {
        &self.sector
    }
}

/// Changing one child of a cell changes the bodies of the children around it
/// by what that child gained.
proof fn lemma_children_bodies_update(c: Cell, c2: Cell, i: int, b: Body, k: int)
    requires
        0 <= i < 8,
        c2.sector.depth == c.sector.depth,
        forall|j: int| 0 <= j < 8 && j != i ==> c2.children[j] == c.children[j],
        c2.child_bodies(i) == c.child_bodies(i).insert(b),
        0 <= k <= 8,
    ensures
        k <= i ==> c2.children_bodies(k) == c.children_bodies(k),
        k > i ==> c2.children_bodies(k) =~= c.children_bodies(k).insert(b),
    decreases k,
{
    if k > 0 {
        lemma_children_bodies_update(c, c2, i, b, k - 1);
        if k - 1 != i {
            assert(c2.child_bodies(k - 1) == c.child_bodies(k - 1));
        }
    }
}

/// Changing one child of a cell changes the sums over the children around it
/// by what that child gained.
proof fn lemma_children_total_update(c: Cell, c2: Cell, i: int, ch: int, add: int, k: int)
    requires
        0 <= i < 8,
        c2.sector.depth == c.sector.depth,
        forall|j: int| 0 <= j < 8 && j != i ==> c2.children[j] == c.children[j],
        c2.child_total(i, ch) == c.child_total(i, ch) + add,
        0 <= k <= 8,
    ensures
        k <= i ==> c2.children_total(k, ch) == c.children_total(k, ch),
        k > i ==> c2.children_total(k, ch) == c.children_total(k, ch) + add,
    decreases k,
{
    if k > 0 {
        lemma_children_total_update(c, c2, i, ch, add, k - 1);
        if k - 1 != i {
            assert(c2.child_total(k - 1, ch) == c.child_total(k - 1, ch));
        }
    }
}

proof fn lemma_insert_error_cases(r: Result<(), InsertError>)
    ensures
        r is Ok || r == Err::<(), InsertError>(InsertError::OutOfBounds),
{
    match r {
        Ok(_) => {},
        Err(e) => {
            assert(e == InsertError::OutOfBounds);
        },
    }
}

/// Adding to a capped sum and capping again is capping the full sum.
proof fn lemma_sat_add(x: int, c: int)
    requires
        c >= 0,
    ensures
        sat(sat(x) + c) == sat(x + c),
{
}

proof fn lemma_plus_sums(lum: Colour, col: Colour, r: int, g: int, b: int)
    requires
        sums_to(lum, r, g, b),
    ensures
        sums_to(lum.plus(col), r + col.r, g + col.g, b + col.b),
{
    lemma_sat_add(r, col.r as int);
    lemma_sat_add(g, col.g as int);
    lemma_sat_add(b, col.b as int);
}

proof fn lemma_channel_sum_push(s: Seq<Body>, b: Body, ch: int)
    ensures
        channel_sum(s.push(b), ch) == channel_sum(s, ch) + channel(b.colour, ch),
{
    assert(s.push(b).drop_last() =~= s);
}

impl Cell {
    /// The cell that replaces a full leaf: the same region, starting from no
    /// luminosity, with the leaf's bodies inserted again one by one.
    fn from_leaf(leaf: &Leaf) -> (c: Cell)
        requires
            leaf.wf(),
            leaf.sector.depth < MAX_DEPTH,
        ensures
            c.wf(),
            c.loaded(),
            c.summed(),
            c.sector == leaf.sector.with_luminosity(c.sector.luminosity),
            c.bodies() =~= leaf.children@.to_multiset(),
            forall|ch: int| #[trigger] c.total(ch) == channel_sum(leaf.children@, ch),
            sums_to(
                c.sector.luminosity,
                channel_sum(leaf.children@, 0),
                channel_sum(leaf.children@, 1),
                channel_sum(leaf.children@, 2),
            ),
        decreases MAX_DEPTH - leaf.sector.depth, 1int,
    {
        let s = leaf.sector;
        let mut c = Cell::with_depth(s.min, s.max, Colour::zero(), s.depth, s.id);
        let mut k: usize = 0;
        while k < leaf.children.len()
            invariant
                leaf.wf(),
                s == leaf.sector,
                k <= leaf.children@.len(),
                c.wf(),
                c.loaded(),
                c.summed(),
                c.sector == s.with_luminosity(c.sector.luminosity),
                c.sector.depth == leaf.sector.depth,
                c.bodies() =~= leaf.children@.take(k as int).to_multiset(),
                forall|ch: int| #[trigger] c.total(ch) == channel_sum(leaf.children@.take(k as int), ch),
            decreases leaf.children@.len() - k,
        {
            let b = leaf.children[k];
            let ghost c_before = c;
            proof {
                assert(b == leaf.children@[k as int]);
                assert(s.contains(b.position));
                assert(c.sector.contains(b.position));
                assert(leaf.children@.take(k + 1) =~= leaf.children@.take(k as int).push(b));
            }
            let r = c.add_body(b);
            proof {
                lemma_insert_error_cases(r);
                assert forall|ch: int| #[trigger] c.total(ch) == channel_sum(leaf.children@.take(k + 1), ch) by {
                    lemma_channel_sum_push(leaf.children@.take(k as int), b, ch);
                    assert(c.total(ch) == c_before.total(ch) + channel(b.colour, ch));
                }
            }
            k = k + 1;
        }
        assert(leaf.children@.take(k as int) =~= leaf.children@);
        assert(c.total(0) == channel_sum(leaf.children@, 0));
        assert(c.total(1) == channel_sum(leaf.children@, 1));
        assert(c.total(2) == channel_sum(leaf.children@, 2));
        c
    }

    /// Adds a body below this cell, which must hold no unloaded region. The
    /// body's colour is added to the luminosity of every region on its path;
    /// a leaf that already holds bodies above the deepest level is first
    /// subdivided into a cell.
    pub fn add_body(&mut self, body: Body) -> (r: Result<(), InsertError>)
        requires
            old(self).wf(),
            old(self).loaded(),
        ensures
            final(self).wf(),
            final(self).loaded(),
            old(self).summed() ==> final(self).summed(),
            r is Err <==> !old(self).sector.contains(body.position),
            r is Err ==> r == Err::<(), InsertError>(InsertError::OutOfBounds) && *final(self) == *old(self),
            r is Ok ==> old(self).placed(*final(self), body),
            r is Ok ==> final(self).sector == old(self).sector.with_luminosity(
                old(self).sector.luminosity.plus(body.colour),
            ),
            r is Ok ==> final(self).bodies() =~= old(self).bodies().insert(body),
            r is Ok ==> forall|ch: int| #[trigger] final(self).total(ch) == old(self).total(ch) + channel(body.colour, ch),
        decreases MAX_DEPTH - old(self).sector.depth, 0int,
    {
        let o = match self.sector.octant(body.position) {
            Some(o) => o,
            None => return Err(InsertError::OutOfBounds),
        };
        let i = o.index();
        proof {
            assert(o.code() < 8);
            lemma_child_contains(self.sector, body.position, self.sector.luminosity);
        }
        let ghost c0 = *self;
        let mut child = Node::Unloaded(0);
        std::mem::swap(&mut self.children[i], &mut child);
        assert(child == c0.children[i as int]);
        let node = insert_into(child, body, Ghost(self.sector), Ghost(o));
        self.children[i] = node;
        self.sector.luminosity = self.sector.luminosity.add(body.colour);
        proof {
            let c1 = *self;
            assert forall|j: int| 0 <= j < 8 && j != i implies c1.children[j] == c0.children[j] by {}
            assert forall|j: int| 0 <= j < 8 && j != i implies #[trigger] c1.children[j] == c0.children[j] by {}
            assert(c1.child_bodies(i as int) == node_bodies(node, c0.sector.depth));
            assert(c0.child_bodies(i as int) == node_bodies(c0.children[i as int], c0.sector.depth));
            lemma_children_bodies_update(c0, c1, i as int, body, 8);
            assert forall|ch: int| #[trigger] c1.total(ch) == c0.total(ch) + channel(body.colour, ch) by {
                assert(c1.child_total(i as int, ch) == node_total(node, c0.sector.depth, ch));
                assert(c0.child_total(i as int, ch) == node_total(c0.children[i as int], c0.sector.depth, ch));
                lemma_children_total_update(c0, c1, i as int, ch, channel(body.colour, ch), 8);
            }
            if c0.summed() {
                lemma_plus_sums(c0.sector.luminosity, body.colour, c0.total(0), c0.total(1), c0.total(2));
                assert(c1.total(0) == c0.total(0) + body.colour.r);
                assert(c1.total(1) == c0.total(1) + body.colour.g);
                assert(c1.total(2) == c0.total(2) + body.colour.b);
                assert forall|j: int| 0 <= j < 8 implies match #[trigger] c1.children[j] {
                    Node::Cell(cc) => c1.below(*cc) && cc.summed(),
                    Node::Leaf(l) => l.summed(),
                    Node::Unloaded(_) => true,
                } by {
                    if j != i {
                        assert(c1.children[j] == c0.children[j]);
                    }
                }
            }
            assert(c0.sector.octant_of(body.position) == o);
        }
        Ok(())
    }
}

/// The node may stand in octant `o` of a well-formed cell with sector
/// `parent`, and is well formed itself.
pub open spec fn node_wf(n: Node, parent: Sector, o: Octant) -> bool {
    &&& fits_under(n, parent, o)
    &&& match n {
        Node::Cell(c) => c.sector.depth == parent.depth + 1 && parent.depth < MAX_DEPTH && c.wf(),
        Node::Leaf(l) => l.wf(),
        Node::Unloaded(_) => true,
    }
}

/// The bodies held in a child of a cell at depth `depth`.
pub open spec fn node_bodies(n: Node, depth: usize) -> Multiset<Body> {
    match n {
        Node::Cell(c) => if c.sector.depth == depth + 1 && depth < MAX_DEPTH {
            c.bodies()
        } else {
            Multiset::empty()
        },
        Node::Leaf(l) => l.children@.to_multiset(),
        Node::Unloaded(_) => Multiset::empty(),
    }
}

/// The sum of channel `ch` over a child of a cell at depth `depth`.
pub open spec fn node_total(n: Node, depth: usize, ch: int) -> int {
    match n {
        Node::Cell(c) => if c.sector.depth == depth + 1 && depth < MAX_DEPTH {
            c.total(ch)
        } else {
            0
        },
        Node::Leaf(l) => channel_sum(l.children@, ch),
        Node::Unloaded(_) => 0,
    }
}

pub open spec fn node_loaded(n: Node, depth: usize) -> bool {
    match n {
        Node::Cell(c) => c.sector.depth == depth + 1 && depth < MAX_DEPTH && c.loaded(),
        Node::Leaf(_) => true,
        Node::Unloaded(_) => false,
    }
}

pub open spec fn node_summed(n: Node, depth: usize) -> bool {
    match n {
        Node::Cell(c) => c.sector.depth == depth + 1 && depth < MAX_DEPTH && c.summed(),
        Node::Leaf(l) => l.summed(),
        Node::Unloaded(_) => true,
    }
}

/// `new` is the child node `old` after `b` was inserted into it.
pub open spec fn node_placed(old: Node, new: Node, b: Body, depth: usize) -> bool {
    match old {
        Node::Cell(oc) => new is Cell && (oc.sector.depth == depth + 1 && depth < MAX_DEPTH ==> oc.placed(
            *new->Cell_0,
            b,
        )),
        Node::Leaf(l) => leaf_placed(l, new, b),
        Node::Unloaded(_) => false,
    }
}

/// Inserts a body into a loaded child node of a cell, returning the node that
/// takes its place.
fn insert_into(child: Node, body: Body, Ghost(parent): Ghost<Sector>, Ghost(o): Ghost<Octant>) -> (res: Node)
    requires
        parent.wf(),
        parent.depth < MAX_DEPTH,
        node_wf(child, parent, o),
        node_loaded(child, parent.depth),
        parent.child(o, parent.luminosity).contains(body.position),
    ensures
        node_wf(res, parent, o),
        node_loaded(res, parent.depth),
        node_summed(child, parent.depth) ==> node_summed(res, parent.depth),
        node_placed(child, res, body, parent.depth),
        node_bodies(res, parent.depth) =~= node_bodies(child, parent.depth).insert(body),
        forall|ch: int| #[trigger] node_total(res, parent.depth, ch) == node_total(child, parent.depth, ch) + channel(body.colour, ch),
    decreases MAX_DEPTH - parent.depth - 1, 2int,
{
    match child {
        Node::Cell(b) => {
            let mut cc = *b;
            assert(cc.sector.contains(body.position));
            let r = cc.add_body(body);
            proof {
                lemma_insert_error_cases(r);
            }
            Node::Cell(Box::new(cc))
        },
        Node::Leaf(mut leaf) => {
            if leaf.children.len() > 0 && leaf.sector.depth < MAX_DEPTH {
                let mut cc = Cell::from_leaf(&leaf);
                let ghost c_before = cc;
                proof {
                    assert(cc.sector.contains(body.position));
                }
                let r = cc.add_body(body);
                proof {
                    lemma_insert_error_cases(r);
                    assert forall|ch: int| #[trigger] node_total(Node::Cell(Box::new(cc)), parent.depth, ch)
                        == node_total(Node::Leaf(leaf), parent.depth, ch) + channel(body.colour, ch) by {
                        assert(cc.total(ch) == c_before.total(ch) + channel(body.colour, ch));
                    }
                }
                Node::Cell(Box::new(cc))
            } else {
                let ghost l0 = leaf;
                leaf.children.push(body);
                leaf.sector.luminosity = leaf.sector.luminosity.add(body.colour);
                proof {
                    assert forall|k: int| 0 <= k < leaf.children@.len() implies leaf.sector.contains(
                        #[trigger] leaf.children@[k].position,
                    ) by {
                        if k < l0.children@.len() {
                            assert(leaf.children@[k] == l0.children@[k]);
                        }
                    }
                    lemma_channel_sum_push(l0.children@, body, 0);
                    lemma_channel_sum_push(l0.children@, body, 1);
                    lemma_channel_sum_push(l0.children@, body, 2);
                    assert forall|ch: int| #[trigger] channel_sum(leaf.children@, ch) == channel_sum(l0.children@, ch)
                        + channel(body.colour, ch) by {
                        lemma_channel_sum_push(l0.children@, body, ch);
                    }
                    if l0.summed() {
                        lemma_plus_sums(
                            l0.sector.luminosity,
                            body.colour,
                            channel_sum(l0.children@, 0),
                            channel_sum(l0.children@, 1),
                            channel_sum(l0.children@, 2),
                        );
                    }
                }
                Node::Leaf(leaf)
            }
        },
        Node::Unloaded(id) => Node::Unloaded(id),
    }
}

/// The sum of one channel of the bodies' colours.
pub open spec fn channel_sum(bodies: Seq<Body>, ch: int) -> int
    decreases bodies.len(),
{
    if bodies.len() == 0 {
        0
    } else {
        channel_sum(bodies.drop_last(), ch) + channel(bodies.last().colour, ch)
    }
}

pub open spec fn channel(c: Colour, ch: int) -> int {
    if ch == 0 {
        c.r as int
    } else if ch == 1 {
        c.g as int
    } else {
        c.b as int
    }
}

/// One successful insertion of `body` took the tree from `before` to `after`.
pub open spec fn inserted(before: Cell, body: Body, after: Cell) -> bool {
    &&& after.sector == before.sector.with_luminosity(before.sector.luminosity.plus(body.colour))
    &&& after.bodies() =~= before.bodies().insert(body)
}

/// Inserting bodies one after another, in any order, adds each body's colour
/// to the root's luminosity: each channel ends at its starting value plus the
/// sum of that channel over the bodies, capped at `u128::MAX`; and the tree
/// holds exactly the bodies it held before together with the inserted ones.
pub proof fn lemma_luminosity_conservation(states: Seq<Cell>, bodies: Seq<Body>)
    requires
        states.len() == bodies.len() + 1,
        forall|i: int| 0 <= i < bodies.len() ==> inserted(#[trigger] states[i], bodies[i], states[i + 1]),
    ensures
        forall|ch: int|
            0 <= ch < 3 ==> channel(states.last().sector.luminosity, ch) == sat(
                channel(states[0].sector.luminosity, ch) + #[trigger] channel_sum(bodies, ch),
            ),
        states.last().bodies() =~= states[0].bodies().add(bodies.to_multiset()),
    decreases bodies.len(),
{
    if bodies.len() > 0 {
        let n = bodies.len() - 1;
        let s2 = states.drop_last();
        let b2 = bodies.drop_last();
        assert forall|i: int| 0 <= i < b2.len() implies inserted(#[trigger] s2[i], b2[i], s2[i + 1]) by {
            assert(inserted(states[i], bodies[i], states[i + 1]));
        }
        lemma_luminosity_conservation(s2, b2);
        assert(inserted(states[n], bodies[n], states[n + 1]));
        assert(bodies =~= b2.push(bodies.last()));
        assert forall|ch: int| 0 <= ch < 3 implies channel(states.last().sector.luminosity, ch) == sat(
            channel(states[0].sector.luminosity, ch) + #[trigger] channel_sum(bodies, ch),
        ) by {
            assert(channel(s2.last().sector.luminosity, ch) == sat(
                channel(states[0].sector.luminosity, ch) + channel_sum(b2, ch),
            ));
            assert(channel_sum(b2, ch) >= 0) by {
                lemma_channel_sum_nonneg(b2, ch);
            }
        }
    }
}

proof fn lemma_channel_sum_nonneg(bodies: Seq<Body>, ch: int)
    ensures
        channel_sum(bodies, ch) >= 0,
    decreases bodies.len(),
{
    if bodies.len() > 0 {
        lemma_channel_sum_nonneg(bodies.drop_last(), ch);
    }
}

} // verus!
