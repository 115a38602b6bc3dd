//! A region quadtree over integer points: the spatial index used for
//! neighbour discovery.
//!
//! Every node owns a rectangular boundary that never changes, up to
//! `capacity` entries, and, once subdivided, four child nodes covering the
//! boundary's quadrants. Coincident points could otherwise force unbounded
//! subdivision, so each node carries a remaining subdivision budget: a node
//! whose budget is spent never splits and instead grows past its capacity.

use vstd::prelude::*;
use vstd::arithmetic::div_mod::{lemma_div_is_ordered, lemma_div_multiples_vanish};

verus! {

use crate::settings::MAX_COORD;

/// How many times a fresh tree may subdivide along any one path.
pub const MAX_TREE_DEPTH: u32 = 16;

/// A point of the plane, in integer world units. The y axis grows upward.
#[derive(Clone, Copy, Debug, PartialEq, Eq, Structural)]
pub struct Point {
    pub x: i64,
    pub y: i64,
}

impl Point {
    pub fn new(x: i64, y: i64) -> (p: Point)
        ensures
            p.x == x,
            p.y == y,
    {
        Point { x, y }
    }

    /// Coordinate magnitudes small enough that squared distances fit an `i64`.
    pub open spec fn in_range(self) -> bool {
        &&& -MAX_COORD <= self.x <= MAX_COORD
        &&& -MAX_COORD <= self.y <= MAX_COORD
    }

    /// Squared Euclidean distance between two points.
    pub open spec fn spec_dist_sq(self, other: Point) -> int {
        (self.x - other.x) * (self.x - other.x) + (self.y - other.y) * (self.y - other.y)
    }

    /// Squared Euclidean distance. Distances are always compared squared, so
    /// the integer code never needs a square root.
    pub fn dist_sq(&self, other: &Point) -> (d: i64)
        requires
            self.in_range(),
            other.in_range(),
        ensures
            d == self.spec_dist_sq(*other),
            d >= 0,
    {
        let dx: i64 = self.x - other.x;
        let dy: i64 = self.y - other.y;
        proof {
            assert(0 <= dx * dx <= 4_000_000_000_000_000_000) by (nonlinear_arith)
                requires -2_000_000_000 <= dx <= 2_000_000_000;
            assert(0 <= dy * dy <= 4_000_000_000_000_000_000) by (nonlinear_arith)
                requires -2_000_000_000 <= dy <= 2_000_000_000;
        }
        dx * dx + dy * dy
    }
}

/// One stored pair: a point and the caller's value for it.
#[derive(Clone, Copy, Debug)]
pub struct Entry<V> {
    pub point: Point,
    pub value: V,
}

impl<V> Entry<V> {
    pub fn new(point: Point, value: V) -> (e: Entry<V>)
        ensures
            e.point == point,
            e.value == value,
    {
        Entry { point, value }
    }
}

/// An axis-aligned rectangle given by its top-left and bottom-right corners
/// (the y axis grows upward, so `top_left.y >= btm_right.y`). Both edges are
/// inclusive.
#[derive(Clone, Copy, Debug, PartialEq, Eq, Structural)]
pub struct Box2d {
    pub top_left: Point,
    pub btm_right: Point,
}

impl Box2d {
    /// A tree boundary: non-empty, and within the non-negative world range,
    /// so that midpoints agree with integer division.
    pub open spec fn wf(self) -> bool {
        &&& 0 <= self.top_left.x <= self.btm_right.x <= MAX_COORD
        &&& 0 <= self.btm_right.y <= self.top_left.y <= MAX_COORD
    }

    pub open spec fn spec_contains(self, p: Point) -> bool {
        &&& self.top_left.x <= p.x <= self.btm_right.x
        &&& self.btm_right.y <= p.y <= self.top_left.y
    }

    pub open spec fn spec_intersects(self, other: Box2d) -> bool {
        &&& self.btm_right.x >= other.top_left.x
        &&& self.top_left.x <= other.btm_right.x
        &&& self.btm_right.y <= other.top_left.y
        &&& self.top_left.y >= other.btm_right.y
    }

    pub open spec fn mid_x(self) -> int {
        (self.top_left.x + self.btm_right.x) / 2
    }

    pub open spec fn mid_y(self) -> int {
        (self.btm_right.y + self.top_left.y) / 2
    }

    /// North-west quadrant.
    pub open spec fn spec_nw(self) -> Box2d {
        Box2d {
            top_left: self.top_left,
            btm_right: Point { x: self.mid_x() as i64, y: self.mid_y() as i64 },
        }
    }

    /// North-east quadrant.
    pub open spec fn spec_ne(self) -> Box2d {
        Box2d {
            top_left: Point { x: self.mid_x() as i64, y: self.top_left.y },
            btm_right: Point { x: self.btm_right.x, y: self.mid_y() as i64 },
        }
    }

    /// South-east quadrant.
    pub open spec fn spec_se(self) -> Box2d {
        Box2d {
            top_left: Point { x: self.mid_x() as i64, y: self.mid_y() as i64 },
            btm_right: self.btm_right,
        }
    }

    /// South-west quadrant.
    pub open spec fn spec_sw(self) -> Box2d {
        Box2d {
            top_left: Point { x: self.top_left.x, y: self.mid_y() as i64 },
            btm_right: Point { x: self.mid_x() as i64, y: self.btm_right.y },
        }
    }

    pub fn new(top_left: Point, btm_right: Point) -> (b: Box2d)
        ensures
            b.top_left == top_left,
            b.btm_right == btm_right,
    {
        Box2d { top_left, btm_right }
    }

    pub fn contains(&self, point: &Point) -> (r: bool)
        ensures
            r == self.spec_contains(*point),
    {
        (point.x >= self.top_left.x && point.x <= self.btm_right.x)
            && (point.y >= self.btm_right.y && point.y <= self.top_left.y)
    }

    pub fn intersects_box(&self, other: &Box2d) -> (r: bool)
        ensures
            r == self.spec_intersects(*other),
    {
        (self.btm_right.x >= other.top_left.x)
            && (self.top_left.x <= other.btm_right.x)
            && (self.btm_right.y <= other.top_left.y)
            && (self.top_left.y >= other.btm_right.y)
    }

    /// The midpoints lie inside the box, so the four quadrants are themselves
    /// well formed and together cover the box.
    proof fn lemma_mid_in_box(self)
        requires
            self.wf(),
        ensures
            self.top_left.x <= self.mid_x() <= self.btm_right.x,
            self.btm_right.y <= self.mid_y() <= self.top_left.y,
    {
        lemma_mid_between(self.top_left.x as int, self.btm_right.x as int);
        lemma_mid_between(self.btm_right.y as int, self.top_left.y as int);
    }

    /// The four quadrants of a well-formed box are well formed.
    pub proof fn lemma_subdivide_wf(self)
        requires
            self.wf(),
        ensures
            self.spec_nw().wf(),
            self.spec_ne().wf(),
            self.spec_se().wf(),
            self.spec_sw().wf(),
    {
        self.lemma_mid_in_box();
    }

    /// A point lies in a well-formed box exactly when it lies in one of the
    /// box's four quadrants.
    pub proof fn lemma_subdivide_covers(self, p: Point)
        requires
            self.wf(),
        ensures
            self.spec_contains(p) <==> {
                ||| self.spec_nw().spec_contains(p)
                ||| self.spec_ne().spec_contains(p)
                ||| self.spec_se().spec_contains(p)
                ||| self.spec_sw().spec_contains(p)
            },
    {
        self.lemma_mid_in_box();
    }

    /// Subdivide the box into its four quadrants, in the order north-west,
    /// north-east, south-east, south-west.
    pub fn subdivide(&self) -> (quads: Vec<Box2d>)
        requires
            self.wf(),
        ensures
            quads@.len() == 4,
            quads@[0] == self.spec_nw(),
            quads@[1] == self.spec_ne(),
            quads@[2] == self.spec_se(),
            quads@[3] == self.spec_sw(),
    {
        proof {
            self.lemma_mid_in_box();
        }
        let xs: i64 = self.top_left.x + self.btm_right.x;
        let ys: i64 = self.btm_right.y + self.top_left.y;
        proof {
            assert(xs as u64 / 2 <= xs as u64) by (nonlinear_arith);
            assert(ys as u64 / 2 <= ys as u64) by (nonlinear_arith);
        }
        let x_midpoint: i64 = (xs as u64 / 2) as i64;
        let y_midpoint: i64 = (ys as u64 / 2) as i64;
        let top_left = self.top_left;
        let btm_right = self.btm_right;
        let mut quads: Vec<Box2d> = Vec::new();
        // North-west
        quads.push(Box2d::new(top_left, Point::new(x_midpoint, y_midpoint)));
        // North-east
        quads.push(Box2d::new(
            Point::new(x_midpoint, top_left.y),
            Point::new(btm_right.x, y_midpoint),
        ));
        // South-east
        quads.push(Box2d::new(Point::new(x_midpoint, y_midpoint), btm_right));
        // South-west
        quads.push(Box2d::new(
            Point::new(top_left.x, y_midpoint),
            Point::new(x_midpoint, btm_right.y),
        ));
        quads
    }
}

/// The spatial index: a region quadtree of `(Point, V)` entries.
pub struct QuadTree<V> {
    capacity: usize,
    boundary: Box2d,
    /// Remaining subdivision budget; a node with budget 0 never splits.
    depth: u32,
    entries: Vec<Entry<V>>,
    north_west: Option<Box<QuadTree<V>>>,
    north_east: Option<Box<QuadTree<V>>>,
    south_east: Option<Box<QuadTree<V>>>,
    south_west: Option<Box<QuadTree<V>>>,
}

impl<V: Copy> QuadTree<V> {
    pub closed spec fn spec_boundary(self) -> Box2d {
        self.boundary
    }

    pub closed spec fn spec_capacity(self) -> usize {
        self.capacity
    }

    pub closed spec fn spec_depth(self) -> u32 {
        self.depth
    }

    spec fn opt_entries(o: Option<Box<QuadTree<V>>>) -> Seq<(Point, V)>
        decreases o,
    {
        match o {
            None => Seq::empty(),
            Some(t) => t.entries_seq(),
        }
    }

    /// Everything the subtree stores: this node's own entries, then the
    /// entries of the north-west, north-east, south-east and south-west
    /// children.
    pub closed spec fn entries_seq(self) -> Seq<(Point, V)>
        decreases self,
    {
        self.entries@.map_values(|e: Entry<V>| (e.point, e.value))
            + Self::opt_entries(self.north_west)
            + Self::opt_entries(self.north_east)
            + Self::opt_entries(self.south_east)
            + Self::opt_entries(self.south_west)
    }

    spec fn own_pairs(self) -> Seq<(Point, V)> {
        self.entries@.map_values(|e: Entry<V>| (e.point, e.value))
    }

    spec fn is_split(self) -> bool {
        self.north_west is Some
    }

    /// Well-formedness: the boundary is a world rectangle; every entry held
    /// here lies inside it; the four children exist together or not at all;
    /// an unsplit node respects its capacity unless its subdivision budget is
    /// spent; children cover the four quadrants, one budget level down.
    pub closed spec fn wf(self) -> bool
        decreases self,
    {
        &&& self.boundary.wf()
        &&& (forall|i: int|
            0 <= i < self.entries@.len() ==> self.boundary.spec_contains(
                (#[trigger] self.entries@[i]).point,
            ))
        &&& (self.north_west is Some <==> self.north_east is Some)
        &&& (self.north_west is Some <==> self.south_east is Some)
        &&& (self.north_west is Some <==> self.south_west is Some)
        &&& (self.north_west is None ==> self.entries@.len() <= self.capacity || self.depth
            == 0)
        &&& (match self.north_west {
            Some(nw) => {
                &&& nw.wf()
                &&& nw.boundary == self.boundary.spec_nw()
                &&& nw.depth + 1 == self.depth
                &&& nw.capacity == self.capacity
            },
            None => true,
        })
        &&& (match self.north_east {
            Some(ne) => {
                &&& ne.wf()
                &&& ne.boundary == self.boundary.spec_ne()
                &&& ne.depth + 1 == self.depth
                &&& ne.capacity == self.capacity
            },
            None => true,
        })
        &&& (match self.south_east {
            Some(se) => {
                &&& se.wf()
                &&& se.boundary == self.boundary.spec_se()
                &&& se.depth + 1 == self.depth
                &&& se.capacity == self.capacity
            },
            None => true,
        })
        &&& (match self.south_west {
            Some(sw) => {
                &&& sw.wf()
                &&& sw.boundary == self.boundary.spec_sw()
                &&& sw.depth + 1 == self.depth
                &&& sw.capacity == self.capacity
            },
            None => true,
        })
    }

    /// Every entry of a well-formed subtree lies inside the subtree's
    /// boundary.
    pub proof fn lemma_entries_in_boundary(self)
        requires
            self.wf(),
        ensures
            forall|i: int|
                0 <= i < self.entries_seq().len() ==> self.spec_boundary().spec_contains(
                    (#[trigger] self.entries_seq()[i]).0,
                ),
        decreases self,
    {
        let s = self.entries_seq();
        let own = self.own_pairs();
        let nwe = Self::opt_entries(self.north_west);
        let nee = Self::opt_entries(self.north_east);
        let see = Self::opt_entries(self.south_east);
        let swe = Self::opt_entries(self.south_west);
        if let Some(nw) = self.north_west {
            self.boundary.lemma_mid_in_box();
            nw.lemma_entries_in_boundary();
        }
        if let Some(ne) = self.north_east {
            ne.lemma_entries_in_boundary();
        }
        if let Some(se) = self.south_east {
            se.lemma_entries_in_boundary();
        }
        if let Some(sw) = self.south_west {
            sw.lemma_entries_in_boundary();
        }
        assert(s == own + nwe + nee + see + swe);
        assert forall|i: int| 0 <= i < s.len() implies self.spec_boundary().spec_contains(
            (#[trigger] s[i]).0,
        ) by {
            let a = own.len() as int;
            let b = a + nwe.len();
            let c = b + nee.len();
            let d = c + see.len();
            if i < a {
                assert(s[i] == own[i]);
                assert(own[i] == (self.entries@[i].point, self.entries@[i].value));
                assert(self.boundary.spec_contains(self.entries@[i].point));
            } else if i < b {
                let nw = self.north_west.unwrap();
                assert(s[i] == nwe[i - a]);
                assert(nwe == nw.entries_seq());
                assert(nw.spec_boundary().spec_contains(nwe[i - a].0));
                assert(nw.spec_boundary() == self.boundary.spec_nw());
            } else if i < c {
                let ne = self.north_east.unwrap();
                assert(s[i] == nee[i - b]);
                assert(nee == ne.entries_seq());
                assert(ne.spec_boundary().spec_contains(nee[i - b].0));
                assert(ne.spec_boundary() == self.boundary.spec_ne());
            } else if i < d {
                let se = self.south_east.unwrap();
                assert(s[i] == see[i - c]);
                assert(see == se.entries_seq());
                assert(se.spec_boundary().spec_contains(see[i - c].0));
                assert(se.spec_boundary() == self.boundary.spec_se());
            } else {
                let sw = self.south_west.unwrap();
                assert(s[i] == swe[i - d]);
                assert(swe == sw.entries_seq());
                assert(sw.spec_boundary().spec_contains(swe[i - d].0));
                assert(sw.spec_boundary() == self.boundary.spec_sw());
            }
        };
    }

    fn new_node(boundary: Box2d, capacity: usize, depth: u32) -> (t: QuadTree<V>)
        requires
            boundary.wf(),
        ensures
            t.wf(),
            t.boundary == boundary,
            t.capacity == capacity,
            t.depth == depth,
            t.entries_seq() == Seq::<(Point, V)>::empty(),
    {
        let t = QuadTree {
            capacity,
            boundary,
            depth,
            entries: Vec::new(),
            north_west: None,
            north_east: None,
            south_east: None,
            south_west: None,
        };
        proof {
            assert(t.entries_seq() =~= Seq::<(Point, V)>::empty());
        }
        t
    }

    /// A fresh, empty tree over the given boundary.
    pub fn new(boundary: Box2d, capacity: usize) -> (t: QuadTree<V>)
        requires
            boundary.wf(),
        ensures
            t.wf(),
            t.spec_boundary() == boundary,
            t.spec_capacity() == capacity,
            t.spec_depth() == MAX_TREE_DEPTH,
            t.entries_seq() == Seq::<(Point, V)>::empty(),
    {
        Self::new_node(boundary, capacity, MAX_TREE_DEPTH)
    }

    /// Split an unsplit node into four empty children, one per quadrant.
    fn subdivide(&mut self)
        requires
            old(self).wf(),
            old(self).north_west is None,
            old(self).depth >= 1,
        ensures
            final(self).wf(),
            final(self).is_split(),
            final(self).boundary == old(self).boundary,
            final(self).capacity == old(self).capacity,
            final(self).depth == old(self).depth,
            final(self).entries == old(self).entries,
            final(self).entries_seq() == old(self).entries_seq(),
    {
        proof {
            self.boundary.lemma_subdivide_wf();
        }
        let sub_boxes = self.boundary.subdivide();
        let child_depth = self.depth - 1;
        self.north_west = Some(Box::new(QuadTree::new_node(sub_boxes[0], self.capacity, child_depth)));
        self.north_east = Some(Box::new(QuadTree::new_node(sub_boxes[1], self.capacity, child_depth)));
        self.south_east = Some(Box::new(QuadTree::new_node(sub_boxes[2], self.capacity, child_depth)));
        self.south_west = Some(Box::new(QuadTree::new_node(sub_boxes[3], self.capacity, child_depth)));
        proof {
            assert(final(self).entries_seq() =~= old(self).entries_seq());
        }
    }

    /// Store `(point, value)`. The pair is accepted exactly when `point`
    /// lies inside this subtree's boundary; a rejected insertion leaves the
    /// tree untouched.
    pub fn insert(&mut self, point: Point, value: V) -> (r: bool)
        requires
            old(self).wf(),
        ensures
            final(self).wf(),
            final(self).spec_boundary() == old(self).spec_boundary(),
            final(self).spec_capacity() == old(self).spec_capacity(),
            final(self).spec_depth() == old(self).spec_depth(),
            r == old(self).spec_boundary().spec_contains(point),
            r ==> final(self).entries_seq().to_multiset() == old(
                self,
            ).entries_seq().to_multiset().insert((point, value)),
            !r ==> *final(self) == *old(self),
        decreases old(self).spec_depth(),
    {
        // if point is not in boundary, return false
        if !self.boundary.contains(&point) {
            return false;
        }
        // if there is space (or the subdivision budget is spent), add the
        // point here and return true
        if self.north_west.is_none() && (self.entries.len() < self.capacity || self.depth == 0) {
            self.entries.push(Entry::new(point, value));
            proof {
                let pair = (point, value);
                let f = |e: Entry<V>| (e.point, e.value);
                assert(self.entries@.map_values(f) =~= old(self).entries@.map_values(f).push(pair));
                assert(final(self).entries_seq() =~= old(self).entries_seq().push(pair));
                old(self).entries_seq().to_multiset_ensures();
            }
            return true;
        }
        // if there is no space, subdivide and delegate the insertion
        if self.north_west.is_none() {
            self.subdivide();
        }
        let ghost split_self = *self;

        // try the children in the fixed north-west, north-east, south-east,
        // south-west order, returning on the first acceptance
        let mut nw = self.north_west.take().unwrap();
        let ok_nw = nw.insert(point, value);
        self.north_west = Some(nw);
        if ok_nw {
            proof {
                Self::lemma_child_insert(split_self, *self, (point, value), 0);
            }
            return true;
        }
        proof {
            assert(*self == split_self);
        }

        let mut ne = self.north_east.take().unwrap();
        let ok_ne = ne.insert(point, value);
        self.north_east = Some(ne);
        if ok_ne {
            proof {
                Self::lemma_child_insert(split_self, *self, (point, value), 1);
            }
            return true;
        }
        proof {
            assert(*self == split_self);
        }

        let mut se = self.south_east.take().unwrap();
        let ok_se = se.insert(point, value);
        self.south_east = Some(se);
        if ok_se {
            proof {
                Self::lemma_child_insert(split_self, *self, (point, value), 2);
            }
            return true;
        }
        proof {
            assert(*self == split_self);
        }

        let mut sw = self.south_west.take().unwrap();
        let ok_sw = sw.insert(point, value);
        self.south_west = Some(sw);
        if ok_sw {
            proof {
                Self::lemma_child_insert(split_self, *self, (point, value), 3);
            }
            return true;
        }

        // unreachable: the quadrants cover the boundary, so one child
        // accepted the point
        proof {
            self.boundary.lemma_subdivide_covers(point);
            assert(false);
        }
        false
    }

    /// After exactly one child's entries gained one pair (child `which`, in
    /// the north-west, north-east, south-east, south-west order) and
    /// everything else stayed equal, the subtree's entries gained that pair.
    proof fn lemma_child_insert(pre: Self, post: Self, pair: (Point, V), which: int)
        requires
            0 <= which < 4,
            post.entries == pre.entries,
            pre.north_west is Some,
            pre.north_east is Some,
            pre.south_east is Some,
            pre.south_west is Some,
            post.north_west is Some,
            post.north_east is Some,
            post.south_east is Some,
            post.south_west is Some,
            which == 0 ==> post.north_west.unwrap().entries_seq().to_multiset()
                == pre.north_west.unwrap().entries_seq().to_multiset().insert(pair),
            which != 0 ==> post.north_west == pre.north_west,
            which == 1 ==> post.north_east.unwrap().entries_seq().to_multiset()
                == pre.north_east.unwrap().entries_seq().to_multiset().insert(pair),
            which != 1 ==> post.north_east == pre.north_east,
            which == 2 ==> post.south_east.unwrap().entries_seq().to_multiset()
                == pre.south_east.unwrap().entries_seq().to_multiset().insert(pair),
            which != 2 ==> post.south_east == pre.south_east,
            which == 3 ==> post.south_west.unwrap().entries_seq().to_multiset()
                == pre.south_west.unwrap().entries_seq().to_multiset().insert(pair),
            which != 3 ==> post.south_west == pre.south_west,
        ensures
            post.entries_seq().to_multiset() == pre.entries_seq().to_multiset().insert(pair),
    {
        broadcast use vstd::seq_lib::lemma_multiset_commutative;
        broadcast use vstd::multiset::group_multiset_axioms;

        let own = pre.own_pairs();
        let nw0 = Self::opt_entries(pre.north_west);
        let ne0 = Self::opt_entries(pre.north_east);
        let se0 = Self::opt_entries(pre.south_east);
        let sw0 = Self::opt_entries(pre.south_west);
        let nw1 = Self::opt_entries(post.north_west);
        let ne1 = Self::opt_entries(post.north_east);
        let se1 = Self::opt_entries(post.south_east);
        let sw1 = Self::opt_entries(post.south_west);
        assert(pre.entries_seq() == own + nw0 + ne0 + se0 + sw0);
        assert(post.entries_seq() == own + nw1 + ne1 + se1 + sw1);
        assert(post.entries_seq().to_multiset() =~= pre.entries_seq().to_multiset().insert(pair));
    }

    /// Return every stored entry whose point lies inside `range`, in the
    /// fixed own-entries, north-west, north-east, south-east, south-west
    /// order.
    pub fn query_range(&self, range: Box2d) -> (res: Vec<Entry<V>>)
        requires
            self.wf(),
        ensures
            res@.map_values(|e: Entry<V>| (e.point, e.value)) == self.entries_seq().filter(
                |pr: (Point, V)| range.spec_contains(pr.0),
            ),
        decreases *self,
    {
        let ghost f = |e: Entry<V>| (e.point, e.value);
        let ghost pred = |pr: (Point, V)| range.spec_contains(pr.0);
        let mut res: Vec<Entry<V>> = Vec::new();

        if !self.boundary.intersects_box(&range) {
            proof {
                self.lemma_entries_in_boundary();
                lemma_filter_all_false(self.entries_seq(), pred);
                assert(res@.map_values(f) =~= Seq::<(Point, V)>::empty());
            }
            return res;
        }

        let n = self.entries.len();
        let mut i: usize = 0;
        proof {
            assert(res@.map_values(f) =~= self.own_pairs().take(0).filter(pred));
            assert(self.own_pairs().take(0) =~= Seq::<(Point, V)>::empty());
            lemma_filter_all_false(self.own_pairs().take(0), pred);
        }
        while i < n
            invariant
                n == self.entries@.len(),
                i <= n,
                self.wf(),
                res@.map_values(f) == self.own_pairs().take(i as int).filter(pred),
                f == (|e: Entry<V>| (e.point, e.value)),
                pred == (|pr: (Point, V)| range.spec_contains(pr.0)),
            decreases n - i,
        {
            let entry = &self.entries[i];
            let ghost prefix = self.own_pairs().take(i as int);
            proof {
                lemma_filter_push(prefix, self.own_pairs()[i as int], pred);
                assert(self.own_pairs().take(i + 1) =~= prefix.push(self.own_pairs()[i as int]));
            }
            if range.contains(&entry.point) {
                res.push(Entry::new(entry.point, entry.value));
                proof {
                    assert(res@.map_values(f) =~= self.own_pairs().take(i + 1).filter(pred));
                }
            } else {
                proof {
                    assert(res@.map_values(f) =~= self.own_pairs().take(i + 1).filter(pred));
                }
            }
            i += 1;
        }
        proof {
            assert(self.own_pairs().take(n as int) =~= self.own_pairs());
        }

        // query the children
        if let Some(nw) = &self.north_west {
            let mut sub = nw.query_range(range);
            proof {
                let ghost pre = res@;
                assert((pre + sub@).map_values(f) =~= pre.map_values(f) + sub@.map_values(f));
            }
            res.append(&mut sub);
        }
        if let Some(ne) = &self.north_east {
            let mut sub = ne.query_range(range);
            proof {
                let ghost pre = res@;
                assert((pre + sub@).map_values(f) =~= pre.map_values(f) + sub@.map_values(f));
            }
            res.append(&mut sub);
        }
        if let Some(se) = &self.south_east {
            let mut sub = se.query_range(range);
            proof {
                let ghost pre = res@;
                assert((pre + sub@).map_values(f) =~= pre.map_values(f) + sub@.map_values(f));
            }
            res.append(&mut sub);
        }
        if let Some(sw) = &self.south_west {
            let mut sub = sw.query_range(range);
            proof {
                let ghost pre = res@;
                assert((pre + sub@).map_values(f) =~= pre.map_values(f) + sub@.map_values(f));
            }
            res.append(&mut sub);
        }

        proof {
            broadcast use vstd::seq_lib::group_filter_ensures;

            let own = self.own_pairs();
            let nwe = Self::opt_entries(self.north_west);
            let nee = Self::opt_entries(self.north_east);
            let see = Self::opt_entries(self.south_east);
            let swe = Self::opt_entries(self.south_west);
            Seq::filter_distributes_over_add(own, nwe, pred);
            Seq::filter_distributes_over_add(own + nwe, nee, pred);
            Seq::filter_distributes_over_add(own + nwe + nee, see, pred);
            Seq::filter_distributes_over_add(own + nwe + nee + see, swe, pred);
            if self.north_west is None {
                lemma_filter_all_false(nwe, pred);
                lemma_filter_all_false(nee, pred);
                lemma_filter_all_false(see, pred);
                lemma_filter_all_false(swe, pred);
            }
            assert(res@.map_values(f) =~= self.entries_seq().filter(pred));
        }
        res
    }
}

/// Filtering keeps nothing when the predicate holds of no element.
proof fn lemma_filter_all_false<A>(s: Seq<A>, pred: spec_fn(A) -> bool)
    requires
        forall|i: int| 0 <= i < s.len() ==> !pred(#[trigger] s[i]),
    ensures
        s.filter(pred) == Seq::<A>::empty(),
    decreases s.len(),
{
    reveal(Seq::filter);
    if s.len() == 0 {
        assert(s.filter(pred) =~= Seq::<A>::empty());
    } else {
        lemma_filter_all_false(s.drop_last(), pred);
        assert(!pred(s.last()));
    }
}

/// Filtering keeps everything when the predicate holds of every element.
proof fn lemma_filter_all_true<A>(s: Seq<A>, pred: spec_fn(A) -> bool)
    requires
        forall|i: int| 0 <= i < s.len() ==> pred(#[trigger] s[i]),
    ensures
        s.filter(pred) == s,
    decreases s.len(),
{
    reveal(Seq::filter);
    if s.len() == 0 {
        assert(s.filter(pred) =~= s);
    } else {
        lemma_filter_all_true(s.drop_last(), pred);
        assert(pred(s.last()));
        assert(s.filter(pred) =~= s.drop_last().push(s.last()));
        assert(s.drop_last().push(s.last()) =~= s);
    }
}

/// A property that holds of every stored pair, and of a newly stored one,
/// holds of every pair after the insertion.
pub proof fn lemma_bag_grows_all<A>(pre: Seq<A>, post: Seq<A>, pair: A, prop: spec_fn(A) -> bool)
    requires
        post.to_multiset() == pre.to_multiset().insert(pair),
        forall|i: int| 0 <= i < pre.len() ==> prop(#[trigger] pre[i]),
        prop(pair),
    ensures
        forall|i: int| 0 <= i < post.len() ==> prop(#[trigger] post[i]),
{
    broadcast use vstd::seq_lib::group_to_multiset_ensures;
    broadcast use vstd::multiset::group_multiset_axioms;

    assert forall|i: int| 0 <= i < post.len() implies prop(#[trigger] post[i]) by {
        let x = post[i];
        assert(post.contains(x));
        assert(post.to_multiset().count(x) > 0);
        if x != pair {
            assert(pre.to_multiset().count(x) > 0);
            assert(pre.contains(x));
            let j = choose|j: int| 0 <= j < pre.len() && pre[j] == x;
            assert(prop(pre[j]));
        }
    };
}

/// A property that holds of every element of a sequence holds of every
/// element a filter of it keeps.
pub proof fn lemma_filter_keeps_all<A>(s: Seq<A>, pred: spec_fn(A) -> bool, prop: spec_fn(A) -> bool)
    requires
        forall|i: int| 0 <= i < s.len() ==> prop(#[trigger] s[i]),
    ensures
        forall|i: int| 0 <= i < s.filter(pred).len() ==> prop(#[trigger] s.filter(pred)[i]),
    decreases s.len(),
{
    reveal(Seq::filter);
    if s.len() != 0 {
        let prefix = s.drop_last();
        assert(forall|i: int| 0 <= i < prefix.len() ==> prefix[i] == s[i]);
        lemma_filter_keeps_all(prefix, pred, prop);
        assert(prop(s.last()));
        if pred(s.last()) {
            assert(s.filter(pred) == prefix.filter(pred).push(s.last()));
            assert forall|i: int| 0 <= i < s.filter(pred).len() implies prop(
                #[trigger] s.filter(pred)[i],
            ) by {
                if i < prefix.filter(pred).len() {
                    assert(s.filter(pred)[i] == prefix.filter(pred)[i]);
                } else {
                    assert(s.filter(pred)[i] == s.last());
                }
            };
        } else {
            assert(s.filter(pred) == prefix.filter(pred));
        }
    }
}

/// One filtering step: filtering after a push keeps the pushed element
/// exactly when the predicate accepts it.
proof fn lemma_filter_push<A>(s: Seq<A>, x: A, pred: spec_fn(A) -> bool)
    ensures
        s.push(x).filter(pred) == if pred(x) {
            s.filter(pred).push(x)
        } else {
            s.filter(pred)
        },
{
    reveal(Seq::filter);
    assert(s.push(x).drop_last() =~= s);
    assert(s.push(x).last() == x);
}

/// Law of quadtree completeness: a query whose range is the whole root
/// boundary keeps every stored entry, each exactly as often as it was
/// stored.
pub proof fn lemma_query_root_complete<V: Copy>(t: QuadTree<V>)
    requires
        t.wf(),
    ensures
        t.entries_seq().filter(|pr: (Point, V)| t.spec_boundary().spec_contains(pr.0))
            == t.entries_seq(),
{
    t.lemma_entries_in_boundary();
    lemma_filter_all_true(
        t.entries_seq(),
        |pr: (Point, V)| t.spec_boundary().spec_contains(pr.0),
    );
}

/// Law of quadtree rejection: a point outside the root boundary is never
/// among the stored entries, so no query ever returns it.
pub proof fn lemma_outside_point_never_stored<V: Copy>(t: QuadTree<V>, p: Point)
    requires
        t.wf(),
        !t.spec_boundary().spec_contains(p),
    ensures
        forall|i: int| 0 <= i < t.entries_seq().len() ==> (#[trigger] t.entries_seq()[i]).0 != p,
{
    t.lemma_entries_in_boundary();
}

/// Squared distance is symmetric.
pub proof fn lemma_dist_sq_sym(a: Point, b: Point)
    ensures
        a.spec_dist_sq(b) == b.spec_dist_sq(a),
{
    assert((a.x - b.x) * (a.x - b.x) == (b.x - a.x) * (b.x - a.x)) by (nonlinear_arith);
    assert((a.y - b.y) * (a.y - b.y) == (b.y - a.y) * (b.y - a.y)) by (nonlinear_arith);
}

/// The integer midpoint of an ordered pair lies between the two.
proof fn lemma_mid_between(a: int, b: int)
    requires
        a <= b,
    ensures
        a <= (a + b) / 2 <= b,
{
    lemma_div_multiples_vanish(a, 2);
    lemma_div_multiples_vanish(b, 2);
    lemma_div_is_ordered(2 * a, a + b, 2);
    lemma_div_is_ordered(a + b, 2 * b, 2);
}

} // verus!
