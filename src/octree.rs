use vstd::prelude::*;
use vstd::multiset::Multiset;

verus! {

/// Index of a body in the body array.
#[derive(Debug, Clone, Copy, PartialEq, Eq, Hash, Structural)]
pub struct ObjectId(pub usize);

impl ObjectId {
    pub fn to_index(&self) -> (r: usize)
        ensures
            r == self.0,
    {
        self.0
    }
}

/// Index of a node in the tree's node arena.
#[derive(Debug, Clone, Copy, PartialEq, Eq, Hash, Structural)]
pub struct NodeId(pub usize);

/// Position of a body on the integer lattice the tree is built over.
#[derive(Debug, Clone, Copy, PartialEq, Eq, Hash, Structural)]
pub struct GridPoint {
    pub x: u32,
    pub y: u32,
    pub z: u32,
}

/// Axis-aligned box of lattice cells; each range is `(min, max)` with `max` excluded.
#[derive(Debug, Clone, Copy)]
pub struct Region {
    pub x_range: (u64, u64),
    pub y_range: (u64, u64),
    pub z_range: (u64, u64),
}

pub open spec fn half_of(r: (u64, u64)) -> int {
    r.0 + (r.1 - r.0) / 2
}

pub open spec fn in_range(r: (u64, u64), v: u32) -> bool {
    r.0 <= v < r.1
}

/// Lower (`high == false`) or upper half of a range, split at its midpoint.
pub open spec fn half_range(r: (u64, u64), high: bool) -> (u64, u64) {
    if high {
        (half_of(r) as u64, r.1)
    } else {
        (r.0, half_of(r) as u64)
    }
}

pub open spec fn width(r: (u64, u64)) -> nat {
    if r.0 <= r.1 {
        (r.1 - r.0) as nat
    } else {
        0
    }
}

fn split_range(r: (u64, u64), high: bool) -> (h: (u64, u64))
    requires
        r.0 <= r.1,
    ensures
        h == half_range(r, high),
{
    let mid = r.0 + (r.1 - r.0) / 2;
    if high {
        (mid, r.1)
    } else {
        (r.0, mid)
    }
}

impl Region {
    pub open spec fn wf(&self) -> bool {
        &&& self.x_range.0 <= self.x_range.1
        &&& self.y_range.0 <= self.y_range.1
        &&& self.z_range.0 <= self.z_range.1
    }

    pub open spec fn contains_spec(&self, p: GridPoint) -> bool {
        &&& in_range(self.x_range, p.x)
        &&& in_range(self.y_range, p.y)
        &&& in_range(self.z_range, p.z)
    }

    /// Sum of the three edge lengths; it shrinks with every split.
    pub open spec fn measure(&self) -> nat {
        width(self.x_range) + width(self.y_range) + width(self.z_range)
    }

    /// Every point of `self` is a point of `other`.
    pub open spec fn within(&self, other: Region) -> bool {
        &&& other.x_range.0 <= self.x_range.0 && self.x_range.1 <= other.x_range.1
        &&& other.y_range.0 <= self.y_range.0 && self.y_range.1 <= other.y_range.1
        &&& other.z_range.0 <= self.z_range.0 && self.z_range.1 <= other.z_range.1
    }

    /// Octant `g` (bit 2: upper x half, bit 1: upper y half, bit 0: upper z half).
    pub open spec fn octant_spec(&self, g: int) -> Region {
        Region {
            x_range: half_range(self.x_range, g / 4 % 2 == 1),
            y_range: half_range(self.y_range, g / 2 % 2 == 1),
            z_range: half_range(self.z_range, g % 2 == 1),
        }
    }

    /// The octant a point falls in: a point on a splitting plane goes to the upper side.
    pub open spec fn octant_of_spec(&self, p: GridPoint) -> int {
        (if p.x >= half_of(self.x_range) {
            4int
        } else {
            0int
        }) + (if p.y >= half_of(self.y_range) {
            2int
        } else {
            0int
        }) + (if p.z >= half_of(self.z_range) {
            1int
        } else {
            0int
        })
    }

    pub fn contains(&self, p: &GridPoint) -> (r: bool)
        ensures
            r == self.contains_spec(*p),
    {
        self.x_range.0 <= p.x as u64 && (p.x as u64) < self.x_range.1 && self.y_range.0
            <= p.y as u64 && (p.y as u64) < self.y_range.1 && self.z_range.0 <= p.z as u64
            && (p.z as u64) < self.z_range.1
    }

    /// Edge length along x, the size used by the acceptance test.
    pub fn size(&self) -> (r: u64)
        ensures
            r == if self.x_range.1 >= self.x_range.0 {
                self.x_range.1 - self.x_range.0
            } else {
                self.x_range.0 - self.x_range.1
            },
    {
        if self.x_range.1 >= self.x_range.0 {
            self.x_range.1 - self.x_range.0
        } else {
            self.x_range.0 - self.x_range.1
        }
    }

    pub fn octant(&self, g: u8) -> (r: Region)
        requires
            self.wf(),
            g < 8,
        ensures
            r == self.octant_spec(g as int),
            r.wf(),
            r.within(*self),
    {
        Region {
            x_range: split_range(self.x_range, g / 4 % 2 == 1),
            y_range: split_range(self.y_range, g / 2 % 2 == 1),
            z_range: split_range(self.z_range, g % 2 == 1),
        }
    }

    pub fn octant_of(&self, p: &GridPoint) -> (g: u8)
        requires
            self.wf(),
        ensures
            g == self.octant_of_spec(*p),
            g < 8,
    {
        let mut g: u8 = 0;
        if p.x as u64 >= self.x_range.0 + (self.x_range.1 - self.x_range.0) / 2 {
            g = g + 4;
        }
        if p.y as u64 >= self.y_range.0 + (self.y_range.1 - self.y_range.0) / 2 {
            g = g + 2;
        }
        if p.z as u64 >= self.z_range.0 + (self.z_range.1 - self.z_range.0) / 2 {
            g = g + 1;
        }
        g
    }

    /// A point of the region lies in the octant that `octant_of` names.
    pub proof fn lemma_octant_of_contains(&self, p: GridPoint)
        requires
            self.wf(),
            self.contains_spec(p),
        ensures
            0 <= self.octant_of_spec(p) < 8,
            self.octant_spec(self.octant_of_spec(p)).contains_spec(p),
    {
    }

    /// Where two points of the region differ, every octant is smaller than the region.
    pub proof fn lemma_split_shrinks(&self, p: GridPoint, q: GridPoint, g: int)
        requires
            self.wf(),
            self.contains_spec(p),
            self.contains_spec(q),
            p != q,
            0 <= g < 8,
        ensures
            self.octant_spec(g).measure() < self.measure(),
    {
    }
}

/// Octree node: a leaf holds a bucket of bodies at one lattice point, an
/// internal node up to eight children. Either way the node's bodies are
/// `order[first..last]` of the tree it belongs to.
#[derive(Debug)]
pub enum NodeData {
    External,
    Internal { children: Vec<NodeId> },
}

#[derive(Debug)]
pub struct FmmNode {
    pub data: NodeData,
    pub region: Region,
    pub first: usize,
    pub last: usize,
}

/// Barnes-Hut octree over lattice positions, as an arena of nodes rooted at
/// index `0`. Every node's children come after it in the arena, and the bodies
/// of a subtree are a contiguous run of `order`.
#[derive(Debug)]
pub struct FmmTree {
    pub nodes: Vec<FmmNode>,
    pub order: Vec<ObjectId>,
}

pub open spec fn pos(points: Seq<GridPoint>, o: ObjectId) -> GridPoint {
    points[o.0 as int]
}

pub open spec fn children_of(n: FmmNode) -> Seq<NodeId> {
    match n.data {
        NodeData::External => Seq::empty(),
        NodeData::Internal { children } => children@,
    }
}

/// `r` is one of the eight octants of `parent`.
pub open spec fn is_octant_of(r: Region, parent: Region) -> bool {
    exists|g: int| 0 <= g < 8 && r == #[trigger] parent.octant_spec(g)
}

pub open spec fn is_leaf(n: FmmNode) -> bool {
    n.data is External
}

/// Body `o` exists and lies in region `r`.
pub open spec fn placed(points: Seq<GridPoint>, r: Region, o: ObjectId) -> bool {
    o.0 < points.len() && r.contains_spec(pos(points, o))
}

/// Bodies whose lattice point falls in octant `g` of `r`.
pub open spec fn in_octant(points: Seq<GridPoint>, r: Region, g: int) -> spec_fn(ObjectId) -> bool {
    |o: ObjectId| r.octant_of_spec(pos(points, o)) == g
}

/// The bodies of `ids` sorted into octants `0..k` of `r`, counted together.
pub open spec fn octant_groups(ids: Seq<ObjectId>, points: Seq<GridPoint>, r: Region, k: int) -> Multiset<ObjectId>
    decreases k,
{
    if k <= 0 {
        Multiset::empty()
    } else {
        octant_groups(ids, points, r, k - 1).add(ids.filter(in_octant(points, r, k - 1)).to_multiset())
    }
}

proof fn lemma_octant_groups_push(ids: Seq<ObjectId>, x: ObjectId, points: Seq<GridPoint>, r: Region, k: int)
    requires
        k >= 0,
    ensures
        octant_groups(ids.push(x), points, r, k) == if r.octant_of_spec(pos(points, x)) < k {
            octant_groups(ids, points, r, k).insert(x)
        } else {
            octant_groups(ids, points, r, k)
        },
    decreases k,
{
    broadcast use vstd::seq_lib::group_seq_properties, vstd::seq_lib::group_to_multiset_ensures;
    if k > 0 {
        lemma_octant_groups_push(ids, x, points, r, k - 1);
        let f = in_octant(points, r, k - 1);
        ids.lemma_filter_push(x, f);
        if f(x) {
            assert(ids.push(x).filter(f) == ids.filter(f).push(x));
            vstd::seq_lib::to_multiset_build(ids.filter(f), x);
            assert(octant_groups(ids.push(x), points, r, k) =~= octant_groups(ids, points, r, k).insert(x));
        } else {
            assert(ids.push(x).filter(f) == ids.filter(f));
            if r.octant_of_spec(pos(points, x)) < k - 1 {
                assert(octant_groups(ids.push(x), points, r, k) =~= octant_groups(ids, points, r, k).insert(x));
            }
        }
    }
}

proof fn lemma_octant_groups_empty(ids: Seq<ObjectId>, points: Seq<GridPoint>, r: Region, k: int)
    requires
        ids.len() == 0,
    ensures
        octant_groups(ids, points, r, k) =~= Multiset::empty(),
    decreases k,
{
    broadcast use vstd::seq_lib::group_seq_properties, vstd::seq_lib::group_to_multiset_ensures;
    if k > 0 {
        lemma_octant_groups_empty(ids, points, r, k - 1);
        let f = in_octant(points, r, k - 1);
        ids.lemma_filter_len(f);
        assert(ids.filter(f) =~= Seq::<ObjectId>::empty());
        assert(ids.filter(f).to_multiset() =~= Multiset::empty());
    }
}

/// Sorting bodies into the eight octants loses and duplicates none.
proof fn lemma_octant_groups_all(ids: Seq<ObjectId>, points: Seq<GridPoint>, r: Region)
    ensures
        octant_groups(ids, points, r, 8) == ids.to_multiset(),
    decreases ids.len(),
{
    broadcast use vstd::seq_lib::group_seq_properties, vstd::seq_lib::group_to_multiset_ensures;
    if ids.len() == 0 {
        lemma_octant_groups_empty(ids, points, r, 8);
        assert(octant_groups(ids, points, r, 8) =~= Multiset::empty());
    } else {
        let s = ids.drop_last();
        let x = ids.last();
        assert(s.push(x) == ids);
        lemma_octant_groups_all(s, points, r);
        lemma_octant_groups_push(s, x, points, r, 8);
        vstd::seq_lib::to_multiset_build(s, x);
    }
}

impl FmmTree {
    /// The shape conditions on node `i`: its run of bodies is a non-empty part
    /// of `order`; an internal node's children come later in the arena, lie in
    /// its region, and their runs tile the node's run, in order.
    pub open spec fn node_shape(&self, i: int) -> bool {
        let n = self.nodes@[i];
        let ch = children_of(n);
        &&& n.first < n.last <= self.order@.len()
        &&& n.region.wf()
        &&& !is_leaf(n) ==> {
            &&& ch.len() > 0
            &&& forall|k: int| 0 <= k < ch.len() ==> i < #[trigger] ch[k].0 < self.nodes@.len()
            &&& forall|k: int| 0 <= k < ch.len() ==> (#[trigger] self.nodes@[ch[k].0 as int]).region.within(n.region)
            &&& forall|k: int| 0 <= k < ch.len() ==> is_octant_of(#[trigger] self.nodes@[ch[k].0 as int].region, n.region)
            &&& self.nodes@[ch[0].0 as int].first == n.first
            &&& self.nodes@[ch[ch.len() - 1].0 as int].last == n.last
            &&& forall|k: int| 0 <= k < ch.len() - 1 ==> #[trigger] self.nodes@[ch[k].0 as int].last
                == self.nodes@[ch[k + 1].0 as int].first
        }
    }

    /// The shape conditions, and: the node's bodies lie in its region; a leaf's
    /// bodies share one lattice point, an internal node's bodies do not.
    pub open spec fn node_ok(&self, points: Seq<GridPoint>, i: int) -> bool {
        let n = self.nodes@[i];
        &&& self.node_shape(i)
        &&& forall|k: int| n.first <= k < n.last ==> #[trigger] placed(points, n.region, self.order@[k])
        &&& is_leaf(n) ==> forall|k: int|
            n.first <= k < n.last ==> #[trigger] pos(points, self.order@[k]) == pos(points, self.order@[n.first as int])
        &&& !is_leaf(n) ==> exists|k: int|
            n.first <= k < n.last && #[trigger] pos(points, self.order@[k]) != pos(points, self.order@[n.first as int])
    }

    /// Every node has its shape and the root's run is all of `order`.
    pub open spec fn shape_wf(&self) -> bool {
        &&& forall|i: int| 0 <= i < self.nodes@.len() ==> #[trigger] self.node_shape(i)
        &&& self.nodes@.len() == 0 <==> self.order@.len() == 0
        &&& self.nodes@.len() > 0 ==> self.nodes@[0].first == 0 && self.nodes@[0].last == self.order@.len()
    }

    /// Well-formed: the tree has its shape and every node meets its local conditions.
    pub open spec fn wf(&self, points: Seq<GridPoint>) -> bool {
        &&& forall|i: int| 0 <= i < self.nodes@.len() ==> #[trigger] self.node_ok(points, i)
        &&& self.shape_wf()
    }
}

proof fn lemma_node_ok_frame(t1: &FmmTree, t2: &FmmTree, points: Seq<GridPoint>, i: int)
    requires
        0 <= i < t1.nodes@.len() <= t2.nodes@.len(),
        t1.node_ok(points, i),
        forall|j: int| i <= j < t1.nodes@.len() ==> t2.nodes@[j] == t1.nodes@[j],
        t1.order@.len() <= t2.order@.len(),
        t2.order@.subrange(0, t1.order@.len() as int) == t1.order@,
    ensures
        t2.node_ok(points, i),
{
    let n = t1.nodes@[i];
    let ch = children_of(n);
    assert forall|k: int| n.first <= k < n.last implies #[trigger] t2.order@[k] == t1.order@[k] by {
        assert(t2.order@.subrange(0, t1.order@.len() as int)[k] == t2.order@[k]);
    }
    assert forall|k: int| n.first <= k < n.last implies #[trigger] placed(points, n.region, t2.order@[k]) by {
        assert(placed(points, n.region, t1.order@[k]));
    }
    if is_leaf(n) {
        assert forall|k: int| n.first <= k < n.last implies #[trigger] pos(points, t2.order@[k])
            == pos(points, t2.order@[n.first as int]) by {
            assert(pos(points, t1.order@[k]) == pos(points, t1.order@[n.first as int]));
        }
    } else {
        let k0 = choose|k: int|
            n.first <= k < n.last && #[trigger] pos(points, t1.order@[k]) != pos(points, t1.order@[n.first as int]);
        assert(t2.order@[k0] == t1.order@[k0]);
        assert(t2.order@[n.first as int] == t1.order@[n.first as int]);
        assert forall|k: int| 0 <= k < ch.len() implies #[trigger] t2.nodes@[ch[k].0 as int]
            == t1.nodes@[ch[k].0 as int] by {
            assert(i < ch[k].0 < t1.nodes@.len());
        }
        assert forall|k: int| 0 <= k < ch.len() - 1 implies #[trigger] t2.nodes@[ch[k].0 as int].last
            == t2.nodes@[ch[k + 1].0 as int].first by {
            assert(t2.nodes@[ch[k].0 as int] == t1.nodes@[ch[k].0 as int]);
            assert(t2.nodes@[ch[k + 1].0 as int] == t1.nodes@[ch[k + 1].0 as int]);
            assert(t1.nodes@[ch[k].0 as int].last == t1.nodes@[ch[k + 1].0 as int].first);
        }
        assert forall|k: int| 0 <= k < ch.len() implies (#[trigger] t2.nodes@[ch[k].0 as int]).region.within(n.region) by {
            assert(t2.nodes@[ch[k].0 as int] == t1.nodes@[ch[k].0 as int]);
            assert(t1.nodes@[ch[k].0 as int].region.within(n.region));
        }
        assert forall|k: int| 0 <= k < ch.len() implies is_octant_of(
            #[trigger] t2.nodes@[ch[k].0 as int].region,
            n.region,
        ) by {
            assert(t2.nodes@[ch[k].0 as int] == t1.nodes@[ch[k].0 as int]);
            assert(is_octant_of(t1.nodes@[ch[k].0 as int].region, n.region));
        }
        assert(t2.nodes@[ch[0].0 as int] == t1.nodes@[ch[0].0 as int]);
        assert(t2.nodes@[ch[ch.len() - 1].0 as int] == t1.nodes@[ch[ch.len() - 1].0 as int]);
    }
}

/// The bodies of `ids` whose lattice point falls in octant `g` of `region`, in order.
fn select_octant(points: &Vec<GridPoint>, region: &Region, ids: &Vec<ObjectId>, g: u8) -> (group: Vec<ObjectId>)
    requires
        region.wf(),
        g < 8,
        forall|k: int| 0 <= k < ids@.len() ==> #[trigger] placed(points@, *region, ids@[k]),
    ensures
        group@ == ids@.filter(in_octant(points@, *region, g as int)),
        forall|k: int| 0 <= k < group@.len() ==> #[trigger] placed(points@, region.octant_spec(g as int), group@[k]),
{
    broadcast use vstd::seq_lib::group_seq_properties;
    let ghost f = in_octant(points@, *region, g as int);
    let mut group: Vec<ObjectId> = Vec::new();
    let mut k: usize = 0;
    while k < ids.len()
        invariant
            region.wf(),
            k <= ids@.len(),
            forall|j: int| 0 <= j < ids@.len() ==> #[trigger] placed(points@, *region, ids@[j]),
            f == in_octant(points@, *region, g as int),
            group@ == ids@.subrange(0, k as int).filter(f),
            forall|j: int| 0 <= j < group@.len() ==> #[trigger] placed(points@, region.octant_spec(g as int), group@[j]),
        decreases ids@.len() - k,
    {
        let o = ids[k];
        proof {
            assert(ids@.subrange(0, k + 1) =~= ids@.subrange(0, k as int).push(o));
            ids@.subrange(0, k as int).lemma_filter_push(o, f);
            assert(placed(points@, *region, ids@[k as int]));
            region.lemma_octant_of_contains(points@[o.0 as int]);
        }
        let oct = region.octant_of(&points[o.0]);
        if oct == g {
            assert(f(o));
            group.push(o);
        } else {
            assert(!f(o));
        }
        k = k + 1;
    }
    assert(ids@.subrange(0, ids@.len() as int) == ids@);
    group
}

/// Whether all bodies of `ids` sit on one lattice point.
fn all_coincident(points: &Vec<GridPoint>, ids: &Vec<ObjectId>) -> (r: bool)
    requires
        ids@.len() > 0,
        forall|k: int| 0 <= k < ids@.len() ==> #[trigger] ids@[k].0 < points@.len(),
    ensures
        r == forall|k: int| 0 <= k < ids@.len() ==> #[trigger] pos(points@, ids@[k]) == pos(points@, ids@[0]),
{
    let p0 = points[ids[0].0];
    let mut k: usize = 1;
    while k < ids.len()
        invariant
            1 <= k <= ids@.len(),
            forall|j: int| 0 <= j < ids@.len() ==> #[trigger] ids@[j].0 < points@.len(),
            p0 == pos(points@, ids@[0]),
            forall|j: int| 0 <= j < k ==> #[trigger] pos(points@, ids@[j]) == p0,
        decreases ids@.len() - k,
    {
        let p = points[ids[k].0];
        if p != p0 {
            assert(pos(points@, ids@[k as int]) != pos(points@, ids@[0]));
            return false;
        }
        k = k + 1;
    }
    true
}

impl FmmTree {
    /// Appends the subtree over `ids` inside `region`: its root gets the next
    /// arena index, and its bodies are appended to `order`.
    fn build_node(&mut self, points: &Vec<GridPoint>, region: Region, ids: Vec<ObjectId>) -> (id: NodeId)
        requires
            ids@.len() > 0,
            region.wf(),
            forall|k: int| 0 <= k < ids@.len() ==> #[trigger] placed(points@, region, ids@[k]),
        ensures
            id.0 == old(self).nodes@.len(),
            final(self).nodes@.len() > id.0,
            forall|j: int| 0 <= j < old(self).nodes@.len() ==> final(self).nodes@[j] == old(self).nodes@[j],
            old(self).order@.len() <= final(self).order@.len(),
            final(self).order@.subrange(0, old(self).order@.len() as int) == old(self).order@,
            final(self).nodes@[id.0 as int].first == old(self).order@.len(),
            final(self).nodes@[id.0 as int].last == final(self).order@.len(),
            final(self).nodes@[id.0 as int].region == region,
            final(self).order@.subrange(old(self).order@.len() as int, final(self).order@.len() as int).to_multiset()
                == ids@.to_multiset(),
            forall|j: int| id.0 <= j < final(self).nodes@.len() ==> #[trigger] final(self).node_ok(points@, j),
        decreases region.measure(),
    {
        broadcast use vstd::seq_lib::group_seq_properties, vstd::seq_lib::group_to_multiset_ensures;
        let ghost nodes0 = self.nodes@;
        let ghost order0 = self.order@;
        let first = self.order.len();
        let id = NodeId(self.nodes.len());
        assert forall|k: int| 0 <= k < ids@.len() implies #[trigger] ids@[k].0 < points@.len() by {
            assert(placed(points@, region, ids@[k]));
        }
        if all_coincident(points, &ids) {
            let mut k: usize = 0;
            while k < ids.len()
                invariant
                    self.nodes@ == nodes0,
                    first == order0.len(),
                    k <= ids@.len(),
                    self.order@.len() == first + k,
                    self.order@.subrange(0, first as int) == order0,
                    self.order@.subrange(first as int, first + k) == ids@.subrange(0, k as int),
                decreases ids@.len() - k,
            {
                self.order.push(ids[k]);
                k = k + 1;
                proof {
                    assert(self.order@.subrange(0, first as int) =~= order0);
                    assert(self.order@.subrange(first as int, first + k) =~= ids@.subrange(0, k as int));
                }
            }
            let last = self.order.len();
            self.nodes.push(FmmNode { data: NodeData::External, region, first, last });
            proof {
                assert(ids@.subrange(0, ids@.len() as int) == ids@);
                let t = *self;
                assert forall|k: int| first <= k < last implies #[trigger] placed(points@, region, t.order@[k]) by {
                    assert(t.order@.subrange(first as int, last as int)[k - first] == t.order@[k]);
                    assert(placed(points@, region, ids@[k - first]));
                }
                assert forall|k: int| first <= k < last implies #[trigger] pos(points@, t.order@[k]) == pos(
                    points@,
                    t.order@[first as int],
                ) by {
                    assert(t.order@.subrange(first as int, last as int)[k - first] == t.order@[k]);
                    assert(t.order@.subrange(first as int, last as int)[0] == t.order@[first as int]);
                    assert(pos(points@, ids@[k - first]) == pos(points@, ids@[0]));
                }
                assert(t.node_ok(points@, id.0 as int));
            }
            return id;
        }
        let ghost kk = choose|k: int| 0 <= k < ids@.len() && #[trigger] pos(points@, ids@[k]) != pos(points@, ids@[0]);
        assert(placed(points@, region, ids@[kk]));
        assert(placed(points@, region, ids@[0]));
        self.nodes.push(FmmNode { data: NodeData::Internal { children: Vec::new() }, region, first, last: first });
        let ghost nodes1 = self.nodes@;
        let mut children: Vec<NodeId> = Vec::new();
        let mut g: u8 = 0;
        while g < 8
            invariant
                g <= 8,
                region.wf(),
                ids@.len() > 0,
                0 <= kk < ids@.len(),
                pos(points@, ids@[kk]) != pos(points@, ids@[0]),
                placed(points@, region, ids@[kk]),
                placed(points@, region, ids@[0]),
                forall|k: int| 0 <= k < ids@.len() ==> #[trigger] placed(points@, region, ids@[k]),
                id.0 == nodes0.len(),
                nodes1.len() == id.0 + 1,
                self.nodes@.len() > id.0,
                forall|j: int| 0 <= j <= id.0 ==> self.nodes@[j] == nodes1[j],
                first == order0.len(),
                first <= self.order@.len(),
                self.order@.subrange(0, first as int) == order0,
                self.order@.subrange(first as int, self.order@.len() as int).to_multiset()
                    == octant_groups(ids@, points@, region, g as int),
                forall|k: int| first <= k < self.order@.len() ==> #[trigger] placed(points@, region, self.order@[k]),
                forall|j: int| id.0 < j < self.nodes@.len() ==> #[trigger] self.node_ok(points@, j),
                forall|k: int| 0 <= k < children@.len() ==> id.0 < #[trigger] children@[k].0 < self.nodes@.len(),
                forall|k: int|
                    0 <= k < children@.len() ==> (#[trigger] self.nodes@[children@[k].0 as int]).region.within(region),
                forall|k: int|
                    0 <= k < children@.len() ==> is_octant_of(
                        #[trigger] self.nodes@[children@[k].0 as int].region,
                        region,
                    ),
                children@.len() == 0 ==> self.order@.len() == first,
                children@.len() > 0 ==> self.nodes@[children@[0].0 as int].first == first,
                children@.len() > 0 ==> self.nodes@[children@[children@.len() - 1].0 as int].last == self.order@.len(),
                forall|k: int| 0 <= k < children@.len() - 1 ==> #[trigger] self.nodes@[children@[k].0 as int].last
                    == self.nodes@[children@[k + 1].0 as int].first,
            decreases 8 - g,
        {
            let group = select_octant(points, &region, &ids, g);
            let ghost f = in_octant(points@, region, g as int);
            if group.len() > 0 {
                let sub = region.octant(g);
                proof {
                    region.lemma_split_shrinks(pos(points@, ids@[kk]), pos(points@, ids@[0]), g as int);
                }
                let ghost t1 = *self;
                let ghost group_v = group@;
                let child = self.build_node(points, sub, group);
                let ghost t2 = *self;
                proof {
                    assert forall|j: int| id.0 < j < t2.nodes@.len() implies #[trigger] t2.node_ok(points@, j) by {
                        if j < t1.nodes@.len() {
                            lemma_node_ok_frame(&t1, &t2, points@, j);
                        }
                    }
                    let lo = first as int;
                    let mid = t1.order@.len() as int;
                    let hi = t2.order@.len() as int;
                    assert(t2.order@.subrange(lo, hi) =~= t1.order@.subrange(lo, mid) + t2.order@.subrange(mid, hi)) by {
                        assert forall|k: int| lo <= k < mid implies t2.order@[k] == t1.order@[k] by {
                            assert(t2.order@.subrange(0, mid)[k] == t2.order@[k]);
                        }
                    }
                    vstd::seq_lib::lemma_multiset_commutative(t1.order@.subrange(lo, mid), t2.order@.subrange(mid, hi));
                    assert(octant_groups(ids@, points@, region, g + 1) == octant_groups(
                        ids@,
                        points@,
                        region,
                        g as int,
                    ).add(
                        ids@.filter(f).to_multiset()));
                    assert forall|k: int| first <= k < hi implies #[trigger] placed(points@, region, t2.order@[k]) by {
                        if k < mid {
                            assert(t2.order@.subrange(0, mid)[k] == t2.order@[k]);
                            assert(placed(points@, region, t1.order@[k]));
                        } else {
                            assert(t2.node_ok(points@, child.0 as int));
                            assert(placed(points@, sub, t2.order@[k]));
                        }
                    }
                    assert(t2.nodes@[child.0 as int].region.within(region));
                    assert(t2.nodes@[child.0 as int].region == region.octant_spec(g as int));
                    assert(is_octant_of(t2.nodes@[child.0 as int].region, region));
                }
                children.push(child);
                proof {
                    assert forall|k: int| 0 <= k < children@.len() - 1 implies #[trigger] self.nodes@[children@[k].0 as int].last
                        == self.nodes@[children@[k + 1].0 as int].first by {
                        if k < children@.len() - 2 {
                            assert(t1.nodes@[children@[k].0 as int].last == t1.nodes@[children@[k + 1].0 as int].first);
                        }
                    }
                }
            } else {
                proof {
                    assert(group@ =~= Seq::<ObjectId>::empty());
                    vstd::seq_lib::to_multiset_len(group@);
                    vstd::multiset::lemma_multiset_empty_len(group@.to_multiset());
                    assert(group@.to_multiset() =~= Multiset::empty());
                    assert(octant_groups(ids@, points@, region, g + 1) =~= octant_groups(ids@, points@, region, g as int));
                }
            }
            g = g + 1;
        }
        let last = self.order.len();
        proof {
            lemma_octant_groups_all(ids@, points@, region);
            assert(ids@.to_multiset().len() > 0);
            assert(self.order@.subrange(first as int, last as int).len() > 0);
        }
        let ghost t3 = *self;
        self.nodes.set(id.0, FmmNode { data: NodeData::Internal { children }, region, first, last });
        proof {
            let t4 = *self;
            assert(t4.order@.subrange(0, t3.order@.len() as int) =~= t3.order@);
            assert forall|j: int| id.0 < j < t4.nodes@.len() implies #[trigger] t4.node_ok(points@, j) by {
                lemma_node_ok_frame(&t3, &t4, points@, j);
            }
            assert(t4.order@.subrange(0, t4.order@.len() as int) == t4.order@);
            let sub = t4.order@.subrange(first as int, last as int);
            assert(ids@.to_multiset().count(ids@[kk]) > 0);
            assert(ids@.to_multiset().count(ids@[0]) > 0);
            assert(sub.contains(ids@[kk]));
            assert(sub.contains(ids@[0]));
            let a = choose|a: int| 0 <= a < sub.len() && sub[a] == ids@[kk];
            let b = choose|b: int| 0 <= b < sub.len() && sub[b] == ids@[0];
            assert(sub[a] == t4.order@[first + a]);
            assert(sub[b] == t4.order@[first + b]);
            let pf = pos(points@, t4.order@[first as int]);
            if pos(points@, t4.order@[first + a]) != pf {
                assert(first <= first + a < last);
            } else {
                assert(pos(points@, t4.order@[first + b]) != pf);
                assert(first <= first + b < last);
            }
            assert(t4.node_ok(points@, id.0 as int));
            assert forall|j: int| 0 <= j < nodes0.len() implies t4.nodes@[j] == nodes0[j] by {
                assert(nodes1[j] == nodes0[j]);
            }
        }
        id
    }
}

/// Indices of the bodies flagged in `massive`, in increasing order.
pub open spec fn sources_spec(massive: Seq<bool>) -> Seq<ObjectId>
    decreases massive.len(),
{
    if massive.len() == 0 {
        Seq::empty()
    } else {
        let r = sources_spec(massive.drop_last());
        if massive.last() {
            r.push(ObjectId((massive.len() - 1) as usize))
        } else {
            r
        }
    }
}

proof fn lemma_sources_spec_facts(massive: Seq<bool>)
    requires
        massive.len() <= usize::MAX,
    ensures
        forall|k: int|
            0 <= k < sources_spec(massive).len() ==> (#[trigger] sources_spec(massive)[k]).0 < massive.len()
                && massive[sources_spec(massive)[k].0 as int],
        forall|k: int, j: int|
            0 <= k < j < sources_spec(massive).len() ==> (#[trigger] sources_spec(massive)[k]).0
                < (#[trigger] sources_spec(massive)[j]).0,
        forall|i: int|
            0 <= i < massive.len() && #[trigger] massive[i] ==> exists|k: int|
                0 <= k < sources_spec(massive).len() && (#[trigger] sources_spec(massive)[k]).0 == i,
    decreases massive.len(),
{
    if massive.len() > 0 {
        let m0 = massive.drop_last();
        lemma_sources_spec_facts(m0);
        let r0 = sources_spec(m0);
        let r = sources_spec(massive);
        assert forall|i: int| 0 <= i < massive.len() && #[trigger] massive[i] implies exists|k: int|
            0 <= k < r.len() && (#[trigger] r[k]).0 == i by {
            if i == massive.len() - 1 {
                assert(r[r.len() - 1].0 == i);
            } else {
                assert(m0[i] == massive[i]);
                let k0 = choose|k: int| 0 <= k < r0.len() && (#[trigger] r0[k]).0 == i;
                assert(r[k0] == r0[k0]);
            }
        }
        assert forall|k: int| 0 <= k < r.len() implies (#[trigger] r[k]).0 < massive.len() && massive[r[k].0 as int] by {
            if k < r0.len() {
                assert(r[k] == r0[k]);
                assert(m0[r0[k].0 as int] == massive[r0[k].0 as int]);
            }
        }
    }
}

/// Appending bodies without mass to a scene adds no gravity source and moves
/// none: the sources, and so the tree they are built into, stay the same.
pub proof fn lemma_massless_bodies_add_no_sources(massive: Seq<bool>, extra: Seq<bool>)
    requires
        forall|k: int| 0 <= k < extra.len() ==> !(#[trigger] extra[k]),
    ensures
        sources_spec(massive + extra) == sources_spec(massive),
    decreases extra.len(),
{
    if extra.len() == 0 {
        assert(massive + extra =~= massive);
    } else {
        let e0 = extra.drop_last();
        lemma_massless_bodies_add_no_sources(massive, e0);
        assert((massive + extra).drop_last() =~= massive + e0);
        assert(!extra[extra.len() - 1]);
        assert((massive + extra).last() == extra.last());
    }
}

/// The bodies that act as gravity sources, in index order: those flagged
/// `massive`. A body without mass attracts nothing and gets no place in the tree.
pub fn source_ids(massive: &Vec<bool>) -> (r: Vec<ObjectId>)
    ensures
        r@ == sources_spec(massive@),
        forall|k: int| 0 <= k < r@.len() ==> (#[trigger] r@[k]).0 < massive@.len() && massive@[r@[k].0 as int],
        forall|k: int, j: int| 0 <= k < j < r@.len() ==> (#[trigger] r@[k]).0 < (#[trigger] r@[j]).0,
        forall|i: int| 0 <= i < massive@.len() && #[trigger] massive@[i] ==> exists|k: int|
            0 <= k < r@.len() && (#[trigger] r@[k]).0 == i,
{
    let mut r: Vec<ObjectId> = Vec::new();
    let mut i: usize = 0;
    while i < massive.len()
        invariant
            i <= massive@.len(),
            r@ == sources_spec(massive@.subrange(0, i as int)),
        decreases massive@.len() - i,
    {
        proof {
            assert(massive@.subrange(0, i + 1).drop_last() =~= massive@.subrange(0, i as int));
        }
        if massive[i] {
            r.push(ObjectId(i));
        }
        i = i + 1;
    }
    proof {
        assert(massive@.subrange(0, massive@.len() as int) =~= massive@);
        lemma_sources_spec_facts(massive@);
    }
    r
}

/// The smallest region holding the lattice points of all of `ids`.
fn bounding_region(points: &Vec<GridPoint>, ids: &Vec<ObjectId>) -> (r: Region)
    requires
        ids@.len() > 0,
        forall|k: int| 0 <= k < ids@.len() ==> #[trigger] ids@[k].0 < points@.len(),
    ensures
        r.wf(),
        forall|k: int| 0 <= k < ids@.len() ==> #[trigger] placed(points@, r, ids@[k]),
{
    let p0 = points[ids[0].0];
    let (mut x0, mut x1, mut y0, mut y1, mut z0, mut z1) = (p0.x, p0.x, p0.y, p0.y, p0.z, p0.z);
    let mut k: usize = 1;
    while k < ids.len()
        invariant
            1 <= k <= ids@.len(),
            forall|j: int| 0 <= j < ids@.len() ==> #[trigger] ids@[j].0 < points@.len(),
            x0 <= x1 && y0 <= y1 && z0 <= z1,
            forall|j: int|
                0 <= j < k ==> {
                    let p = #[trigger] pos(points@, ids@[j]);
                    x0 <= p.x <= x1 && y0 <= p.y <= y1 && z0 <= p.z <= z1
                },
        decreases ids@.len() - k,
    {
        let p = points[ids[k].0];
        if p.x < x0 {
            x0 = p.x;
        }
        if p.x > x1 {
            x1 = p.x;
        }
        if p.y < y0 {
            y0 = p.y;
        }
        if p.y > y1 {
            y1 = p.y;
        }
        if p.z < z0 {
            z0 = p.z;
        }
        if p.z > z1 {
            z1 = p.z;
        }
        k = k + 1;
    }
    Region {
        x_range: (x0 as u64, x1 as u64 + 1),
        y_range: (y0 as u64, y1 as u64 + 1),
        z_range: (z0 as u64, z1 as u64 + 1),
    }
}

impl FmmTree {
    /// Builds the octree over the bodies `ids` (indices into `points`) inside
    /// their bounding region. With no bodies the tree has no nodes.
    pub fn new(points: &Vec<GridPoint>, ids: Vec<ObjectId>) -> (t: FmmTree)
        requires
            forall|k: int| 0 <= k < ids@.len() ==> #[trigger] ids@[k].0 < points@.len(),
        ensures
            t.wf(points@),
            t.order@.to_multiset() == ids@.to_multiset(),
            t.nodes@.len() == 0 <==> ids@.len() == 0,
    {
        let mut t = FmmTree { nodes: Vec::new(), order: Vec::new() };
        if ids.len() == 0 {
            proof {
                vstd::seq_lib::to_multiset_len(ids@);
                vstd::seq_lib::to_multiset_len(t.order@);
                vstd::multiset::lemma_multiset_empty_len(ids@.to_multiset());
                vstd::multiset::lemma_multiset_empty_len(t.order@.to_multiset());
            }
            return t;
        }
        let region = bounding_region(points, &ids);
        let ghost ids_v = ids@;
        let root = t.build_node(points, region, ids);
        proof {
            assert(t.order@.subrange(0, t.order@.len() as int) == t.order@);
            assert forall|i: int| 0 <= i < t.nodes@.len() implies #[trigger] t.node_shape(i) by {
                assert(t.node_ok(points@, i));
            }
            vstd::seq_lib::to_multiset_len(ids_v);
            vstd::seq_lib::to_multiset_len(t.order@);
        }
        t
    }

    pub fn root_id(&self) -> (r: NodeId)
        ensures
            r.0 == 0,
    {
        NodeId(0)
    }

    /// Number of nodes; zero for a tree over no bodies.
    pub fn len(&self) -> (r: usize)
        ensures
            r == self.nodes@.len(),
    {
        self.nodes.len()
    }

    pub fn get(&self, node_id: NodeId) -> (r: &FmmNode)
        requires
            node_id.0 < self.nodes@.len(),
        ensures
            *r == self.nodes@[node_id.0 as int],
    {
        &self.nodes[node_id.0]
    }
}

/// Sum of the per-body quantity `w` over the bodies `order[lo..hi]`.
pub open spec fn run_sum(order: Seq<ObjectId>, lo: int, hi: int, w: spec_fn(ObjectId) -> int) -> int
    decreases hi - lo,
{
    if hi <= lo {
        0
    } else {
        run_sum(order, lo, hi - 1, w) + w(order[hi - 1])
    }
}

proof fn lemma_run_sum_split(order: Seq<ObjectId>, lo: int, mid: int, hi: int, w: spec_fn(ObjectId) -> int)
    requires
        lo <= mid <= hi,
    ensures
        run_sum(order, lo, hi, w) == run_sum(order, lo, mid, w) + run_sum(order, mid, hi, w),
    decreases hi - mid,
{
    if hi > mid {
        lemma_run_sum_split(order, lo, mid, hi - 1, w);
    }
}

impl FmmTree {
    /// Aggregate of `w` at node `i`, computed bottom-up: a leaf sums `w` over
    /// its bucket, an internal node adds up the aggregates of its children.
    pub open spec fn aggregate(&self, i: int, w: spec_fn(ObjectId) -> int) -> int
        decreases self.nodes@.len() - i, children_of(self.nodes@[i]).len() + 1,
    {
        if 0 <= i < self.nodes@.len() {
            let n = self.nodes@[i];
            if is_leaf(n) {
                run_sum(self.order@, n.first as int, n.last as int, w)
            } else {
                self.children_aggregate(i, 0, w)
            }
        } else {
            0
        }
    }

    /// Sum of the aggregates of the children `k..` of node `i`.
    pub open spec fn children_aggregate(&self, i: int, k: int, w: spec_fn(ObjectId) -> int) -> int
        decreases self.nodes@.len() - i, children_of(self.nodes@[i]).len() - k,
    {
        let ch = children_of(self.nodes@[i]);
        if 0 <= i && 0 <= k < ch.len() && i < ch[k].0 < self.nodes@.len() {
            self.aggregate(ch[k].0 as int, w) + self.children_aggregate(i, k + 1, w)
        } else {
            0
        }
    }

    /// For any per-body quantity `w` (a mass, or a mass times one coordinate),
    /// the aggregate that node `i` gets bottom-up from its children equals the
    /// sum of `w` over the bodies of its subtree, each counted once. At the
    /// root these are all the bodies the tree was built over.
    pub proof fn lemma_aggregate_is_subtree_sum(&self, points: Seq<GridPoint>, i: int, w: spec_fn(ObjectId) -> int)
        requires
            self.wf(points),
            0 <= i < self.nodes@.len(),
        ensures
            self.aggregate(i, w) == run_sum(self.order@, self.nodes@[i].first as int, self.nodes@[i].last as int, w),
        decreases self.nodes@.len() - i, children_of(self.nodes@[i]).len() + 1,
    {
        let n = self.nodes@[i];
        assert(self.node_ok(points, i));
        if !is_leaf(n) {
            self.lemma_children_aggregate(points, i, 0, w);
        }
    }

    proof fn lemma_children_aggregate(&self, points: Seq<GridPoint>, i: int, k: int, w: spec_fn(ObjectId) -> int)
        requires
            self.wf(points),
            0 <= i < self.nodes@.len(),
            !is_leaf(self.nodes@[i]),
            0 <= k < children_of(self.nodes@[i]).len(),
        ensures
            self.children_aggregate(i, k, w) == run_sum(
                self.order@,
                self.nodes@[children_of(self.nodes@[i])[k].0 as int].first as int,
                self.nodes@[i].last as int,
                w,
            ),
            self.nodes@[children_of(self.nodes@[i])[k].0 as int].first <= self.nodes@[i].last,
        decreases self.nodes@.len() - i, children_of(self.nodes@[i]).len() - k,
    {
        let n = self.nodes@[i];
        let ch = children_of(n);
        assert(self.node_ok(points, i));
        let c = ch[k].0 as int;
        assert(i < ch[k].0 < self.nodes@.len());
        self.lemma_aggregate_is_subtree_sum(points, c, w);
        if k + 1 < ch.len() {
            self.lemma_children_aggregate(points, i, k + 1, w);
            assert(self.nodes@[ch[k].0 as int].last == self.nodes@[ch[k + 1].0 as int].first);
            assert(self.node_ok(points, c));
            let c1 = ch[k + 1].0 as int;
            assert(i < ch[k + 1].0 < self.nodes@.len());
            assert(self.node_ok(points, c1));
            lemma_run_sum_split(self.order@, self.nodes@[c].first as int, self.nodes@[c].last as int, n.last as int, w);
        } else {
            assert(self.node_ok(points, c));
            assert(self.children_aggregate(i, k + 1, w) == 0);
        }
    }
}

} // verus!
