use crate::geometry::{lemma_enclosing_meets, Rectangle, Shape};
use crate::sort::{precedes, sort_rects, sorted};
use vstd::math::{max, min};
use vstd::multiset::Multiset;
use vstd::prelude::*;

verus! {

broadcast use {vstd::seq_lib::group_to_multiset_ensures, vstd::multiset::group_multiset_axioms};

/// The rectangle covering both `a` and `b`, untagged.
pub open spec fn merged(a: Rectangle, b: Rectangle) -> Rectangle {
    Rectangle {
        x_min: min(a.x_min as int, b.x_min as int) as i64,
        y_min: min(a.y_min as int, b.y_min as int) as i64,
        x_max: max(a.x_max as int, b.x_max as int) as i64,
        y_max: max(a.y_max as int, b.y_max as int) as i64,
        tag: None,
    }
}

/// The minimal untagged rectangle covering every rectangle of a non-empty `s`.
pub open spec fn span(s: Seq<Rectangle>) -> Rectangle
    decreases s.len(),
{
    if s.len() <= 1 {
        Rectangle { tag: None, ..s[0] }
    } else {
        merged(span(s.drop_last()), s.last())
    }
}

/// The span encloses each rectangle it was made from.
pub proof fn lemma_span_encloses(s: Seq<Rectangle>)
    requires
        s.len() > 0,
    ensures
        forall|i: int| 0 <= i < s.len() ==> #[trigger] span(s).encloses(s[i]),
    decreases s.len(),
{
    if s.len() > 1 {
        lemma_span_encloses(s.drop_last());
        assert forall|i: int| 0 <= i < s.len() implies #[trigger] span(s).encloses(s[i]) by {
            if i < s.len() - 1 {
                assert(span(s.drop_last()).encloses(s.drop_last()[i]));
            }
        }
    }
}

/// The rectangle covering `a` and `b`.
fn merge(a: &Rectangle, b: &Rectangle) -> (r: Rectangle)
    ensures
        r == merged(*a, *b),
{
    Rectangle {
        x_min: if a.x_min <= b.x_min { a.x_min } else { b.x_min },
        y_min: if a.y_min <= b.y_min { a.y_min } else { b.y_min },
        x_max: if a.x_max >= b.x_max { a.x_max } else { b.x_max },
        y_max: if a.y_max >= b.y_max { a.y_max } else { b.y_max },
        tag: None,
    }
}

/// The minimal rectangle covering every rectangle of `v`.
fn span_of(v: &Vec<Rectangle>) -> (r: Rectangle)
    requires
        v@.len() > 0,
    ensures
        r == span(v@),
{
    let mut acc = Rectangle { tag: None, ..v[0] };
    let mut i: usize = 1;
    assert(v@.take(1).len() == 1);
    while i < v.len()
        invariant
            1 <= i <= v@.len(),
            acc == span(v@.take(i as int)),
        decreases v@.len() - i,
    {
        assert(v@.take(i as int + 1).drop_last() =~= v@.take(i as int));
        acc = merge(&acc, &v[i]);
        i = i + 1;
    }
    assert(v@.take(i as int) =~= v@);
    acc
}

/// Leaf capacity used when none is given.
pub const DEFAULT_LEAF_CAPACITY: usize = 1000;

/// Why an index could not be built.
#[derive(Debug, Clone, Copy, PartialEq, Eq)]
pub enum TreeError {
    /// No shapes were given.
    EmptyCollection,
    /// The leaf capacity is zero.
    InvalidCapacity,
}

/// A group of member boxes, with the minimal box covering them.
#[derive(Debug)]
pub struct Leaf {
    pub geos: Vec<Rectangle>,
    pub region: Rectangle,
}

/// A slice of leaves, with the minimal box covering them.
#[derive(Debug)]
pub struct Node {
    pub leafs: Vec<Leaf>,
    pub region: Rectangle,
}

/// A packed index over the bounding boxes of a fixed collection of shapes.
pub struct ATree {
    geos: Vec<Shape>,
    nodes: Vec<Node>,
    region: Rectangle,
    nper_leaf: usize,
}

/// The bounding boxes of `g`, in order.
pub open spec fn shape_boxes(g: Seq<Shape>) -> Seq<Rectangle> {
    g.map_values(|s: Shape| s.box_of())
}

/// The region of each leaf.
pub open spec fn leaf_regions(ls: Seq<Leaf>) -> Seq<Rectangle> {
    ls.map_values(|l: Leaf| l.region)
}

/// The region of each node.
pub open spec fn node_regions(ns: Seq<Node>) -> Seq<Rectangle> {
    ns.map_values(|n: Node| n.region)
}

/// A leaf holds members, and its region is their span.
pub open spec fn leaf_ok(l: Leaf) -> bool {
    l.geos@.len() > 0 && l.region == span(l.geos@)
}

/// A node holds well-formed leaves, ordered by centre-y, and its region is
/// the span of theirs.
pub open spec fn node_ok(n: Node) -> bool {
    &&& n.leafs@.len() > 0
    &&& forall|j: int| 0 <= j < n.leafs@.len() ==> leaf_ok(#[trigger] n.leafs@[j])
    &&& n.region == span(leaf_regions(n.leafs@))
    &&& groups_ordered(leaf_sets(n.leafs@), false)
}

/// The members of all leaves of `ls`.
pub open spec fn leaves_members(ls: Seq<Leaf>) -> Multiset<Rectangle>
    decreases ls.len(),
{
    if ls.len() == 0 {
        Multiset::empty()
    } else {
        leaves_members(ls.drop_last()).add(ls.last().geos@.to_multiset())
    }
}

/// The members of all leaves of all nodes of `ns`.
pub open spec fn nodes_members(ns: Seq<Node>) -> Multiset<Rectangle>
    decreases ns.len(),
{
    if ns.len() == 0 {
        Multiset::empty()
    } else {
        nodes_members(ns.drop_last()).add(leaves_members(ns.last().leafs@))
    }
}

/// Every member of `m1` may come before every member of `m2`.
pub open spec fn all_precede(m1: Multiset<Rectangle>, m2: Multiset<Rectangle>, by_x: bool) -> bool {
    forall|a: Rectangle, b: Rectangle|
        #[trigger] m1.count(a) > 0 && #[trigger] m2.count(b) > 0 ==> precedes(a, b, by_x)
}

/// The groups follow one another in the order of `precedes`.
pub open spec fn groups_ordered(g: Seq<Multiset<Rectangle>>, by_x: bool) -> bool {
    forall|i: int, j: int| 0 <= i < j < g.len() ==> all_precede(#[trigger] g[i], #[trigger] g[j], by_x)
}

/// Every member of the groups may come before each entry of `s` from `from` on.
spec fn groups_before(g: Seq<Multiset<Rectangle>>, s: Seq<Rectangle>, from: int, by_x: bool) -> bool {
    forall|i: int, a: Rectangle, k: int|
        0 <= i < g.len() && from <= k < s.len() && #[trigger] g[i].count(a) > 0 ==> precedes(
            a,
            #[trigger] s[k],
            by_x,
        )
}

/// The members of each leaf.
pub open spec fn leaf_sets(ls: Seq<Leaf>) -> Seq<Multiset<Rectangle>> {
    ls.map_values(|l: Leaf| l.geos@.to_multiset())
}

/// The members of each node.
pub open spec fn node_sets(ns: Seq<Node>) -> Seq<Multiset<Rectangle>> {
    ns.map_values(|n: Node| leaves_members(n.leafs@))
}

/// A member of the chunk `start .. end` of `s` stands at an index of the chunk.
proof fn lemma_chunk_member(s: Seq<Rectangle>, start: int, end: int, b: Rectangle) -> (k: int)
    requires
        0 <= start <= end <= s.len(),
        s.subrange(start, end).to_multiset().count(b) > 0,
    ensures
        start <= k < end,
        s[k] == b,
{
    let c = s.subrange(start, end);
    assert(c.contains(b));
    let i = choose|i: int| 0 <= i < c.len() && c[i] == b;
    start + i
}

/// Cutting the next chunk off a sorted sequence keeps the groups in order.
proof fn lemma_groups_extend(
    g: Seq<Multiset<Rectangle>>,
    s: Seq<Rectangle>,
    start: int,
    end: int,
    by_x: bool,
)
    requires
        sorted(s, by_x),
        0 <= start <= end <= s.len(),
        groups_ordered(g, by_x),
        groups_before(g, s, start, by_x),
    ensures
        groups_ordered(g.push(s.subrange(start, end).to_multiset()), by_x),
        groups_before(g.push(s.subrange(start, end).to_multiset()), s, end, by_x),
{
    let c = s.subrange(start, end).to_multiset();
    let g2 = g.push(c);
    assert forall|i: int, j: int| 0 <= i < j < g2.len() implies all_precede(
        #[trigger] g2[i],
        #[trigger] g2[j],
        by_x,
    ) by {
        if j == g.len() {
            assert forall|a: Rectangle, b: Rectangle|
                #[trigger] g2[i].count(a) > 0 && #[trigger] g2[j].count(b) > 0 implies precedes(
                a,
                b,
                by_x,
            ) by {
                let k = lemma_chunk_member(s, start, end, b);
                assert(g[i].count(a) > 0);
                assert(precedes(a, s[k], by_x));
            }
        } else {
            assert(g2[i] == g[i] && g2[j] == g[j]);
        }
    }
    assert forall|i: int, a: Rectangle, k: int|
        0 <= i < g2.len() && end <= k < s.len() && #[trigger] g2[i].count(a) > 0 implies precedes(
        a,
        #[trigger] s[k],
        by_x,
    ) by {
        if i == g.len() {
            let k0 = lemma_chunk_member(s, start, end, a);
            assert(precedes(s[k0], s[k], by_x));
        } else {
            assert(g2[i] == g[i]);
        }
    }
}

/// `ceil(n / parts)`: the size of each chunk when `n` items are cut into `parts`.
pub open spec fn part_size(n: int, parts: int) -> int {
    if n <= 0 {
        0
    } else {
        (n - 1) / parts + 1
    }
}

/// Consecutive chunks of `per`: each holds between one and `per` members,
/// and all but the last exactly `per`.
pub open spec fn chunked(sizes: Seq<int>, per: int) -> bool {
    forall|i: int|
        0 <= i < sizes.len() ==> 1 <= #[trigger] sizes[i] <= per && (i < sizes.len() - 1 ==> sizes[i]
            == per)
}

/// `r` is the integer square root of `m`.
pub open spec fn is_floor_sqrt(r: int, m: int) -> bool {
    0 <= r && r * r <= m < (r + 1) * (r + 1)
}

/// How many members each leaf holds.
pub open spec fn leaf_sizes(ls: Seq<Leaf>) -> Seq<int> {
    ls.map_values(|l: Leaf| l.geos@.len() as int)
}

/// How many members each node holds.
pub open spec fn node_sizes(ns: Seq<Node>) -> Seq<int> {
    ns.map_values(|n: Node| leaves_total(n.leafs@) as int)
}

/// The `len` members of a node are cut into `len / cap + 1` leaves of equal
/// size, the last one possibly smaller.
pub open spec fn leaves_sized(n: Node, cap: int) -> bool {
    let len = leaves_total(n.leafs@) as int;
    chunked(leaf_sizes(n.leafs@), part_size(len, len / cap + 1))
}

/// The `n` boxes are cut into `floor(sqrt(n / cap)) + 1` slices of equal
/// size, the last one possibly smaller.
pub open spec fn nodes_sized(ns: Seq<Node>, n: int, cap: int) -> bool {
    exists|root: int| #[trigger] is_floor_sqrt(root, n / cap) && chunked(node_sizes(ns), part_size(n, root + 1))
}

/// The largest `k` with `k * k <= m`.
fn isqrt(m: usize) -> (r: usize)
    ensures
        r * r <= m < (r + 1) * (r + 1),
        r <= 0x1_0000_0000,
        r < usize::MAX,
{
    let mut k: u128 = 0;
    loop
        invariant
            k * k <= m,
            k <= m,
            k <= 0x1_0000_0000,
        decreases m - k,
    {
        let next = k + 1;
        assert(next * next <= 0x1_0000_0001 * 0x1_0000_0001) by (nonlinear_arith)
            requires
                0 <= next <= 0x1_0000_0001,
        ;
        if next * next > m as u128 {
            assert(k < usize::MAX) by (nonlinear_arith)
                requires
                    k * k <= m,
                    m <= usize::MAX,
                    usize::MAX >= 4,
            ;
            return k as usize;
        }
        assert(next <= next * next) by (nonlinear_arith)
            requires
                next >= 1,
        ;
        assert(next <= 0x1_0000_0000) by (nonlinear_arith)
            requires
                next * next <= m,
                m <= usize::MAX,
        ;
        k = next;
    }
}

/// `ceil(a / b)`.
fn div_ceil(a: usize, b: usize) -> (r: usize)
    requires
        b > 0,
    ensures
        r == if a == 0 {
            0
        } else {
            (a - 1) / b as int + 1
        },
{
    if a == 0 {
        0
    } else {
        assert((a - 1) / b as int <= a - 1) by (nonlinear_arith)
            requires
                b > 0,
                a >= 1,
        ;
        (a - 1) / b + 1
    }
}

/// The entries `start .. end` of `v`.
fn copy_range(v: &Vec<Rectangle>, start: usize, end: usize) -> (r: Vec<Rectangle>)
    requires
        start <= end <= v@.len(),
    ensures
        r@ == v@.subrange(start as int, end as int),
{
    let mut out: Vec<Rectangle> = Vec::new();
    let mut i: usize = start;
    while i < end
        invariant
            start <= i <= end <= v@.len(),
            out@ == v@.subrange(start as int, i as int),
        decreases end - i,
    {
        out.push(v[i]);
        assert(out@ =~= v@.subrange(start as int, i as int + 1));
        i = i + 1;
    }
    out
}

/// The multiset of a prefix grows by the next chunk.
proof fn lemma_take_extend(s: Seq<Rectangle>, start: int, end: int)
    requires
        0 <= start <= end <= s.len(),
    ensures
        s.take(end).to_multiset() == s.take(start).to_multiset().add(
            s.subrange(start, end).to_multiset(),
        ),
{
    assert(s.take(end) =~= s.take(start) + s.subrange(start, end));
    vstd::seq_lib::lemma_multiset_commutative(s.take(start), s.subrange(start, end));
}

/// The count of `b` among the members of `m` that meet `q`.
pub open spec fn selected(m: Multiset<Rectangle>, q: Rectangle, b: Rectangle) -> nat {
    if b.meets(q) {
        m.count(b)
    } else {
        0
    }
}

/// A leaf whose region misses `q` holds no member that meets `q`.
proof fn lemma_leaf_misses(l: Leaf, q: Rectangle)
    requires
        leaf_ok(l),
        !l.region.meets(q),
    ensures
        forall|b: Rectangle| b.meets(q) ==> #[trigger] l.geos@.to_multiset().count(b) == 0,
{
    lemma_span_encloses(l.geos@);
    assert forall|b: Rectangle| b.meets(q) implies #[trigger] l.geos@.to_multiset().count(b)
        == 0 by {
        if l.geos@.to_multiset().count(b) > 0 {
            assert(l.geos@.contains(b));
            let i = choose|i: int| 0 <= i < l.geos@.len() && l.geos@[i] == b;
            assert(span(l.geos@).encloses(l.geos@[i]));
            lemma_enclosing_meets(l.region, b, q);
        }
    }
}

/// Leaves whose regions all miss `q` hold no member that meets `q`.
proof fn lemma_leaves_miss(ls: Seq<Leaf>, q: Rectangle)
    requires
        forall|j: int| 0 <= j < ls.len() ==> leaf_ok(#[trigger] ls[j]) && !ls[j].region.meets(q),
    ensures
        forall|b: Rectangle| b.meets(q) ==> #[trigger] leaves_members(ls).count(b) == 0,
    decreases ls.len(),
{
    if ls.len() > 0 {
        let init = ls.drop_last();
        assert forall|j: int| 0 <= j < init.len() implies leaf_ok(#[trigger] init[j])
            && !init[j].region.meets(q) by {
            assert(init[j] == ls[j]);
        }
        lemma_leaves_miss(init, q);
        lemma_leaf_misses(ls.last(), q);
        assert forall|b: Rectangle| b.meets(q) implies #[trigger] leaves_members(ls).count(b)
            == 0 by {
            assert(leaves_members(init).count(b) == 0);
            assert(ls.last().geos@.to_multiset().count(b) == 0);
        }
    } else {
        assert forall|b: Rectangle| b.meets(q) implies #[trigger] leaves_members(ls).count(b)
            == 0 by {
            assert(leaves_members(ls) == Multiset::<Rectangle>::empty());
        }
    }
}

/// A node whose region misses `q` holds no member that meets `q`.
proof fn lemma_node_misses(n: Node, q: Rectangle)
    requires
        node_ok(n),
        !n.region.meets(q),
    ensures
        forall|b: Rectangle| b.meets(q) ==> #[trigger] leaves_members(n.leafs@).count(b) == 0,
{
    let rs = leaf_regions(n.leafs@);
    lemma_span_encloses(rs);
    assert forall|j: int| 0 <= j < n.leafs@.len() implies leaf_ok(#[trigger] n.leafs@[j])
        && !n.leafs@[j].region.meets(q) by {
        assert(span(rs).encloses(rs[j]));
        if n.leafs@[j].region.meets(q) {
            lemma_enclosing_meets(n.region, n.leafs@[j].region, q);
        }
    }
    lemma_leaves_miss(n.leafs@, q);
}

/// How many members the leaves of `ls` hold together.
pub open spec fn leaves_total(ls: Seq<Leaf>) -> nat
    decreases ls.len(),
{
    if ls.len() == 0 {
        0
    } else {
        leaves_total(ls.drop_last()) + ls.last().geos@.len()
    }
}

/// How many members the leaves of all nodes of `ns` hold together.
pub open spec fn nodes_total(ns: Seq<Node>) -> nat
    decreases ns.len(),
{
    if ns.len() == 0 {
        0
    } else {
        nodes_total(ns.drop_last()) + leaves_total(ns.last().leafs@)
    }
}

proof fn lemma_leaves_total(ls: Seq<Leaf>)
    ensures
        leaves_members(ls).len() == leaves_total(ls),
    decreases ls.len(),
{
    if ls.len() > 0 {
        lemma_leaves_total(ls.drop_last());
    }
}

proof fn lemma_nodes_total(ns: Seq<Node>)
    ensures
        nodes_members(ns).len() == nodes_total(ns),
    decreases ns.len(),
{
    if ns.len() > 0 {
        lemma_nodes_total(ns.drop_last());
        lemma_leaves_total(ns.last().leafs@);
    }
}

impl ATree {
    pub closed spec fn geos_spec(&self) -> Seq<Shape> {
        self.geos@
    }

    pub closed spec fn nodes_spec(&self) -> Seq<Node> {
        self.nodes@
    }

    pub closed spec fn region_spec(&self) -> Rectangle {
        self.region
    }

    pub closed spec fn capacity_spec(&self) -> nat {
        self.nper_leaf as nat
    }

    /// Every shape's box sits in exactly one leaf; each leaf, node and the
    /// root cover exactly what they hold; the nodes follow one another by
    /// centre-x, and the leaves of a node by centre-y; slices and leaves are
    /// sized as `nodes_sized` and `leaves_sized` say.
    pub open spec fn wf(&self) -> bool {
        &&& self.capacity_spec() > 0
        &&& self.nodes_spec().len() > 0
        &&& forall|i: int| 0 <= i < self.nodes_spec().len() ==> node_ok(#[trigger] self.nodes_spec()[i])
        &&& self.region_spec() == span(node_regions(self.nodes_spec()))
        &&& nodes_members(self.nodes_spec()) == shape_boxes(self.geos_spec()).to_multiset()
        &&& groups_ordered(node_sets(self.nodes_spec()), true)
        &&& forall|i: int|
            0 <= i < self.nodes_spec().len() ==> leaves_sized(
                #[trigger] self.nodes_spec()[i],
                self.capacity_spec() as int,
            )
        &&& nodes_sized(self.nodes_spec(), self.geos_spec().len() as int, self.capacity_spec() as int)
    }

    /// Builds the index over `geos`, with at most about `nper_leaf` boxes per
    /// leaf (1000 when `None`).
    pub fn new_from_geometries(geos: Vec<Shape>, nper_leaf: Option<usize>) -> (r: Result<
        ATree,
        TreeError,
    >)
        requires
            geos@.len() < usize::MAX,
            forall|i: int| 0 <= i < geos@.len() ==> (#[trigger] geos@[i]).wf(),
        ensures
            geos@.len() == 0 ==> r == Err::<ATree, TreeError>(TreeError::EmptyCollection),
            geos@.len() > 0 && nper_leaf == Some(0usize) ==> r == Err::<ATree, TreeError>(
                TreeError::InvalidCapacity,
            ),
            geos@.len() > 0 && nper_leaf != Some(0usize) ==> r is Ok,
            r is Ok ==> {
                let t = r->Ok_0;
                &&& t.wf()
                &&& t.geos_spec() == geos@
                &&& t.capacity_spec() == match nper_leaf {
                    Some(c) => c as nat,
                    None => DEFAULT_LEAF_CAPACITY as nat,
                }
                &&& nodes_members(t.nodes_spec()) == shape_boxes(geos@).to_multiset()
            },
    {
        if geos.len() == 0 {
            return Err(TreeError::EmptyCollection);
        }
        let nper_leaf = match nper_leaf {
            Some(c) => c,
            None => DEFAULT_LEAF_CAPACITY,
        };
        if nper_leaf == 0 {
            return Err(TreeError::InvalidCapacity);
        }
        let (nodes, region) = ATree::pack(&geos, nper_leaf);
        Ok(ATree { geos, nodes, region, nper_leaf })
    }

    /// The boxes of the shapes, ordered by centre-x and cut into slices,
    /// and the region covering them all.
    fn pack(geos: &Vec<Shape>, nper_leaf: usize) -> (r: (Vec<Node>, Rectangle))
        requires
            0 < geos@.len() < usize::MAX,
            nper_leaf > 0,
            forall|i: int| 0 <= i < geos@.len() ==> (#[trigger] geos@[i]).wf(),
        ensures
            r.0@.len() > 0,
            forall|i: int| 0 <= i < r.0@.len() ==> node_ok(#[trigger] r.0@[i]),
            r.1 == span(node_regions(r.0@)),
            nodes_members(r.0@) == shape_boxes(geos@).to_multiset(),
            groups_ordered(node_sets(r.0@), true),
            forall|i: int| 0 <= i < r.0@.len() ==> leaves_sized(#[trigger] r.0@[i], nper_leaf as int),
            nodes_sized(r.0@, geos@.len() as int, nper_leaf as int),
    {
        let mut boxes: Vec<Rectangle> = Vec::new();
        let mut i: usize = 0;
        while i < geos.len()
            invariant
                i <= geos@.len(),
                forall|k: int| 0 <= k < geos@.len() ==> (#[trigger] geos@[k]).wf(),
                boxes@ == shape_boxes(geos@.take(i as int)),
            decreases geos@.len() - i,
        {
            boxes.push(geos[i].bounding_box());
            assert(boxes@ =~= shape_boxes(geos@.take(i as int + 1)));
            i = i + 1;
        }
        assert(geos@.take(i as int) =~= geos@);
        sort_rects(&mut boxes, true);
        let n = boxes.len();
        let nslices = isqrt(n / nper_leaf) + 1;
        let per = div_ceil(n, nslices);
        let mut nodes: Vec<Node> = Vec::new();
        let mut regions: Vec<Rectangle> = Vec::new();
        let mut start: usize = 0;
        while start < n
            invariant
                n == boxes@.len(),
                n < usize::MAX,
                nper_leaf > 0,
                per >= 1,
                start <= n,
                start == 0 <==> nodes@.len() == 0,
                forall|j: int| 0 <= j < nodes@.len() ==> node_ok(#[trigger] nodes@[j]),
                regions@ == node_regions(nodes@),
                nodes_members(nodes@) == boxes@.take(start as int).to_multiset(),
                sorted(boxes@, true),
                groups_ordered(node_sets(nodes@), true),
                groups_before(node_sets(nodes@), boxes@, start as int, true),
                is_floor_sqrt(nslices - 1, (n / nper_leaf) as int),
                per == part_size(n as int, nslices as int),
                forall|i: int| 0 <= i < nodes@.len() ==> leaves_sized(#[trigger] nodes@[i], nper_leaf as int),
                forall|i: int| 0 <= i < nodes@.len() ==> 1 <= #[trigger] node_sizes(nodes@)[i] <= per,
                forall|i: int|
                    0 <= i < nodes@.len() && (i < nodes@.len() - 1 || start < n) ==> #[trigger] node_sizes(
                        nodes@,
                    )[i] == per,
            decreases n - start,
        {
            let end = if n - start > per { start + per } else { n };
            let mut chunk = copy_range(&boxes, start, end);
            let node = ATree::pack_slice(&mut chunk, nper_leaf);
            let region = node.region;
            proof {
                lemma_take_extend(boxes@, start as int, end as int);
                assert(nodes@.push(node).drop_last() =~= nodes@);
                assert(node_regions(nodes@.push(node)) =~= regions@.push(region));
                lemma_groups_extend(node_sets(nodes@), boxes@, start as int, end as int, true);
                assert(node_sets(nodes@.push(node)) =~= node_sets(nodes@).push(
                    boxes@.subrange(start as int, end as int).to_multiset(),
                ));
                assert(node_sizes(nodes@.push(node)) =~= node_sizes(nodes@).push(end - start));
            }
            nodes.push(node);
            regions.push(region);
            start = end;
        }
        assert(boxes@.take(n as int) =~= boxes@);
        assert(chunked(node_sizes(nodes@), part_size(n as int, nslices as int)));
        let region = span_of(&regions);
        (nodes, region)
    }

    /// The leaves of a built index hold, together, as many members as there
    /// are indexed shapes, and each shape's box sits in exactly one leaf
    /// (as often as it occurs among the shapes).
    pub proof fn lemma_partition_complete(&self)
        requires
            self.wf(),
        ensures
            nodes_total(self.nodes_spec()) == self.geos_spec().len(),
            forall|b: Rectangle|
                #[trigger] nodes_members(self.nodes_spec()).count(b) == shape_boxes(
                    self.geos_spec(),
                ).to_multiset().count(b),
    {
        lemma_nodes_total(self.nodes_spec());
    }

    /// The slices of the index, in order.
    pub fn nodes(&self) -> (r: &Vec<Node>)
        ensures
            r@ == self.nodes_spec(),
    {
        &self.nodes
    }

    /// The region covering every indexed box.
    pub fn region(&self) -> (r: Rectangle)
        ensures
            r == self.region_spec(),
    {
        self.region
    }

    /// The boxes of the indexed shapes that overlap `region`'s box, in slice
    /// order, then leaf order, then member order.
    pub fn search(&self, region: &Shape) -> (r: Vec<Rectangle>)
        requires
            self.wf(),
            region.wf(),
        ensures
            forall|b: Rectangle|
                #[trigger] r@.to_multiset().count(b) == selected(
                    shape_boxes(self.geos_spec()).to_multiset(),
                    region.box_of(),
                    b,
                ),
    {
        let q = region.bounding_box();
        let mut out: Vec<Rectangle> = Vec::new();
        let mut i: usize = 0;
        while i < self.nodes.len()
            invariant
                self.wf(),
                q == region.box_of(),
                i <= self.nodes@.len(),
                forall|b: Rectangle|
                    #[trigger] out@.to_multiset().count(b) == selected(
                        nodes_members(self.nodes@.take(i as int)),
                        q,
                        b,
                    ),
            decreases self.nodes@.len() - i,
        {
            let node = &self.nodes[i];
            let ghost before = out@;
            assert(node_ok(*node));
            assert(self.nodes@.take(i as int + 1).drop_last() =~= self.nodes@.take(i as int));
            if node.region.overlaps(&q) {
                let mut j: usize = 0;
                while j < node.leafs.len()
                    invariant
                        node_ok(*node),
                        j <= node.leafs@.len(),
                        forall|b: Rectangle|
                            #[trigger] out@.to_multiset().count(b) == before.to_multiset().count(b)
                                + selected(leaves_members(node.leafs@.take(j as int)), q, b),
                    decreases node.leafs@.len() - j,
                {
                    let leaf = &node.leafs[j];
                    let ghost mid = out@;
                    assert(leaf_ok(*leaf));
                    assert(node.leafs@.take(j as int + 1).drop_last() =~= node.leafs@.take(j as int));
                    if leaf.region.overlaps(&q) {
                        let mut k: usize = 0;
                        while k < leaf.geos.len()
                            invariant
                                k <= leaf.geos@.len(),
                                forall|b: Rectangle|
                                    #[trigger] out@.to_multiset().count(b) == mid.to_multiset().count(b)
                                        + selected(leaf.geos@.take(k as int).to_multiset(), q, b),
                            decreases leaf.geos@.len() - k,
                        {
                            let g = leaf.geos[k];
                            assert(leaf.geos@.take(k as int + 1) =~= leaf.geos@.take(k as int).push(g));
                            if g.overlaps(&q) {
                                out.push(g);
                            }
                            k = k + 1;
                        }
                        assert(leaf.geos@.take(k as int) =~= leaf.geos@);
                    } else {
                        proof {
                            lemma_leaf_misses(*leaf, q);
                        }
                    }
                    j = j + 1;
                }
                assert(node.leafs@.take(j as int) =~= node.leafs@);
            } else {
                proof {
                    lemma_node_misses(*node, q);
                }
            }
            i = i + 1;
        }
        assert(self.nodes@.take(i as int) =~= self.nodes@);
        out
    }

    /// Packs one slice: orders it by centre-y and cuts it into leaves.
    fn pack_slice(slice: &mut Vec<Rectangle>, nper_leaf: usize) -> (r: Node)
        requires
            0 < old(slice)@.len() < usize::MAX,
            nper_leaf > 0,
        ensures
            node_ok(r),
            leaves_members(r.leafs@) == old(slice)@.to_multiset(),
            leaves_total(r.leafs@) == old(slice)@.len(),
            leaves_sized(r, nper_leaf as int),
    {
        sort_rects(slice, false);
        let n = slice.len();
        assert((n as int) / (nper_leaf as int) <= n as int) by (nonlinear_arith)
            requires
                nper_leaf > 0,
        ;
        let nleaves = n / nper_leaf + 1;
        let per = div_ceil(n, nleaves);
        let mut leafs: Vec<Leaf> = Vec::new();
        let mut regions: Vec<Rectangle> = Vec::new();
        let mut start: usize = 0;
        while start < n
            invariant
                n == slice@.len(),
                per >= 1,
                start <= n,
                start == 0 <==> leafs@.len() == 0,
                forall|j: int| 0 <= j < leafs@.len() ==> leaf_ok(#[trigger] leafs@[j]),
                regions@ == leaf_regions(leafs@),
                leaves_members(leafs@) == slice@.take(start as int).to_multiset(),
                sorted(slice@, false),
                groups_ordered(leaf_sets(leafs@), false),
                groups_before(leaf_sets(leafs@), slice@, start as int, false),
                per == part_size(n as int, (n / nper_leaf + 1) as int),
                forall|i: int| 0 <= i < leafs@.len() ==> 1 <= #[trigger] leaf_sizes(leafs@)[i] <= per,
                forall|i: int|
                    0 <= i < leafs@.len() && (i < leafs@.len() - 1 || start < n) ==> #[trigger] leaf_sizes(
                        leafs@,
                    )[i] == per,
            decreases n - start,
        {
            let end = if n - start > per { start + per } else { n };
            let geos = copy_range(slice, start, end);
            let region = span_of(&geos);
            let leaf = Leaf { geos, region };
            proof {
                lemma_take_extend(slice@, start as int, end as int);
                assert(leafs@.push(leaf).drop_last() =~= leafs@);
                assert(leaf_regions(leafs@.push(leaf)) =~= regions@.push(region));
                lemma_groups_extend(leaf_sets(leafs@), slice@, start as int, end as int, false);
                assert(leaf_sets(leafs@.push(leaf)) =~= leaf_sets(leafs@).push(
                    slice@.subrange(start as int, end as int).to_multiset(),
                ));
                assert(leaf_sizes(leafs@.push(leaf)) =~= leaf_sizes(leafs@).push(end - start));
            }
            leafs.push(leaf);
            regions.push(region);
            start = end;
        }
        assert(slice@.take(n as int) =~= slice@);
        proof {
            lemma_leaves_total(leafs@);
        }
        let region = span_of(&regions);
        Node { leafs, region }
    }
}

} // verus!
