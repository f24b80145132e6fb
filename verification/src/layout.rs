//! The layout: where each node of the call tree stands on the image.
//!
//! A node is as wide as its share of all samples, and stands as far from the
//! left edge as the samples that lie to its left: those of the siblings
//! before it, at each level of its call path. Widths and offsets are counted
//! in thousandths of a pixel.

use crate::line::{key_lt, FrameKey, LineView};
use crate::options::Options;
use crate::profile::{
    is_prefix, lemma_extent, lemma_order_independent, lemma_path_lt_asymmetric,
    lemma_path_lt_longer, lemma_path_lt_turn, lemma_total_narrows, offset_at, path_lt, total_at,
};
use crate::tree::{
    counted, has_path, kid, kids_total, lemma_ancestor, lemma_trees_agree, listed, node_at,
    path_of, shaped, strictly_before, up, CallTree, Node,
};
use vstd::prelude::*;

verus! {

/// The width on the image of `samples` out of `total` samples, in
/// thousandths of a pixel, for an image `width` pixels wide and a scale of
/// `factor` thousandths.
pub open spec fn scaled(samples: int, total: int, width: int, factor: int) -> int {
    if total <= 0 {
        0
    } else {
        samples * width * factor / total
    }
}

/// The width on the image of `samples` out of `total` samples.
pub fn scale(samples: u64, total: u64, width: u32, factor: u32) -> (r: u64)
    requires
        samples <= total,
    ensures
        r == scaled(samples as int, total as int, width as int, factor as int),
{
    if total == 0 {
        return 0;
    }
    assert(0 <= width * factor <= 0xffff_ffff * 0xffff_ffff) by (nonlinear_arith)
        requires
            0 <= width <= 0xffff_ffff,
            0 <= factor <= 0xffff_ffff,
    ;
    let area: u128 = (width as u128) * (factor as u128);
    assert(0 <= samples * area <= 0xffff_ffff_ffff_ffff * 0xffff_ffff_ffff_ffff)
        by (nonlinear_arith)
        requires
            0 <= samples <= 0xffff_ffff_ffff_ffff,
            0 <= area <= 0xffff_ffff_ffff_ffff,
    ;
    let product: u128 = (samples as u128) * area;
    assert(samples * width * factor == samples * (width * factor)) by (nonlinear_arith);
    assert(product / (total as u128) <= area) by (nonlinear_arith)
        requires
            product == samples * area,
            0 <= samples <= total,
            0 < total,
            0 <= area,
    ;
    (product / (total as u128)) as u64
}

/// The place of a node on the image.
#[derive(Clone, Copy, Debug, PartialEq, Eq, Structural)]
pub struct Rect {
    /// The node, by its place in the tree.
    pub node: usize,
    /// The level of the node: 0 for the frames below the root.
    pub depth: usize,
    /// The distance from the left edge, in thousandths of a pixel.
    pub x: u64,
    /// The width, in thousandths of a pixel.
    pub width: u64,
}

/// The rectangles of the nodes that are wide enough to be drawn.
pub struct Layout {
    pub rects: Vec<Rect>,
    /// The number of levels that hold a rectangle.
    pub levels: usize,
}

/// The distance of the path `p` from the left edge.
pub open spec fn rect_x(lines: Seq<LineView>, opts: &Options, p: Seq<FrameKey>) -> int {
    scaled(
        offset_at(lines, p),
        total_at(lines, Seq::empty()),
        opts.image_width as int,
        opts.factor as int,
    )
}

/// The width of the path `p`.
pub open spec fn rect_width(lines: Seq<LineView>, opts: &Options, p: Seq<FrameKey>) -> int {
    scaled(
        total_at(lines, p),
        total_at(lines, Seq::empty()),
        opts.image_width as int,
        opts.factor as int,
    )
}

/// The path `p` is drawn: it is the path of a frame, and not narrower than
/// the least width.
pub open spec fn visible(lines: Seq<LineView>, opts: &Options, p: Seq<FrameKey>) -> bool {
    p.len() > 0 && rect_width(lines, opts, p) >= opts.min_width
}

/// `r` is the rectangle of a node of the tree that is drawn.
pub open spec fn rect_fits(tree: &CallTree, opts: &Options, r: Rect) -> bool {
    let p = tree.path(r.node as int);
    &&& 0 < r.node < tree.nodes@.len()
    &&& visible(tree.lines(), opts, p)
    &&& r.x == rect_x(tree.lines(), opts, p)
    &&& r.width == rect_width(tree.lines(), opts, p)
    &&& r.depth + 1 == p.len()
}

/// Some rectangle is that of node `i`.
pub open spec fn has_rect(rects: Seq<Rect>, i: int) -> bool {
    exists|j: int| 0 <= j < rects.len() && (#[trigger] rects[j]).node == i
}

/// The number of levels that the rectangles fill.
pub open spec fn spec_levels(rects: Seq<Rect>) -> int
    decreases rects.len(),
{
    if rects.len() == 0 {
        0
    } else if rects.last().depth + 1 > spec_levels(rects.drop_last()) {
        rects.last().depth + 1
    } else {
        spec_levels(rects.drop_last())
    }
}

/// The layout is that of the tree: every node that is drawn has its
/// rectangle and no other node has one, and `levels` counts the levels that
/// the rectangles fill.
pub open spec fn laid_out(tree: &CallTree, opts: &Options, layout: &Layout) -> bool {
    &&& forall|j: int|
        0 <= j < layout.rects@.len() ==> rect_fits(tree, opts, #[trigger] layout.rects@[j])
    &&& forall|i: int|
        0 < i < tree.nodes@.len() && visible(tree.lines(), opts, #[trigger] tree.path(i))
            ==> has_rect(layout.rects@, i)
    &&& forall|j: int|
        0 <= j < layout.rects@.len() ==> (#[trigger] layout.rects@[j]).depth < layout.levels
    &&& layout.levels > 0 ==> exists|j: int|
        0 <= j < layout.rects@.len() && (#[trigger] layout.rects@[j]).depth + 1 == layout.levels
    &&& in_path_order(tree.nodes@, layout.rects@)
}

/// The rectangles come in the order of their call paths.
pub open spec fn in_path_order(nodes: Seq<Node>, rects: Seq<Rect>) -> bool {
    forall|j: int, k: int|
        0 <= j < k < rects.len() ==> path_lt(
            path_of(nodes, (#[trigger] rects[j]).node as int),
            path_of(nodes, (#[trigger] rects[k]).node as int),
        )
}

/// The way to node `d` goes through a child of `n`, the `j`-th or a later one.
spec fn passes_child(nodes: Seq<Node>, n: int, j: int, d: int) -> bool {
    exists|t: int|
        j <= t < nodes[n].children@.len() && is_prefix(
            path_of(nodes, #[trigger] kid(nodes, n, t)),
            path_of(nodes, d),
        )
}

/// Node `c` is wide enough to be drawn, by the counts that the tree holds.
pub open spec fn drawn(nodes: Seq<Node>, opts: &Options, c: int) -> bool {
    scaled(
        nodes[c].total as int,
        nodes[0].total as int,
        opts.image_width as int,
        opts.factor as int,
    ) >= opts.min_width
}

/// The rectangle of node `c`, which stands `start` samples from the left
/// edge, at the level `depth`.
pub open spec fn rect_of(nodes: Seq<Node>, opts: &Options, c: int, start: int, depth: int) -> Rect {
    Rect {
        node: c as usize,
        depth: depth as usize,
        x: scaled(start, nodes[0].total as int, opts.image_width as int, opts.factor as int) as u64,
        width: scaled(
            nodes[c].total as int,
            nodes[0].total as int,
            opts.image_width as int,
            opts.factor as int,
        ) as u64,
    }
}

/// The rectangles below node `n`, from its `j`-th child on: each child that
/// is drawn, then what is drawn below it, then the next child. The node
/// stands `start` samples from the left edge and its children at the level
/// `depth`.
pub open spec fn rects_from(
    nodes: Seq<Node>,
    opts: &Options,
    n: int,
    j: int,
    start: int,
    depth: int,
) -> Seq<Rect>
    decreases nodes.len() - n, nodes[n].children@.len() - j,
{
    if 0 <= n < nodes.len() && 0 <= j < nodes[n].children@.len() {
        let c = kid(nodes, n, j);
        let s = start + kids_total(nodes, n, j);
        let first = if n < c < nodes.len() && drawn(nodes, opts, c) {
            seq![rect_of(nodes, opts, c, s, depth)] + rects_from(nodes, opts, c, 0, s, depth + 1)
        } else {
            Seq::empty()
        };
        first + rects_from(nodes, opts, n, j + 1, start, depth)
    } else {
        Seq::empty()
    }
}

/// The rectangles of the tree: those of the frames below the root from left
/// to right, each followed by the rectangles of what stands on it.
pub open spec fn spec_rects(nodes: Seq<Node>, opts: &Options) -> Seq<Rect> {
    rects_from(nodes, opts, 0, 0, 0, 0)
}

/// A node whose children are being placed: the node, its next child, where
/// the node starts, the samples of the children before the next, and the
/// level of the children.
#[derive(Clone, Copy)]
struct Visit {
    node: usize,
    next: usize,
    start: u64,
    run: u64,
    depth: usize,
}

/// What the visit holds is true of the tree.
spec fn visit_fits(tree: &CallTree, v: Visit) -> bool {
    &&& v.node < tree.nodes@.len()
    &&& v.next <= tree.nodes@[v.node as int].children@.len()
    &&& v.start == offset_at(tree.lines(), tree.path(v.node as int))
    &&& v.depth == tree.path(v.node as int).len()
    &&& v.run == kids_total(tree.nodes@, v.node as int, v.next as int)
}

/// The rectangles that the visits still owe, the last visit first.
spec fn remaining(nodes: Seq<Node>, opts: &Options, visits: Seq<Visit>) -> Seq<Rect>
    decreases visits.len(),
{
    if visits.len() == 0 {
        Seq::empty()
    } else {
        rects_from(
            nodes,
            opts,
            visits.last().node as int,
            visits.last().next as int,
            visits.last().start as int,
            visits.last().depth as int,
        ) + remaining(nodes, opts, visits.drop_last())
    }
}

/// The steps that are left below node `n`, from its `j`-th child on.
spec fn work(nodes: Seq<Node>, opts: &Options, n: int, j: int) -> nat
    decreases nodes.len() - n, nodes[n].children@.len() - j,
{
    if 0 <= n < nodes.len() && 0 <= j < nodes[n].children@.len() {
        let c = kid(nodes, n, j);
        let below = if n < c < nodes.len() && drawn(nodes, opts, c) {
            1 + work(nodes, opts, c, 0)
        } else {
            0
        };
        2 + below + work(nodes, opts, n, j + 1)
    } else {
        0
    }
}

/// The steps that are left for the visits.
spec fn total_work(nodes: Seq<Node>, opts: &Options, visits: Seq<Visit>) -> nat
    decreases visits.len(),
{
    if visits.len() == 0 {
        0
    } else {
        1 + work(nodes, opts, visits.last().node as int, visits.last().next as int) + total_work(
            nodes,
            opts,
            visits.drop_last(),
        )
    }
}

/// A call path is no longer than the place of its node is high, and only
/// the root has the empty path.
pub proof fn lemma_path_len(nodes: Seq<Node>, i: int)
    requires
        shaped(nodes),
        0 <= i < nodes.len(),
    ensures
        path_of(nodes, i).len() <= i,
        i > 0 ==> path_of(nodes, i).len() > 0,
    decreases i,
{
    if i > 0 {
        assert(up(nodes, i) < i);
        lemma_path_len(nodes, up(nodes, i));
    }
}

proof fn lemma_kids_total_grows(nodes: Seq<Node>, i: int, j: int, m: int)
    requires
        0 <= j <= m,
    ensures
        0 <= kids_total(nodes, i, j) <= kids_total(nodes, i, m),
    decreases m,
{
    if j < m {
        lemma_kids_total_grows(nodes, i, j, m - 1);
    } else if j > 0 {
        lemma_kids_total_grows(nodes, i, j - 1, j - 1);
    }
}

/// The rectangle of a path is the same for every order of the lines.
pub proof fn lemma_layout_order_independent(
    a: Seq<LineView>,
    b: Seq<LineView>,
    opts: &Options,
    p: Seq<FrameKey>,
)
    requires
        a.to_multiset() == b.to_multiset(),
    ensures
        rect_x(a, opts, p) == rect_x(b, opts, p),
        rect_width(a, opts, p) == rect_width(b, opts, p),
        visible(a, opts, p) == visible(b, opts, p),
{
    lemma_order_independent(a, b, p);
    lemma_order_independent(a, b, Seq::empty());
}

/// Two layouts of trees that hold the same lines, in whatever order, are the
/// same layout: a call path has a rectangle in the one if it has one in the
/// other, and then at the same place and of the same width.
pub proof fn lemma_layouts_agree(
    a: &CallTree,
    la: &Layout,
    b: &CallTree,
    lb: &Layout,
    opts: &Options,
    i: int,
    j: int,
)
    requires
        a.wf(),
        b.wf(),
        a.lines().to_multiset() == b.lines().to_multiset(),
        laid_out(a, opts, la),
        laid_out(b, opts, lb),
        0 < i < a.nodes@.len(),
        0 < j < b.nodes@.len(),
        a.path(i) == b.path(j),
    ensures
        has_rect(la.rects@, i) == has_rect(lb.rects@, j),
        forall|x: int, y: int|
            0 <= x < la.rects@.len() && 0 <= y < lb.rects@.len() && (#[trigger] la.rects@[x]).node
                == i && (#[trigger] lb.rects@[y]).node == j ==> la.rects@[x].depth
                == lb.rects@[y].depth && la.rects@[x].x == lb.rects@[y].x && la.rects@[x].width
                == lb.rects@[y].width,
{
    let p = a.path(i);
    lemma_layout_order_independent(a.lines(), b.lines(), opts, p);
    if has_rect(la.rects@, i) {
        let x = choose|x: int| 0 <= x < la.rects@.len() && (#[trigger] la.rects@[x]).node == i;
        assert(rect_fits(a, opts, la.rects@[x]));
        assert(visible(b.lines(), opts, b.path(j)));
    }
    if has_rect(lb.rects@, j) {
        let y = choose|y: int| 0 <= y < lb.rects@.len() && (#[trigger] lb.rects@[y]).node == j;
        assert(rect_fits(b, opts, lb.rects@[y]));
        assert(visible(a.lines(), opts, a.path(i)));
    }
    assert forall|x: int, y: int|
        0 <= x < la.rects@.len() && 0 <= y < lb.rects@.len() && (#[trigger] la.rects@[x]).node
            == i && (#[trigger] lb.rects@[y]).node == j implies la.rects@[x].depth
        == lb.rects@[y].depth && la.rects@[x].x == lb.rects@[y].x && la.rects@[x].width
        == lb.rects@[y].width by {
        assert(rect_fits(a, opts, la.rects@[x]));
        assert(rect_fits(b, opts, lb.rects@[y]));
    }
}

/// The call paths of the rectangles, in their order.
pub open spec fn rect_paths(nodes: Seq<Node>, rects: Seq<Rect>) -> Seq<Seq<FrameKey>> {
    Seq::new(rects.len(), |k: int| path_of(nodes, rects[k].node as int))
}

/// The paths come in their order, each before the next.
pub open spec fn paths_sorted(ps: Seq<Seq<FrameKey>>) -> bool {
    forall|j: int, k: int| 0 <= j < k < ps.len() ==> path_lt(#[trigger] ps[j], #[trigger] ps[k])
}

/// There is one way only to put a set of paths in order.
proof fn lemma_sorted_unique(a: Seq<Seq<FrameKey>>, b: Seq<Seq<FrameKey>>)
    requires
        paths_sorted(a),
        paths_sorted(b),
        forall|p: Seq<FrameKey>| a.contains(p) <==> b.contains(p),
    ensures
        a == b,
    decreases a.len(),
{
    if a.len() == 0 {
        if b.len() > 0 {
            assert(b.contains(b[0]));
            assert(a.contains(b[0]));
        }
        assert(a =~= b);
    } else {
        let x = a.last();
        assert(a[a.len() - 1] == x);
        assert(a.contains(x));
        assert(b.contains(x));
        let y = b.last();
        assert(b[b.len() - 1] == y);
        assert(b.contains(y));
        assert(a.contains(y));
        let m = choose|m: int| 0 <= m < b.len() && b[m] == x;
        let n = choose|n: int| 0 <= n < a.len() && a[n] == y;
        if x != y {
            assert(path_lt(b[m], b[b.len() - 1]));
            assert(path_lt(a[n], a[a.len() - 1]));
            lemma_path_lt_asymmetric(x, y);
        }
        let a1 = a.drop_last();
        let b1 = b.drop_last();
        assert forall|p: Seq<FrameKey>| a1.contains(p) <==> b1.contains(p) by {
            if a1.contains(p) {
                let i = choose|i: int| 0 <= i < a1.len() && a1[i] == p;
                assert(a[i] == p);
                assert(path_lt(a[i], a[a.len() - 1]));
                lemma_path_lt_asymmetric(p, x);
                assert(a.contains(p));
                let k = choose|k: int| 0 <= k < b.len() && b[k] == p;
                assert(k < b.len() - 1);
                assert(b1[k] == p);
            }
            if b1.contains(p) {
                let i = choose|i: int| 0 <= i < b1.len() && b1[i] == p;
                assert(b[i] == p);
                assert(path_lt(b[i], b[b.len() - 1]));
                lemma_path_lt_asymmetric(p, y);
                assert(b.contains(p));
                let k = choose|k: int| 0 <= k < a.len() && a[k] == p;
                assert(k < a.len() - 1);
                assert(a1[k] == p);
            }
        }
        assert forall|j: int, k: int| 0 <= j < k < a1.len() implies path_lt(
            #[trigger] a1[j],
            #[trigger] a1[k],
        ) by {
            assert(path_lt(a[j], a[k]));
        }
        assert forall|j: int, k: int| 0 <= j < k < b1.len() implies path_lt(
            #[trigger] b1[j],
            #[trigger] b1[k],
        ) by {
            assert(path_lt(b[j], b[k]));
        }
        lemma_sorted_unique(a1, b1);
        assert(a =~= a1.push(x));
        assert(b =~= b1.push(y));
    }
}

/// A path that has a rectangle in the layout of one tree has one in the
/// layout of the other.
proof fn lemma_path_shared(
    a: &CallTree,
    la: &Layout,
    b: &CallTree,
    lb: &Layout,
    opts: &Options,
    p: Seq<FrameKey>,
)
    requires
        a.wf(),
        b.wf(),
        a.lines().to_multiset() == b.lines().to_multiset(),
        laid_out(a, opts, la),
        laid_out(b, opts, lb),
        rect_paths(a.nodes@, la.rects@).contains(p),
    ensures
        rect_paths(b.nodes@, lb.rects@).contains(p),
{
    let pa = rect_paths(a.nodes@, la.rects@);
    let pb = rect_paths(b.nodes@, lb.rects@);
    let k = choose|k: int| 0 <= k < pa.len() && pa[k] == p;
    let r = la.rects@[k];
    assert(rect_fits(a, opts, r));
    lemma_trees_agree(a, b);
    assert(has_path(a.nodes@, p));
    assert(a@.dom().contains(p));
    assert(b@.dom().contains(p));
    assert(has_path(b.nodes@, p));
    let j = node_at(b.nodes@, p);
    assert(b.path(0) =~= Seq::<FrameKey>::empty());
    lemma_layout_order_independent(a.lines(), b.lines(), opts, p);
    assert(visible(b.lines(), opts, b.path(j)));
    assert(has_rect(lb.rects@, j));
    let y = choose|y: int| 0 <= y < lb.rects@.len() && (#[trigger] lb.rects@[y]).node == j;
    assert(pb[y] == p);
}

/// Two layouts of trees that hold the same lines, in whatever order, are
/// the same: as many rectangles, and one after the other the rectangles of
/// the same call paths, at the same places and of the same widths.
pub proof fn lemma_layouts_same(
    a: &CallTree,
    la: &Layout,
    b: &CallTree,
    lb: &Layout,
    opts: &Options,
)
    requires
        a.wf(),
        b.wf(),
        a.lines().to_multiset() == b.lines().to_multiset(),
        laid_out(a, opts, la),
        laid_out(b, opts, lb),
    ensures
        la.rects@.len() == lb.rects@.len(),
        la.levels == lb.levels,
        forall|k: int|
            0 <= k < la.rects@.len() ==> a.path((#[trigger] la.rects@[k]).node as int) == b.path(
                lb.rects@[k].node as int,
            ) && la.rects@[k].depth == lb.rects@[k].depth && la.rects@[k].x == lb.rects@[k].x
                && la.rects@[k].width == lb.rects@[k].width,
{
    let pa = rect_paths(a.nodes@, la.rects@);
    let pb = rect_paths(b.nodes@, lb.rects@);
    assert forall|j: int, k: int| 0 <= j < k < pa.len() implies path_lt(
        #[trigger] pa[j],
        #[trigger] pa[k],
    ) by {
        assert(path_lt(
            path_of(a.nodes@, la.rects@[j].node as int),
            path_of(a.nodes@, la.rects@[k].node as int),
        ));
    }
    assert forall|j: int, k: int| 0 <= j < k < pb.len() implies path_lt(
        #[trigger] pb[j],
        #[trigger] pb[k],
    ) by {
        assert(path_lt(
            path_of(b.nodes@, lb.rects@[j].node as int),
            path_of(b.nodes@, lb.rects@[k].node as int),
        ));
    }
    assert forall|p: Seq<FrameKey>| pa.contains(p) <==> pb.contains(p) by {
        if pa.contains(p) {
            lemma_path_shared(a, la, b, lb, opts, p);
        }
        if pb.contains(p) {
            lemma_path_shared(b, lb, a, la, opts, p);
        }
    }
    lemma_sorted_unique(pa, pb);
    lemma_levels_agree(a, la, b, lb, opts);
    assert forall|k: int| 0 <= k < la.rects@.len() implies a.path(
        (#[trigger] la.rects@[k]).node as int,
    ) == b.path(lb.rects@[k].node as int) && la.rects@[k].depth == lb.rects@[k].depth
        && la.rects@[k].x == lb.rects@[k].x && la.rects@[k].width == lb.rects@[k].width by {
        assert(pa[k] == pb[k]);
        assert(rect_fits(a, opts, la.rects@[k]));
        assert(rect_fits(b, opts, lb.rects@[k]));
        lemma_layout_order_independent(a.lines(), b.lines(), opts, pa[k]);
    }
}

proof fn lemma_levels_reached(
    a: &CallTree,
    la: &Layout,
    b: &CallTree,
    lb: &Layout,
    opts: &Options,
)
    requires
        a.wf(),
        b.wf(),
        a.lines().to_multiset() == b.lines().to_multiset(),
        laid_out(a, opts, la),
        laid_out(b, opts, lb),
    ensures
        la.levels <= lb.levels,
{
    if la.levels > 0 {
        let x = choose|x: int| 0 <= x < la.rects@.len() && (#[trigger] la.rects@[x]).depth + 1
            == la.levels;
        let r = la.rects@[x];
        assert(rect_fits(a, opts, r));
        let p = a.path(r.node as int);
        lemma_trees_agree(a, b);
        assert(has_path(a.nodes@, p));
        assert(a@.dom().contains(p));
        assert(b@.dom().contains(p));
        assert(has_path(b.nodes@, p));
        let j = node_at(b.nodes@, p);
        assert(b.path(0) =~= Seq::<FrameKey>::empty());
        assert(j != 0);
        lemma_layout_order_independent(a.lines(), b.lines(), opts, p);
        assert(visible(b.lines(), opts, b.path(j)));
        assert(has_rect(lb.rects@, j));
        let y = choose|y: int| 0 <= y < lb.rects@.len() && (#[trigger] lb.rects@[y]).node == j;
        assert(rect_fits(b, opts, lb.rects@[y]));
        assert(lb.rects@[y].depth < lb.levels);
    }
}

/// Two layouts of trees that hold the same lines, in whatever order, fill
/// the same number of levels, and so make images of the same height.
pub proof fn lemma_levels_agree(a: &CallTree, la: &Layout, b: &CallTree, lb: &Layout, opts: &Options)
    requires
        a.wf(),
        b.wf(),
        a.lines().to_multiset() == b.lines().to_multiset(),
        laid_out(a, opts, la),
        laid_out(b, opts, lb),
    ensures
        la.levels == lb.levels,
{
    lemma_levels_reached(a, la, b, lb, opts);
    lemma_levels_reached(b, lb, a, la, opts);
}

/// A path that is not drawn hides every path that goes on from it.
pub proof fn lemma_hidden_below(
    lines: Seq<LineView>,
    opts: &Options,
    p: Seq<FrameKey>,
    q: Seq<FrameKey>,
)
    requires
        crate::profile::is_prefix(p, q),
        p.len() > 0,
        !visible(lines, opts, p),
    ensures
        !visible(lines, opts, q),
{
    lemma_total_narrows(lines, p, q);
    let t = total_at(lines, Seq::empty());
    let w = opts.image_width as int;
    let f = opts.factor as int;
    let x = total_at(lines, q);
    let y = total_at(lines, p);
    if t > 0 {
        assert(x * w * f / t <= y * w * f / t) by (nonlinear_arith)
            requires
                0 <= x <= y,
                0 <= w,
                0 <= f,
                t > 0,
        ;
    }
}

/// A node that is too narrow to be drawn has no rectangle, and yet its
/// samples are among those of its parent, whose count is its own samples and
/// those of all its children, drawn or not.
pub proof fn lemma_culled_still_counted(tree: &CallTree, opts: &Options, layout: &Layout, i: int)
    requires
        tree.wf(),
        laid_out(tree, opts, layout),
        0 < i < tree.nodes@.len(),
        !visible(tree.lines(), opts, tree.path(i)),
    ensures
        !has_rect(layout.rects@, i),
        0 <= up(tree.nodes@, i) < i,
        tree.nodes@[i].total <= tree.nodes@[up(tree.nodes@, i)].total,
        tree.nodes@[up(tree.nodes@, i)].total == tree.nodes@[up(tree.nodes@, i)].self_count
            + kids_total(
            tree.nodes@,
            up(tree.nodes@, i),
            tree.nodes@[up(tree.nodes@, i)].children@.len() as int,
        ),
{
    let nodes = tree.nodes@;
    let q = up(nodes, i);
    if has_rect(layout.rects@, i) {
        let j = choose|j: int| 0 <= j < layout.rects@.len() && (#[trigger] layout.rects@[j]).node == i;
        assert(rect_fits(tree, opts, layout.rects@[j]));
    }
    assert(q < i);
    tree.lemma_node_total(q);
    assert(counted(nodes, tree.lines@, None, 0, 0, i));
    assert(counted(nodes, tree.lines@, None, 0, 0, q));
    let p = path_of(nodes, q);
    assert(path_of(nodes, i) == p.push(nodes[i].key()));
    assert(path_of(nodes, i).take(p.len() as int) =~= p);
    lemma_total_narrows(tree.lines@, p, path_of(nodes, i));
}

proof fn lemma_scaled_fits(samples: int, total: int, width: u32, factor: u32)
    requires
        0 <= samples <= total,
    ensures
        0 <= scaled(samples, total, width as int, factor as int) <= u64::MAX,
{
    if total > 0 {
        let w = width as int;
        let f = factor as int;
        assert(0 <= samples * w * f / total <= 0xffff_ffff * 0xffff_ffff) by (nonlinear_arith)
            requires
                0 <= samples <= total,
                total > 0,
                0 <= w <= 0xffff_ffff,
                0 <= f <= 0xffff_ffff,
        ;
    }
}

/// The rectangle that `rects_from` gives a child is the rectangle of its path.
proof fn lemma_rect_of_child(tree: &CallTree, opts: &Options, n: int, j: int, start: int, depth: int)
    requires
        tree.wf(),
        0 <= n < tree.nodes@.len(),
        0 <= j < tree.nodes@[n].children@.len(),
        start == offset_at(tree.lines(), tree.path(n)),
        depth == tree.path(n).len(),
    ensures
        ({
            let c = kid(tree.nodes@, n, j);
            let s = start + kids_total(tree.nodes@, n, j);
            &&& n < c < tree.nodes@.len()
            &&& s == offset_at(tree.lines(), tree.path(c))
            &&& depth + 1 == tree.path(c).len()
            &&& depth + 1 <= c
            &&& 0 <= s <= tree.nodes@[0].total
            &&& tree.nodes@[c].total <= tree.nodes@[0].total
            &&& tree.nodes@[0].total == total_at(tree.lines(), Seq::empty())
            &&& drawn(tree.nodes@, opts, c) == visible(tree.lines(), opts, tree.path(c))
            &&& drawn(tree.nodes@, opts, c) ==> rect_fits(
                tree,
                opts,
                rect_of(tree.nodes@, opts, c, s, depth),
            )
        }),
{
    let nodes = tree.nodes@;
    let lines = tree.lines@;
    let c = kid(nodes, n, j);
    let s = start + kids_total(nodes, n, j);
    let e = Seq::<FrameKey>::empty();
    assert(n < c < nodes.len() && up(nodes, c) == n);
    tree.lemma_kids_before(n, j);
    let p = path_of(nodes, n);
    let q = path_of(nodes, c);
    assert(q == p.push(nodes[c].key()));
    assert(q.drop_last() =~= p);
    assert(path_of(nodes, 0) == e);
    assert(counted(nodes, lines, None, 0, 0, 0));
    assert(counted(nodes, lines, None, 0, 0, c));
    lemma_extent(lines, q);
    lemma_path_len(nodes, c);
    lemma_scaled_fits(s, nodes[0].total as int, opts.image_width, opts.factor);
    lemma_scaled_fits(nodes[c].total as int, nodes[0].total as int, opts.image_width, opts.factor);
}

proof fn lemma_has_rect_left(a: Seq<Rect>, b: Seq<Rect>, d: int)
    requires
        has_rect(a, d),
    ensures
        has_rect(a + b, d),
{
    let k = choose|k: int| 0 <= k < a.len() && (#[trigger] a[k]).node == d;
    assert((a + b)[k] == a[k]);
}

proof fn lemma_has_rect_right(a: Seq<Rect>, b: Seq<Rect>, d: int)
    requires
        has_rect(b, d),
    ensures
        has_rect(a + b, d),
{
    let k = choose|k: int| 0 <= k < b.len() && (#[trigger] b[k]).node == d;
    assert((a + b)[a.len() + k] == b[k]);
}

/// Every rectangle that `rects_from` gives is the rectangle of a node that is drawn.
proof fn lemma_rects_fit(
    tree: &CallTree,
    opts: &Options,
    n: int,
    j: int,
    start: int,
    depth: int,
    k: int,
)
    requires
        tree.wf(),
        0 <= n < tree.nodes@.len(),
        0 <= j,
        start == offset_at(tree.lines(), tree.path(n)),
        depth == tree.path(n).len(),
        0 <= k < rects_from(tree.nodes@, opts, n, j, start, depth).len(),
    ensures
        rect_fits(tree, opts, rects_from(tree.nodes@, opts, n, j, start, depth)[k]),
    decreases tree.nodes@.len() - n, tree.nodes@[n].children@.len() - j,
{
    let nodes = tree.nodes@;
    let c = kid(nodes, n, j);
    let s = start + kids_total(nodes, n, j);
    lemma_rect_of_child(tree, opts, n, j, start, depth);
    let below = rects_from(nodes, opts, c, 0, s, depth + 1);
    let first = if drawn(nodes, opts, c) {
        seq![rect_of(nodes, opts, c, s, depth)] + below
    } else {
        Seq::<Rect>::empty()
    };
    let rest = rects_from(nodes, opts, n, j + 1, start, depth);
    assert(rects_from(nodes, opts, n, j, start, depth) == first + rest);
    if k < first.len() {
        if k > 0 {
            lemma_rects_fit(tree, opts, c, 0, s, depth + 1, k - 1);
            assert(first[k] == below[k - 1]);
        }
    } else {
        lemma_rects_fit(tree, opts, n, j + 1, start, depth, k - first.len());
    }
}

/// The child of `n` on the way to a node below `n`.
proof fn lemma_child_on_way(tree: &CallTree, n: int, d: int) -> (t: int)
    requires
        tree.wf(),
        0 <= n < tree.nodes@.len(),
        0 <= d < tree.nodes@.len(),
        strictly_before(tree.path(n), tree.path(d)),
    ensures
        0 <= t < tree.nodes@[n].children@.len(),
        is_prefix(tree.path(kid(tree.nodes@, n, t)), tree.path(d)),
{
    let nodes = tree.nodes@;
    let p = path_of(nodes, n);
    let q = path_of(nodes, d);
    let m = p.len() as int;
    let y = lemma_ancestor(nodes, d, m + 1);
    assert(path_of(nodes, y).len() == m + 1);
    assert(y > 0);
    assert(up(nodes, y) < y);
    let u = up(nodes, y);
    assert(path_of(nodes, y) == path_of(nodes, u).push(nodes[y].key()));
    assert(path_of(nodes, u) =~= q.take(m + 1).drop_last());
    assert(q.take(m + 1).drop_last() =~= q.take(m));
    assert(u == n);
    assert(listed(nodes, y));
    let t = choose|t: int|
        0 <= t < nodes[up(nodes, y)].children@.len() && #[trigger] kid(nodes, up(nodes, y), t) == y;
    assert(q.take(path_of(nodes, y).len() as int) == path_of(nodes, y));
    t
}

/// Every node that is drawn and stands below `n`, behind a child from the
/// `j`-th on, has its rectangle among those that `rects_from` gives.
proof fn lemma_rects_complete(
    tree: &CallTree,
    opts: &Options,
    n: int,
    j: int,
    t: int,
    start: int,
    depth: int,
    d: int,
)
    requires
        tree.wf(),
        0 <= n < tree.nodes@.len(),
        0 <= j <= t < tree.nodes@[n].children@.len(),
        0 < d < tree.nodes@.len(),
        start == offset_at(tree.lines(), tree.path(n)),
        depth == tree.path(n).len(),
        is_prefix(tree.path(kid(tree.nodes@, n, t)), tree.path(d)),
        visible(tree.lines(), opts, tree.path(d)),
    ensures
        has_rect(rects_from(tree.nodes@, opts, n, j, start, depth), d),
    decreases tree.nodes@.len() - n, tree.nodes@[n].children@.len() - j,
{
    let nodes = tree.nodes@;
    let c = kid(nodes, n, j);
    let s = start + kids_total(nodes, n, j);
    lemma_rect_of_child(tree, opts, n, j, start, depth);
    let below = rects_from(nodes, opts, c, 0, s, depth + 1);
    let first = if drawn(nodes, opts, c) {
        seq![rect_of(nodes, opts, c, s, depth)] + below
    } else {
        Seq::<Rect>::empty()
    };
    let rest = rects_from(nodes, opts, n, j + 1, start, depth);
    assert(rects_from(nodes, opts, n, j, start, depth) == first + rest);
    if j == t {
        if !visible(tree.lines(), opts, tree.path(c)) {
            lemma_path_len(nodes, c);
            lemma_hidden_below(tree.lines(), opts, tree.path(c), tree.path(d));
        }
        let head = seq![rect_of(nodes, opts, c, s, depth)];
        if tree.path(c).len() == tree.path(d).len() {
            assert(tree.path(d).take(tree.path(d).len() as int) =~= tree.path(d));
            assert(c == d);
            assert(head[0].node == d);
            assert(has_rect(head, d));
            lemma_has_rect_left(head, below, d);
        } else {
            let u = lemma_child_on_way(tree, c, d);
            lemma_rects_complete(tree, opts, c, 0, u, s, depth + 1, d);
            lemma_has_rect_right(head, below, d);
        }
        lemma_has_rect_left(first, rest, d);
    } else {
        lemma_rects_complete(tree, opts, n, j + 1, t, start, depth, d);
        lemma_has_rect_right(first, rest, d);
    }
}

/// The rectangles that `rects_from` gives come in the order of their call
/// paths, and each stands behind a child of `n`, the `j`-th or a later one.
proof fn lemma_rects_sorted(tree: &CallTree, opts: &Options, n: int, j: int, start: int, depth: int)
    requires
        tree.wf(),
        0 <= n < tree.nodes@.len(),
        0 <= j,
        start == offset_at(tree.lines(), tree.path(n)),
        depth == tree.path(n).len(),
    ensures
        in_path_order(tree.nodes@, rects_from(tree.nodes@, opts, n, j, start, depth)),
        forall|k: int|
            0 <= k < rects_from(tree.nodes@, opts, n, j, start, depth).len() ==> passes_child(
                tree.nodes@,
                n,
                j,
                (#[trigger] rects_from(tree.nodes@, opts, n, j, start, depth)[k]).node as int,
            ),
    decreases tree.nodes@.len() - n, tree.nodes@[n].children@.len() - j,
{
    let nodes = tree.nodes@;
    let all = rects_from(nodes, opts, n, j, start, depth);
    if j < nodes[n].children@.len() {
        let c = kid(nodes, n, j);
        let s = start + kids_total(nodes, n, j);
        lemma_rect_of_child(tree, opts, n, j, start, depth);
        let head = rect_of(nodes, opts, c, s, depth);
        let below = rects_from(nodes, opts, c, 0, s, depth + 1);
        let first = if drawn(nodes, opts, c) {
            seq![head] + below
        } else {
            Seq::<Rect>::empty()
        };
        let rest = rects_from(nodes, opts, n, j + 1, start, depth);
        assert(all == first + rest);
        lemma_rects_sorted(tree, opts, c, 0, s, depth + 1);
        lemma_rects_sorted(tree, opts, n, j + 1, start, depth);
        let p = path_of(nodes, n);
        let pc = path_of(nodes, c);
        assert(pc == p.push(nodes[c].key()));
        assert(pc.take(pc.len() as int) =~= pc);
        // each rectangle of the first part stands at the child or above it
        assert forall|k: int| 0 <= k < first.len() implies is_prefix(
            pc,
            path_of(nodes, (#[trigger] first[k]).node as int),
        ) by {
            if k > 0 {
                assert(first[k] == below[k - 1]);
                let d = below[k - 1].node as int;
                assert(passes_child(nodes, c, 0, d));
                let t = choose|t: int|
                    0 <= t < nodes[c].children@.len() && is_prefix(
                        path_of(nodes, #[trigger] kid(nodes, c, t)),
                        path_of(nodes, d),
                    );
                let g = kid(nodes, c, t);
                assert(c < g < nodes.len() && up(nodes, g) == c);
                assert(path_of(nodes, g) == pc.push(nodes[g].key()));
                assert(path_of(nodes, d).take(pc.len() as int) =~= path_of(nodes, g).take(
                    pc.len() as int,
                ));
                assert(path_of(nodes, g).take(pc.len() as int) =~= pc);
            }
        }
        assert forall|k: int| 0 <= k < all.len() implies passes_child(
            nodes,
            n,
            j,
            (#[trigger] all[k]).node as int,
        ) by {
            if k < first.len() {
                assert(all[k] == first[k]);
                assert(is_prefix(path_of(nodes, kid(nodes, n, j)), path_of(nodes, first[k].node as int)));
            } else {
                assert(all[k] == rest[k - first.len()]);
                let d = rest[k - first.len()].node as int;
                assert(passes_child(nodes, n, j + 1, d));
                let t = choose|t: int|
                    j + 1 <= t < nodes[n].children@.len() && is_prefix(
                        path_of(nodes, #[trigger] kid(nodes, n, t)),
                        path_of(nodes, d),
                    );
                assert(is_prefix(path_of(nodes, kid(nodes, n, t)), path_of(nodes, d)));
            }
        }
        assert forall|x: int, y: int| 0 <= x < y < all.len() implies path_lt(
            path_of(nodes, (#[trigger] all[x]).node as int),
            path_of(nodes, (#[trigger] all[y]).node as int),
        ) by {
            if y < first.len() {
                assert(all[x] == first[x]);
                assert(all[y] == first[y]);
                assert(first[y] == below[y - 1]);
                if x == 0 {
                    let d = below[y - 1].node as int;
                    assert(passes_child(nodes, c, 0, d));
                    let t = choose|t: int|
                        0 <= t < nodes[c].children@.len() && is_prefix(
                            path_of(nodes, #[trigger] kid(nodes, c, t)),
                            path_of(nodes, d),
                        );
                    let g = kid(nodes, c, t);
                    assert(c < g < nodes.len() && up(nodes, g) == c);
                    assert(path_of(nodes, g) == pc.push(nodes[g].key()));
                    assert(is_prefix(pc, path_of(nodes, d)));
                    lemma_path_lt_longer(pc, path_of(nodes, d));
                } else {
                    assert(first[x] == below[x - 1]);
                }
            } else if x >= first.len() {
                assert(all[x] == rest[x - first.len()]);
                assert(all[y] == rest[y - first.len()]);
            } else {
                assert(all[x] == first[x]);
                assert(all[y] == rest[y - first.len()]);
                let d = rest[y - first.len()].node as int;
                assert(passes_child(nodes, n, j + 1, d));
                let t = choose|t: int|
                    j + 1 <= t < nodes[n].children@.len() && is_prefix(
                        path_of(nodes, #[trigger] kid(nodes, n, t)),
                        path_of(nodes, d),
                    );
                let g = kid(nodes, n, t);
                assert(n < g < nodes.len() && up(nodes, g) == n);
                assert(path_of(nodes, g) == p.push(nodes[g].key()));
                assert(key_lt(nodes[kid(nodes, n, j)].key(), nodes[kid(nodes, n, t)].key()));
                lemma_path_lt_turn(
                    p,
                    nodes[c].key(),
                    nodes[g].key(),
                    path_of(nodes, first[x].node as int),
                    path_of(nodes, d),
                );
            }
        }
    }
}

/// The levels that rectangles fill lie below `spec_levels`, and the
/// highest is reached.
proof fn lemma_levels(rects: Seq<Rect>)
    ensures
        spec_levels(rects) >= 0,
        forall|j: int| 0 <= j < rects.len() ==> (#[trigger] rects[j]).depth < spec_levels(rects),
        spec_levels(rects) > 0 ==> exists|j: int|
            0 <= j < rects.len() && (#[trigger] rects[j]).depth + 1 == spec_levels(rects),
    decreases rects.len(),
{
    if rects.len() > 0 {
        let rest = rects.drop_last();
        lemma_levels(rest);
        assert forall|j: int| 0 <= j < rects.len() implies (#[trigger] rects[j]).depth
            < spec_levels(rects) by {
            if j < rest.len() {
                assert(rects[j] == rest[j]);
            }
        }
        if spec_levels(rects) == rects.last().depth + 1 {
            assert(rects[rects.len() - 1].depth + 1 == spec_levels(rects));
        } else {
            let j = choose|j: int|
                0 <= j < rest.len() && (#[trigger] rest[j]).depth + 1 == spec_levels(rest);
            assert(rects[j] == rest[j]);
        }
    }
}

/// The rectangles of the tree are those of the nodes that are drawn.
pub proof fn lemma_spec_rects(tree: &CallTree, opts: &Options, layout: &Layout)
    requires
        tree.wf(),
        layout.rects@ == spec_rects(tree.nodes@, opts),
        layout.levels == spec_levels(layout.rects@),
    ensures
        laid_out(tree, opts, layout),
{
    let nodes = tree.nodes@;
    let e = Seq::<FrameKey>::empty();
    assert(path_of(nodes, 0) == e);
    assert forall|j: int| 0 <= j < layout.rects@.len() implies rect_fits(
        tree,
        opts,
        #[trigger] layout.rects@[j],
    ) by {
        lemma_rects_fit(tree, opts, 0, 0, 0, 0, j);
    }
    assert forall|i: int|
        0 < i < nodes.len() && visible(tree.lines(), opts, #[trigger] tree.path(i)) implies has_rect(
        layout.rects@,
        i,
    ) by {
        lemma_path_len(nodes, i);
        assert(tree.path(i).take(0) =~= e);
        let t = lemma_child_on_way(tree, 0, i);
        lemma_rects_complete(tree, opts, 0, 0, t, 0, 0, i);
    }
    lemma_levels(layout.rects@);
    lemma_rects_sorted(tree, opts, 0, 0, 0, 0);
}

/// Places the nodes of the tree on the image.
///
/// The rectangles come in the order in which the frames stand: a frame,
/// then what stands on it from left to right, then the frame to its right.
/// A node stands right of the siblings that come before it in the order of
/// their frames, whether they are drawn or not: a node that is too narrow to
/// be drawn keeps its place in the tree and in the counts, and only has no
/// rectangle, nor has what stands on it.
pub fn layout(tree: &CallTree, opts: &Options) -> (l: Layout)
    requires
        tree.wf(),
    ensures
        l.rects@ == spec_rects(tree.nodes@, opts),
        l.levels == spec_levels(l.rects@),
        laid_out(tree, opts, &l),
{
    let ghost nodes = tree.nodes@;
    let ghost lines = tree.lines@;
    let ghost e = Seq::<FrameKey>::empty();
    let total = tree.nodes[0].total;
    let mut rects: Vec<Rect> = Vec::new();
    let mut levels: usize = 0;
    let mut visits: Vec<Visit> = Vec::new();
    visits.push(Visit { node: 0, next: 0, start: 0, run: 0, depth: 0 });
    proof {
        assert(path_of(nodes, 0) == e);
        assert(visit_fits(tree, visits@[0]));
        assert(visits@.drop_last() =~= Seq::<Visit>::empty());
        assert(remaining(nodes, opts, Seq::<Visit>::empty()) =~= Seq::<Rect>::empty());
        assert(visits@.last() == visits@[0]);
        assert(remaining(nodes, opts, visits@) =~= spec_rects(nodes, opts));
        assert(rects@ + remaining(nodes, opts, visits@) =~= spec_rects(nodes, opts));
    }
    while visits.len() > 0
        invariant
            tree.wf(),
            nodes == tree.nodes@,
            lines == tree.lines@,
            total == nodes[0].total,
            forall|k: int| 0 <= k < visits@.len() ==> visit_fits(tree, #[trigger] visits@[k]),
            rects@ + remaining(nodes, opts, visits@) == spec_rects(nodes, opts),
            levels == spec_levels(rects@),
        decreases total_work(nodes, opts, visits@),
    {
        let last = visits.len() - 1;
        let top = visits[last];
        let ghost before = visits@;
        let ghost under = visits@.drop_last();
        let ghost drawn_before = rects@;
        proof {
            assert(visit_fits(tree, before[last as int]));
        }
        if top.next == tree.nodes[top.node].children.len() {
            visits.pop();
            proof {
                assert(visits@ =~= under);
                assert(rects_from(
                    nodes,
                    opts,
                    top.node as int,
                    top.next as int,
                    top.start as int,
                    top.depth as int,
                ) =~= Seq::<Rect>::empty());
                assert(remaining(nodes, opts, before) =~= remaining(nodes, opts, under));
            }
        } else {
            let c = tree.nodes[top.node].children[top.next];
            proof {
                lemma_rect_of_child(
                    tree,
                    opts,
                    top.node as int,
                    top.next as int,
                    top.start as int,
                    top.depth as int,
                );
                assert(c as int == kid(nodes, top.node as int, top.next as int));
                tree.lemma_node_total(top.node as int);
                lemma_kids_total_grows(
                    nodes,
                    top.node as int,
                    top.next as int + 1,
                    nodes[top.node as int].children@.len() as int,
                );
            }
            let start = top.start + top.run;
            let width = scale(tree.nodes[c].total, total, opts.image_width, opts.factor);
            let moved = Visit {
                node: top.node,
                next: top.next + 1,
                start: top.start,
                run: top.run + tree.nodes[c].total,
                depth: top.depth,
            };
            visits.pop();
            visits.push(moved);
            let ghost rest = rects_from(
                nodes,
                opts,
                top.node as int,
                top.next + 1,
                top.start as int,
                top.depth as int,
            );
            let ghost below = rects_from(nodes, opts, c as int, 0, start as int, top.depth + 1);
            proof {
                assert(visit_fits(tree, moved));
                assert(visits@.drop_last() =~= under);
                assert(remaining(nodes, opts, visits@) == rest + remaining(nodes, opts, under));
            }
            if width >= opts.min_width as u64 {
                let x = scale(start, total, opts.image_width, opts.factor);
                let r = Rect { node: c, depth: top.depth, x, width };
                rects.push(r);
                if top.depth + 1 > levels {
                    levels = top.depth + 1;
                }
                let ghost held = visits@;
                visits.push(Visit { node: c, next: 0, start, run: 0, depth: top.depth + 1 });
                proof {
                    assert(r == rect_of(nodes, opts, c as int, start as int, top.depth as int));
                    assert(rects@.drop_last() =~= drawn_before);
                    assert(visits@.drop_last() =~= held);
                    assert(visit_fits(tree, visits@[visits@.len() - 1]));
                    assert forall|k: int| 0 <= k < visits@.len() implies visit_fits(
                        tree,
                        #[trigger] visits@[k],
                    ) by {
                        if k < under.len() {
                            assert(visits@[k] == before[k]);
                        }
                    }
                    let owed = remaining(nodes, opts, under);
                    assert(remaining(nodes, opts, before) == (seq![r] + below + rest) + owed);
                    assert(remaining(nodes, opts, visits@) == below + (rest + owed));
                    assert(rects@ + remaining(nodes, opts, visits@) =~= drawn_before + remaining(
                        nodes,
                        opts,
                        before,
                    ));
                    assert(total_work(nodes, opts, held) == 1 + work(
                        nodes,
                        opts,
                        top.node as int,
                        top.next + 1,
                    ) + total_work(nodes, opts, under));
                }
            } else {
                proof {
                    assert forall|k: int| 0 <= k < visits@.len() implies visit_fits(
                        tree,
                        #[trigger] visits@[k],
                    ) by {
                        if k < under.len() {
                            assert(visits@[k] == before[k]);
                        }
                    }
                    assert(remaining(nodes, opts, before) =~= rest + remaining(
                        nodes,
                        opts,
                        under,
                    ));
                }
            }
        }
    }
    let l = Layout { rects, levels };
    proof {
        assert(remaining(nodes, opts, visits@) =~= Seq::<Rect>::empty());
        assert(l.rects@ + Seq::<Rect>::empty() =~= l.rects@);
        lemma_spec_rects(tree, opts, &l);
    }
    l
}

} // verus!
