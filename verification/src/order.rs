//! The image does not depend on the order of the lines: two runs that merge
//! the same lines, in whatever order and from however many sources, and
//! start from the same palette map and the same random state, write the
//! same image, byte for byte.

use crate::color::{Color, Palette};
use crate::graph::{map_view, Graph};
use crate::layout::{lemma_layouts_same, lemma_path_len, rect_fits, Rect};
use crate::line::{FrameKey, LineView};
use crate::options::Options;
use crate::paint::{painted, rect_node, PaintState, Strategy};
use crate::palette_map::PaletteMap;
use crate::profile::lemma_order_independent;
use crate::svg::{
    escaped, frame_view, put_frame, put_frame_start, put_frames, put_label, put_path, put_rect,
    put_title, tag_text, FrameView,
};
use crate::tree::{
    counted, has_path, lemma_trees_agree, node_at, path_of, shaped, up, CallTree, Node,
};
use vstd::prelude::*;

verus! {

/// The text `w` with a call path after it: the labels of its frames, with
/// semicolons between them.
pub open spec fn put_keys(w: Seq<u8>, path: Seq<FrameKey>) -> Seq<u8>
    decreases path.len(),
{
    if path.len() == 0 {
        w
    } else {
        let before = if path.len() == 1 {
            w
        } else {
            put_keys(w, path.drop_last()).push(0x3b)
        };
        before + escaped(path.last().name) + tag_text(path.last().annotation)
    }
}

/// The text of the call path of a node is the text of its frames.
pub proof fn lemma_put_path(nodes: Seq<Node>, w: Seq<u8>, i: int)
    requires
        shaped(nodes),
        0 <= i < nodes.len(),
    ensures
        put_path(w, nodes, i) == put_keys(w, path_of(nodes, i)),
    decreases i,
{
    if i > 0 {
        assert(up(nodes, i) < i);
        let q = up(nodes, i);
        lemma_put_path(nodes, w, q);
        lemma_path_len(nodes, q);
        let p = path_of(nodes, i);
        assert(p == path_of(nodes, q).push(nodes[i].key()));
        assert(p.drop_last() =~= path_of(nodes, q));
        assert(p.last() == nodes[i].key());
    }
}

/// Two frames, each of its own tree, show the same: the same call path, the
/// same counts, the same place and the same color.
pub open spec fn same_frame(na: Seq<Node>, fa: FrameView, nb: Seq<Node>, fb: FrameView) -> bool {
    &&& 0 < fa.node < na.len()
    &&& 0 < fb.node < nb.len()
    &&& path_of(na, fa.node) == path_of(nb, fb.node)
    &&& fa.samples == fb.samples
    &&& fa.all == fb.all
    &&& fa.delta == fb.delta
    &&& fa.x == fb.x
    &&& fa.width == fb.width
    &&& fa.y == fb.y
    &&& fa.color == fb.color
}

proof fn lemma_same_name(na: Seq<Node>, i: int, nb: Seq<Node>, j: int)
    requires
        shaped(na),
        shaped(nb),
        0 < i < na.len(),
        0 < j < nb.len(),
        path_of(na, i) == path_of(nb, j),
    ensures
        na[i].name@ == nb[j].name@,
        na[i].annotation == nb[j].annotation,
{
    assert(up(na, i) < i);
    assert(up(nb, j) < j);
    assert(path_of(na, i).last() == na[i].key());
    assert(path_of(nb, j).last() == nb[j].key());
}

proof fn lemma_same_start(
    w: Seq<u8>,
    opts: &Options,
    na: Seq<Node>,
    fa: FrameView,
    nb: Seq<Node>,
    fb: FrameView,
)
    requires
        shaped(na),
        shaped(nb),
        same_frame(na, fa, nb, fb),
    ensures
        put_frame_start(w, opts, na, fa) == put_frame_start(w, opts, nb, fb),
{
    reveal(put_frame_start);
    lemma_same_name(na, fa.node, nb, fb.node);
    let given = crate::attrs::attributes_for(opts.func_frameattrs@, na[fa.node].name@);
    let classed = crate::svg::put_class(w, given);
    lemma_put_path(na, classed, fa.node);
    lemma_put_path(nb, classed, fb.node);
}

proof fn lemma_same_title(w: Seq<u8>, opts: &Options, name: Seq<u8>, fa: FrameView, fb: FrameView)
    requires
        fa.samples == fb.samples,
        fa.all == fb.all,
        fa.delta == fb.delta,
    ensures
        put_title(w, opts, name, fa) == put_title(w, opts, name, fb),
{
    reveal(put_title);
}

proof fn lemma_same_rect(w: Seq<u8>, opts: &Options, name: Seq<u8>, fa: FrameView, fb: FrameView)
    requires
        fa.x == fb.x,
        fa.y == fb.y,
        fa.width == fb.width,
        fa.color == fb.color,
    ensures
        put_rect(w, opts, fa) == put_rect(w, opts, fb),
        put_label(w, opts, name, fa) == put_label(w, opts, name, fb),
{
    reveal(put_rect);
    reveal(put_label);
}

/// Frames that show the same are written the same.
proof fn lemma_same_frame(
    w: Seq<u8>,
    opts: &Options,
    na: Seq<Node>,
    fa: FrameView,
    nb: Seq<Node>,
    fb: FrameView,
)
    requires
        shaped(na),
        shaped(nb),
        same_frame(na, fa, nb, fb),
    ensures
        put_frame(w, opts, na, fa) == put_frame(w, opts, nb, fb),
{
    lemma_same_name(na, fa.node, nb, fb.node);
    let name = na[fa.node].name@;
    lemma_same_start(w, opts, na, fa, nb, fb);
    let started = put_frame_start(w, opts, na, fa);
    lemma_same_title(started, opts, name, fa, fb);
    let titled = put_title(started, opts, name, fa) + crate::svg::lit("</title>");
    lemma_same_rect(titled, opts, name, fa, fb);
    lemma_same_rect(put_rect(titled, opts, fa), opts, name, fa, fb);
}

/// Rectangles that stand for frames that show the same, one after the
/// other, are written the same.
proof fn lemma_same_frames(
    w: Seq<u8>,
    opts: &Options,
    differential: bool,
    levels: int,
    na: Seq<Node>,
    ra: Seq<Rect>,
    ca: Seq<Color>,
    nb: Seq<Node>,
    rb: Seq<Rect>,
    cb: Seq<Color>,
    k: int,
)
    requires
        shaped(na),
        shaped(nb),
        forall|t: int|
            0 <= t < k ==> same_frame(
                na,
                #[trigger] frame_view(opts, na, differential, levels, ra[t], ca[t]),
                nb,
                frame_view(opts, nb, differential, levels, rb[t], cb[t]),
            ),
    ensures
        put_frames(w, opts, na, differential, levels, ra, ca, k) == put_frames(
            w,
            opts,
            nb,
            differential,
            levels,
            rb,
            cb,
            k,
        ),
    decreases k,
{
    if k > 0 {
        lemma_same_frames(w, opts, differential, levels, na, ra, ca, nb, rb, cb, k - 1);
        let fa = frame_view(opts, na, differential, levels, ra[k - 1], ca[k - 1]);
        let fb = frame_view(opts, nb, differential, levels, rb[k - 1], cb[k - 1]);
        assert(same_frame(na, fa, nb, fb));
        lemma_same_frame(
            put_frames(w, opts, na, differential, levels, ra, ca, k - 1),
            opts,
            na,
            fa,
            nb,
            fb,
        );
    }
}

/// Rectangles that stand for frames of the same names, annotations and
/// changes, one after the other, get the same colors.
proof fn lemma_same_colors(
    strategy: Strategy,
    palette: Palette,
    na: Seq<Node>,
    ra: Seq<Rect>,
    nb: Seq<Node>,
    rb: Seq<Rect>,
    start: PaintState,
    k: int,
)
    requires
        forall|t: int|
            0 <= t < k ==> (#[trigger] rect_node(na, ra, t)).name@ == rect_node(nb, rb, t).name@
                && rect_node(na, ra, t).annotation == rect_node(nb, rb, t).annotation
                && rect_node(na, ra, t).secondary - rect_node(na, ra, t).total == rect_node(
                nb,
                rb,
                t,
            ).secondary - rect_node(nb, rb, t).total,
    ensures
        painted(strategy, palette, na, ra, start, k) == painted(strategy, palette, nb, rb, start, k),
    decreases k,
{
    if k > 0 {
        lemma_same_colors(strategy, palette, na, ra, nb, rb, start, k - 1);
        assert(rect_node(na, ra, k - 1).name@ == rect_node(nb, rb, k - 1).name@);
    }
}

/// Trees that hold the same lines are both differential or both not.
proof fn lemma_same_kind(a: &CallTree, b: &CallTree)
    requires
        a.wf(),
        b.wf(),
        a.lines().to_multiset() == b.lines().to_multiset(),
    ensures
        a.spec_differential() == b.spec_differential(),
{
    let la = a.lines();
    let lb = b.lines();
    la.to_multiset_ensures();
    lb.to_multiset_ensures();
    if la.len() > 0 {
        assert(la.contains(la[0]));
        assert(la.to_multiset().count(la[0]) > 0);
        assert(lb.contains(la[0]));
        let i = choose|i: int| 0 <= i < lb.len() && lb[i] == la[0];
        assert((lb[i].delta is Some) == (lb[0].delta is Some));
    }
}

/// The node of the one tree that has the call path of a node of the other,
/// and the same counts.
proof fn lemma_twin(a: &CallTree, b: &CallTree, i: int) -> (j: int)
    requires
        a.wf(),
        b.wf(),
        a.lines().to_multiset() == b.lines().to_multiset(),
        0 <= i < a.nodes@.len(),
    ensures
        0 <= j < b.nodes@.len(),
        b.path(j) == a.path(i),
        b.nodes@[j].total == a.nodes@[i].total,
        b.nodes@[j].self_count == a.nodes@[i].self_count,
        b.nodes@[j].secondary == a.nodes@[i].secondary,
        (i == 0) == (j == 0),
{
    let p = a.path(i);
    lemma_trees_agree(a, b);
    assert(has_path(a.nodes@, p));
    assert(a@.dom().contains(p));
    assert(b@.dom().contains(p));
    assert(has_path(b.nodes@, p));
    let j = node_at(b.nodes@, p);
    lemma_order_independent(a.lines(), b.lines(), p);
    assert(counted(a.nodes@, a.lines(), None, 0, 0, i));
    assert(counted(b.nodes@, b.lines(), None, 0, 0, j));
    lemma_path_len(a.nodes@, i);
    lemma_path_len(b.nodes@, j);
    j
}

/// Trees that hold the same lines have the same largest change.
proof fn lemma_same_largest(a: &CallTree, b: &CallTree, ma: u64, mb: u64)
    requires
        a.wf(),
        b.wf(),
        a.lines().to_multiset() == b.lines().to_multiset(),
        a.is_largest_change(ma),
        b.is_largest_change(mb),
    ensures
        ma == mb,
{
    let i = choose|i: int|
        0 <= i < a.nodes@.len() && (#[trigger] a.spec_delta(i) == ma || a.spec_delta(i) == -ma);
    let j = lemma_twin(a, b, i);
    assert(-mb <= b.spec_delta(j) <= mb);
    let y = choose|y: int|
        0 <= y < b.nodes@.len() && (#[trigger] b.spec_delta(y) == mb || b.spec_delta(y) == -mb);
    let x = lemma_twin(b, a, y);
    assert(-ma <= a.spec_delta(x) <= ma);
}

/// Two graphs of the same lines, in whatever order, that were drawn with the
/// same settings from the same palette map and the same random state, are
/// the same: the same colors, the same image byte for byte, and the same
/// palette map and random state after the run.
pub proof fn lemma_graphs_agree(
    ga: &Graph,
    gb: &Graph,
    opts: &Options,
    la: Seq<LineView>,
    lb: Seq<LineView>,
    map: Option<PaletteMap>,
    state: u64,
    after_a: u64,
    after_b: u64,
)
    requires
        ga.is_graph_of(opts, la, map, state, after_a),
        gb.is_graph_of(opts, lb, map, state, after_b),
        la.to_multiset() == lb.to_multiset(),
    ensures
        ga.strategy == gb.strategy,
        ga.colors@ == gb.colors@,
        ga.svg@ == gb.svg@,
        map_view(ga.palette_map) == map_view(gb.palette_map),
        after_a == after_b,
{
    let a = &ga.tree;
    let b = &gb.tree;
    let na = a.nodes@;
    let nb = b.nodes@;
    let ra = ga.layout.rects@;
    let rb = gb.layout.rects@;
    lemma_layouts_same(a, &ga.layout, b, &gb.layout, opts);
    lemma_same_kind(a, b);
    match ga.strategy {
        Strategy::Differential { max, negate } => {
            match gb.strategy {
                Strategy::Differential { max: other, negate: _ } => {
                    lemma_same_largest(a, b, max, other);
                },
                _ => {},
            }
        },
        _ => {},
    }
    assert(ga.strategy == gb.strategy);
    let n = ra.len() as int;
    assert forall|t: int| 0 <= t < n implies {
        &&& 0 < (#[trigger] ra[t]).node < na.len()
        &&& 0 < rb[t].node < nb.len()
        &&& na[ra[t].node as int].name@ == nb[rb[t].node as int].name@
        &&& na[ra[t].node as int].annotation == nb[rb[t].node as int].annotation
        &&& na[ra[t].node as int].total == nb[rb[t].node as int].total
        &&& na[ra[t].node as int].secondary == nb[rb[t].node as int].secondary
    } by {
        let i = ra[t].node as int;
        let j = rb[t].node as int;
        assert(rect_fits(a, opts, ra[t]));
        assert(rect_fits(b, opts, rb[t]));
        lemma_same_name(na, i, nb, j);
        let p = a.path(i);
        lemma_order_independent(la, lb, p);
        assert(counted(na, la, None, 0, 0, i));
        assert(counted(nb, lb, None, 0, 0, j));
    }
    let start = PaintState { map: map_view(map), state };
    assert forall|t: int| 0 <= t < n implies (#[trigger] rect_node(na, ra, t)).name@ == rect_node(
        nb,
        rb,
        t,
    ).name@ && rect_node(na, ra, t).annotation == rect_node(nb, rb, t).annotation && rect_node(
        na,
        ra,
        t,
    ).secondary - rect_node(na, ra, t).total == rect_node(nb, rb, t).secondary - rect_node(
        nb,
        rb,
        t,
    ).total by {
        assert(0 < ra[t].node < na.len());
    }
    lemma_same_colors(ga.strategy, opts.colors, na, ra, nb, rb, start, n);
    assert(ga.colors@ == gb.colors@);
    let differential = a.spec_differential();
    let levels = ga.layout.levels as int;
    let e = Seq::<FrameKey>::empty();
    assert(path_of(na, 0) == e);
    assert(path_of(nb, 0) == e);
    assert(counted(na, la, None, 0, 0, 0));
    assert(counted(nb, lb, None, 0, 0, 0));
    lemma_order_independent(la, lb, e);
    assert forall|t: int| 0 <= t < n implies same_frame(
        na,
        #[trigger] frame_view(opts, na, differential, levels, ra[t], ga.colors@[t]),
        nb,
        frame_view(opts, nb, differential, levels, rb[t], gb.colors@[t]),
    ) by {
        assert(0 < ra[t].node < na.len());
    }
    let w = crate::svg::put_controls(
        crate::svg::put_heading(
            crate::svg::put_style(
                crate::svg::put_defs(
                    crate::svg::put_prolog(
                        Seq::empty(),
                        opts,
                        crate::svg::image_height(opts, levels),
                    ),
                    opts,
                ),
                opts,
            ),
            opts,
            crate::svg::image_height(opts, levels),
        ),
        opts,
        crate::svg::image_height(opts, levels),
    ) + crate::svg::lit("<g id=\"frames\">") + crate::svg::gap(opts);
    lemma_same_frames(
        w,
        opts,
        differential,
        levels,
        na,
        ra,
        ga.colors@,
        nb,
        rb,
        gb.colors@,
        n,
    );
}

} // verus!
