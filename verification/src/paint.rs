//! The color of each frame that is drawn.
//!
//! How the colors are found is decided once for a graph: by the change of
//! each node where the profile is differential; else from the palette map,
//! where the run has one; else by the hash of the name, where that was asked
//! for; else at random. A frame named `-` is a separator and always grey.

use crate::color::{
    diff_color, drawn, hashed_color, is_growth_hue, is_shrink_hue, lemma_diff_hue, next_state,
    random_color, separator_color, spec_band, spec_band_color, spec_diff_color,
    spec_hashed_color, Color, Palette, RandomSource,
};
use crate::layout::Rect;
use crate::line::Annotation;
use crate::options::Options;
use crate::palette_map::PaletteMap;
use crate::tree::{CallTree, Node};
use vstd::prelude::*;

verus! {

/// How the colors of a graph are found.
#[derive(Clone, Copy, Debug, PartialEq, Eq, Structural)]
pub enum Strategy {
    /// By the change of the node, beside the largest change `max`.
    Differential { max: u64, negate: bool },
    /// From the palette map, which learns the names it does not know.
    Consistent,
    /// By the hash of the name.
    Hashed,
    /// At random.
    Random,
}

/// Which of the ways applies, in the order of their rank.
pub open spec fn spec_strategy(
    differential: bool,
    max: u64,
    negate: bool,
    consistent: bool,
    hash: bool,
) -> Strategy {
    if differential {
        Strategy::Differential { max, negate }
    } else if consistent {
        Strategy::Consistent
    } else if hash {
        Strategy::Hashed
    } else {
        Strategy::Random
    }
}

/// Decides how the colors of the graph are found.
pub fn choose_strategy(tree: &CallTree, opts: &Options, consistent: bool) -> (s: Strategy)
    requires
        tree.wf(),
    ensures
        match s {
            Strategy::Differential { max, negate } => tree.spec_differential() && negate
                == opts.negate_differentials && tree.is_largest_change(max),
            _ => !tree.spec_differential() && s == spec_strategy(
                false,
                0,
                false,
                consistent,
                opts.hash,
            ),
        },
{
    if tree.is_differential() {
        Strategy::Differential { max: tree.max_delta(), negate: opts.negate_differentials }
    } else if consistent {
        Strategy::Consistent
    } else if opts.hash {
        Strategy::Hashed
    } else {
        Strategy::Random
    }
}

/// What the colors of the frames still to come depend on: the palette map
/// and the state of the random source.
pub struct PaintState {
    pub map: Map<Seq<u8>, Color>,
    pub state: u64,
}

/// The name of a separator: a single `-`.
pub open spec fn is_separator(name: Seq<u8>) -> bool {
    name == seq![0x2du8]
}

/// The color of a frame, and what the frames after it find.
pub open spec fn spec_frame_color(
    strategy: Strategy,
    palette: Palette,
    name: Seq<u8>,
    tag: Annotation,
    delta: int,
    st: PaintState,
) -> (Color, PaintState) {
    if is_separator(name) {
        (separator_color(), st)
    } else {
        match strategy {
            Strategy::Differential { max, negate } => (
                spec_diff_color(delta, max as int, negate),
                st,
            ),
            Strategy::Consistent => if name.contains(0x0a) {
                (spec_hashed_color(palette, name, tag), st)
            } else if st.map.contains_key(name) {
                (st.map[name], st)
            } else {
                (
                    spec_hashed_color(palette, name, tag),
                    PaintState {
                        map: st.map.insert(name, spec_hashed_color(palette, name, tag)),
                        state: st.state,
                    },
                )
            },
            Strategy::Hashed => (spec_hashed_color(palette, name, tag), st),
            Strategy::Random => (
                spec_band_color(
                    spec_band(palette, name, tag),
                    drawn(st.state),
                    drawn(next_state(st.state)),
                    drawn(next_state(next_state(st.state))),
                ),
                PaintState {
                    map: st.map,
                    state: next_state(next_state(next_state(st.state))),
                },
            ),
        }
    }
}

/// The color of a frame.
///
/// With the palette map, a name that the map knows has the color that the
/// map gives it; a name that it does not know gets the color of its hash,
/// and the map learns it.
pub fn frame_color(
    strategy: Strategy,
    palette: Palette,
    name: &[u8],
    tag: Annotation,
    delta: i128,
    map: &mut PaletteMap,
    source: &mut RandomSource,
) -> (c: Color)
    requires
        old(map).wf(),
    ensures
        final(map).wf(),
        (c, PaintState { map: final(map)@, state: final(source).state }) == spec_frame_color(
            strategy,
            palette,
            name@,
            tag,
            delta as int,
            PaintState { map: old(map)@, state: old(source).state },
        ),
{
    if name.len() == 1 && name[0] == 0x2d {
        assert(name@ =~= seq![0x2du8]);
        return Color { r: 160, g: 160, b: 160 };
    }
    assert(!is_separator(name@)) by {
        if is_separator(name@) {
            assert(name@.len() == 1 && name@[0] == 0x2d);
        }
    }
    match strategy {
        Strategy::Differential { max, negate } => diff_color(delta, max, negate),
        Strategy::Consistent => {
            match map.get(name) {
                Some(c) => {
                    proof {
                        if name@.contains(0x0a) {
                            let i = crate::palette_map::place_of(map.items(), name@);
                            assert(!map.items()[i].name.contains(0x0a));
                        }
                    }
                    c
                },
                None => {
                    let c = hashed_color(palette, name, tag);
                    let stored = map.insert(name, c);
                    c
                },
            }
        },
        Strategy::Hashed => hashed_color(palette, name, tag),
        Strategy::Random => random_color(palette, name, tag, source),
    }
}

/// In a differential graph a frame whose second count is above its count is
/// drawn in the hue of growth and one whose second count is below it in the
/// hue of shrinking; with the hues negated it is the other way round.
/// Separators alone are grey.
pub proof fn lemma_change_shows(
    max: u64,
    negate: bool,
    palette: Palette,
    name: Seq<u8>,
    tag: Annotation,
    count: int,
    second: int,
    st: PaintState,
)
    requires
        !is_separator(name),
        max > 0,
        second != count,
    ensures
        ({
            let c = spec_frame_color(
                Strategy::Differential { max, negate },
                palette,
                name,
                tag,
                second - count,
                st,
            ).0;
            &&& (second > count) != negate ==> is_growth_hue(c)
            &&& (second > count) == negate ==> is_shrink_hue(c)
        }),
{
    lemma_diff_hue(second - count, max as int, negate);
}

/// A name that the palette map has learnt keeps its color: the next frame of
/// that name, in this run or in a run that starts from the same map, has the
/// color of the first, whatever its annotation and the palette are then, and
/// the map stays as it is.
pub proof fn lemma_consistent_color(
    palette: Palette,
    name: Seq<u8>,
    tag: Annotation,
    later_palette: Palette,
    later_tag: Annotation,
    st: PaintState,
    later_state: u64,
)
    requires
        !name.contains(0x0a),
    ensures
        ({
            let first = spec_frame_color(Strategy::Consistent, palette, name, tag, 0, st);
            let again = spec_frame_color(
                Strategy::Consistent,
                later_palette,
                name,
                later_tag,
                0,
                PaintState { map: first.1.map, state: later_state },
            );
            &&& again.0 == first.0
            &&& again.1.map == first.1.map
            &&& !is_separator(name) ==> first.1.map.contains_key(name) && first.1.map[name]
                == first.0
        }),
{
}

/// The color of a frame by its hash does not depend on the run: two runs
/// that start from maps without the name give the frame the same color.
pub proof fn lemma_consistent_start(
    palette: Palette,
    name: Seq<u8>,
    tag: Annotation,
    a: PaintState,
    b: PaintState,
)
    requires
        !a.map.contains_key(name),
        !b.map.contains_key(name),
    ensures
        spec_frame_color(Strategy::Consistent, palette, name, tag, 0, a).0 == spec_frame_color(
            Strategy::Consistent,
            palette,
            name,
            tag,
            0,
            b,
        ).0,
{
}

/// The node that the `k`-th rectangle stands for.
pub open spec fn rect_node(nodes: Seq<Node>, rects: Seq<Rect>, k: int) -> Node {
    nodes[rects[k].node as int]
}

/// The colors of the first `k` rectangles, in order, and what the
/// rectangles after them find.
pub open spec fn painted(
    strategy: Strategy,
    palette: Palette,
    nodes: Seq<Node>,
    rects: Seq<Rect>,
    start: PaintState,
    k: int,
) -> (Seq<Color>, PaintState)
    decreases k,
{
    if k <= 0 {
        (Seq::empty(), start)
    } else {
        let before = painted(strategy, palette, nodes, rects, start, k - 1);
        let node = rect_node(nodes, rects, k - 1);
        let this = spec_frame_color(
            strategy,
            palette,
            node.name@,
            node.annotation,
            node.secondary - node.total,
            before.1,
        );
        (before.0.push(this.0), this.1)
    }
}

/// The colors of the rectangles, in their order.
pub fn paint(
    tree: &CallTree,
    rects: &Vec<Rect>,
    strategy: Strategy,
    palette: Palette,
    map: &mut PaletteMap,
    source: &mut RandomSource,
) -> (colors: Vec<Color>)
    requires
        old(map).wf(),
        forall|k: int| 0 <= k < rects@.len() ==> (#[trigger] rects@[k]).node < tree.nodes@.len(),
    ensures
        final(map).wf(),
        colors@.len() == rects@.len(),
        (colors@, PaintState { map: final(map)@, state: final(source).state }) == painted(
            strategy,
            palette,
            tree.nodes@,
            rects@,
            PaintState { map: old(map)@, state: old(source).state },
            rects@.len() as int,
        ),
{
    let ghost start = PaintState { map: map@, state: source.state };
    let mut colors: Vec<Color> = Vec::new();
    let mut k: usize = 0;
    while k < rects.len()
        invariant
            k <= rects@.len(),
            map.wf(),
            colors@.len() == k,
            forall|j: int| 0 <= j < rects@.len() ==> (#[trigger] rects@[j]).node < tree.nodes@.len(),
            (colors@, PaintState { map: map@, state: source.state }) == painted(
                strategy,
                palette,
                tree.nodes@,
                rects@,
                start,
                k as int,
            ),
        decreases rects@.len() - k,
    {
        let r = rects[k];
        let node = &tree.nodes[r.node];
        let delta = tree.delta(r.node);
        let c = frame_color(
            strategy,
            palette,
            node.name.as_slice(),
            node.annotation,
            delta,
            map,
            source,
        );
        colors.push(c);
        k += 1;
    }
    colors
}

} // verus!
