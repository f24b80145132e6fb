//! From sample lines to the image: the lines are read and merged into the
//! call tree, the tree is laid out, the frames are given their colors, and
//! the image is written.

use crate::color::{Color, RandomSource};
use crate::layout::{laid_out, layout, Layout};
use crate::line::{parse_line, spec_parse_line, LineError, LineView, StackLine};
use crate::options::Options;
use crate::paint::{choose_strategy, paint, painted, spec_strategy, PaintState, Strategy};
use crate::palette_map::PaletteMap;
use crate::svg::{lit, render, spec_svg, write_lit};
use crate::text::{
    copy_range, decimal_digits, push_all, push_decimal, spans_hold, split_on, split_spans,
};
use crate::tree::{
    build, first_rejected, lines_view, spec_check, CallTree, Rejected, TreeError,
};
use vstd::prelude::*;
use vstd::slice::slice_subrange;

verus! {

/// A graph: the call tree, the rectangles of its nodes, how the colors were
/// found, the color of each rectangle, the palette map as the run leaves it,
/// and the image.
pub struct Graph {
    pub tree: CallTree,
    pub layout: Layout,
    pub strategy: Strategy,
    pub colors: Vec<Color>,
    pub palette_map: Option<PaletteMap>,
    pub svg: Vec<u8>,
}

/// The palette map as a map, and the empty map where there is none.
pub open spec fn map_view(m: Option<PaletteMap>) -> Map<Seq<u8>, Color> {
    match m {
        Some(m) => m@,
        None => Map::empty(),
    }
}

impl Graph {
    /// The graph is that of `lines`, drawn with the settings `opts` by a run
    /// that started with the palette map `map` and the random state `state`
    /// and left the random state `state_after`.
    pub open spec fn is_graph_of(
        &self,
        opts: &Options,
        lines: Seq<LineView>,
        map: Option<PaletteMap>,
        state: u64,
        state_after: u64,
    ) -> bool {
        &&& self.tree.wf()
        &&& self.tree.lines() == lines
        &&& laid_out(&self.tree, opts, &self.layout)
        &&& match self.strategy {
            Strategy::Differential { max, negate } => self.tree.spec_differential() && negate
                == opts.negate_differentials && self.tree.is_largest_change(max),
            _ => !self.tree.spec_differential() && self.strategy == spec_strategy(
                false,
                0,
                false,
                map is Some,
                opts.hash,
            ),
        }
        &&& (map is Some) == (self.palette_map is Some)
        &&& self.palette_map matches Some(m) ==> m.wf()
        &&& (self.colors@, PaintState { map: map_view(self.palette_map), state: state_after })
            == painted(
            self.strategy,
            opts.colors,
            self.tree.nodes@,
            self.layout.rects@,
            PaintState { map: map_view(map), state },
            self.layout.rects@.len() as int,
        )
        &&& self.svg@ == spec_svg(
            opts,
            self.tree.nodes@,
            self.tree.spec_differential(),
            self.layout.levels as int,
            self.layout.rects@,
            self.colors@,
        )
    }
}

/// Draws the graph of a tree.
pub fn from_tree(
    opts: &Options,
    tree: CallTree,
    palette_map: Option<PaletteMap>,
    source: &mut RandomSource,
) -> (g: Graph)
    requires
        tree.wf(),
        palette_map matches Some(m) ==> m.wf(),
    ensures
        g.tree == tree,
        g.is_graph_of(opts, tree.lines(), palette_map, old(source).state, final(source).state),
{
    let l = layout(&tree, opts);
    let strategy = choose_strategy(&tree, opts, palette_map.is_some());
    let differential = tree.is_differential();
    proof {
        assert forall|k: int| 0 <= k < l.rects@.len() implies (#[trigger] l.rects@[k]).node
            < tree.nodes@.len() && l.rects@[k].depth < l.levels by {
            assert(crate::layout::rect_fits(&tree, opts, l.rects@[k]));
        }
    }
    let (colors, map_after) = match palette_map {
        Some(m) => {
            let mut m = m;
            let colors = paint(&tree, &l.rects, strategy, opts.colors, &mut m, source);
            (colors, Some(m))
        },
        None => {
            let mut m = PaletteMap::new();
            let colors = paint(&tree, &l.rects, strategy, opts.colors, &mut m, source);
            proof {
                lemma_map_unused(
                    strategy,
                    opts.colors,
                    tree.nodes@,
                    l.rects@,
                    PaintState { map: Map::empty(), state: old(source).state },
                    l.rects@.len() as int,
                );
            }
            (colors, None)
        },
    };
    let svg = render(opts, &tree.nodes, differential, l.levels, &l.rects, &colors);
    Graph { tree, layout: l, strategy, colors, palette_map: map_after, svg }
}

/// Unless the colors come from the palette map, the map stays as it is.
proof fn lemma_map_unused(
    strategy: Strategy,
    palette: crate::color::Palette,
    nodes: Seq<crate::tree::Node>,
    rects: Seq<crate::layout::Rect>,
    start: PaintState,
    k: int,
)
    requires
        strategy != Strategy::Consistent,
    ensures
        painted(strategy, palette, nodes, rects, start, k).1.map == start.map,
    decreases k,
{
    if k > 0 {
        lemma_map_unused(strategy, palette, nodes, rects, start, k - 1);
    }
}

/// Merges the lines into a call tree and draws its graph, unless the tree
/// does not take one of the lines.
pub fn from_lines(
    opts: &Options,
    lines: &[StackLine],
    palette_map: Option<PaletteMap>,
    source: &mut RandomSource,
) -> (r: Result<Graph, Rejected>)
    requires
        palette_map matches Some(m) ==> m.wf(),
    ensures
        match r {
            Ok(g) => first_rejected(lines_view(lines@)) is None && g.is_graph_of(
                opts,
                lines_view(lines@),
                palette_map,
                old(source).state,
                final(source).state,
            ),
            Err(e) => first_rejected(lines_view(lines@)) == Some((e.index as int, e.reason))
                && final(source).state == old(source).state,
        },
{
    match build(lines) {
        Ok(tree) => Ok(from_tree(opts, tree, palette_map, source)),
        Err(e) => Err(e),
    }
}

/// Where a line stood: the source, from 0, and the line in it, from 1.
#[derive(Clone, Copy, Debug, PartialEq, Eq, Structural)]
pub struct Origin {
    pub source: usize,
    pub line: usize,
}

/// Why there is no graph.
pub enum Error {
    /// A line is no sample line: where it stood, what it held, and why it is none.
    InputFormat { origin: Origin, content: Vec<u8>, reason: LineError },
    /// A line has a second count and the lines before it have none, or the
    /// other way round.
    InconsistentInput { origin: Origin },
    /// With this line the samples no longer fit in 64 bits.
    TooManySamples { origin: Origin },
}

impl Error {
    /// What the error says, in words: the source and the line, the reason,
    /// and for a line that is no sample line what the line held.
    pub open spec fn spec_message(self) -> Seq<u8> {
        match self {
            Error::InputFormat { origin, content, reason } => put_origin(Seq::empty(), origin)
                + reason.spec_message() + lit(": ") + content@,
            Error::InconsistentInput { origin } => put_origin(Seq::empty(), origin) + lit(
                "some lines have a second count and others have none",
            ),
            Error::TooManySamples { origin } => put_origin(Seq::empty(), origin) + lit(
                "the samples no longer fit in 64 bits",
            ),
        }
    }

    /// What the error says, in words.
    pub fn message(&self) -> (text: Vec<u8>)
        ensures
            text@ == self.spec_message(),
    {
        let mut text: Vec<u8> = Vec::new();
        match self {
            Error::InputFormat { origin, content, reason } => {
                write_origin(&mut text, *origin);
                write_lit(&mut text, reason.message());
                write_lit(&mut text, ": ");
                push_all(&mut text, content.as_slice());
            },
            Error::InconsistentInput { origin } => {
                write_origin(&mut text, *origin);
                write_lit(&mut text, "some lines have a second count and others have none");
            },
            Error::TooManySamples { origin } => {
                write_origin(&mut text, *origin);
                write_lit(&mut text, "the samples no longer fit in 64 bits");
            },
        }
        text
    }
}

/// The text `w` with the place of a line after it.
pub open spec fn put_origin(w: Seq<u8>, origin: Origin) -> Seq<u8> {
    w + lit("source ") + decimal_digits(origin.source as nat) + lit(", line ") + decimal_digits(
        origin.line as nat,
    ) + lit(": ")
}

fn write_origin(out: &mut Vec<u8>, origin: Origin)
    ensures
        final(out)@ == put_origin(old(out)@, origin),
{
    write_lit(out, "source ");
    push_decimal(out, origin.source as u128);
    write_lit(out, ", line ");
    push_decimal(out, origin.line as u128);
    write_lit(out, ": ");
}

/// Where the error says that the run ended, and why.
pub open spec fn error_view(e: Error) -> (Origin, TreeError) {
    match e {
        Error::InputFormat { origin, content, reason } => (origin, TreeError::Line(reason)),
        Error::InconsistentInput { origin } => (origin, TreeError::Inconsistent),
        Error::TooManySamples { origin } => (origin, TreeError::Overflow),
    }
}

/// The lines that the tree holds after the lines `parts` of the source
/// `source`, where it held `before`; or where the run ends and why: at the
/// first line that is no sample line or that the tree does not take. Blank
/// lines are passed over.
pub open spec fn merged_lines(parts: Seq<Seq<u8>>, source: usize, before: Seq<LineView>) -> Result<
    Seq<LineView>,
    (Origin, TreeError),
>
    decreases parts.len(),
{
    if parts.len() == 0 {
        Ok(before)
    } else {
        match merged_lines(parts.drop_last(), source, before) {
            Err(e) => Err(e),
            Ok(lines) => match spec_parse_line(parts.last()) {
                Err(reason) => Err(
                    (Origin { source, line: parts.len() as usize }, TreeError::Line(reason)),
                ),
                Ok(None) => Ok(lines),
                Ok(Some(l)) => match spec_check(lines, l) {
                    Err(reason) => Err((Origin { source, line: parts.len() as usize }, reason)),
                    Ok(_) => Ok(lines.push(l)),
                },
            },
        }
    }
}

/// The lines that the tree holds after the sources, one source after the
/// other, or where the run ends and why.
pub open spec fn spec_outcome(texts: Seq<Seq<u8>>) -> Result<Seq<LineView>, (Origin, TreeError)>
    decreases texts.len(),
{
    if texts.len() == 0 {
        Ok(Seq::empty())
    } else {
        match spec_outcome(texts.drop_last()) {
            Err(e) => Err(e),
            Ok(lines) => merged_lines(
                split_on(texts.last(), 0x0a),
                (texts.len() - 1) as usize,
                lines,
            ),
        }
    }
}

/// The texts of the sources.
pub open spec fn texts_of(sources: Seq<Vec<u8>>) -> Seq<Seq<u8>> {
    Seq::new(sources.len(), |i: int| sources[i]@)
}

/// The text of the line at `origin`.
pub open spec fn line_at(texts: Seq<Seq<u8>>, origin: Origin) -> Seq<u8> {
    split_on(texts[origin.source as int], 0x0a)[origin.line - 1]
}

proof fn lemma_merged_stays(parts: Seq<Seq<u8>>, source: usize, before: Seq<LineView>, j: int)
    requires
        0 <= j <= parts.len(),
        merged_lines(parts.take(j), source, before) is Err,
    ensures
        merged_lines(parts, source, before) == merged_lines(parts.take(j), source, before),
    decreases parts.len() - j,
{
    if j == parts.len() {
        assert(parts.take(j) =~= parts);
    } else {
        assert(parts.take(j + 1).drop_last() =~= parts.take(j));
        lemma_merged_stays(parts, source, before, j + 1);
    }
}

proof fn lemma_outcome_stays(texts: Seq<Seq<u8>>, j: int)
    requires
        0 <= j <= texts.len(),
        spec_outcome(texts.take(j)) is Err,
    ensures
        spec_outcome(texts) == spec_outcome(texts.take(j)),
    decreases texts.len() - j,
{
    if j == texts.len() {
        assert(texts.take(j) =~= texts);
    } else {
        assert(texts.take(j + 1).drop_last() =~= texts.take(j));
        lemma_outcome_stays(texts, j + 1);
    }
}

/// Merges the sample lines of the source `source` into the tree, each as it is read.
pub fn merge_source(tree: &mut CallTree, text: &[u8], source: usize) -> (r: Result<(), Error>)
    requires
        old(tree).wf(),
    ensures
        final(tree).wf(),
        match r {
            Ok(_) => merged_lines(split_on(text@, 0x0a), source, old(tree).lines()) == Ok::<
                Seq<LineView>,
                (Origin, TreeError),
            >(final(tree).lines()),
            Err(e) => merged_lines(split_on(text@, 0x0a), source, old(tree).lines()) == Err::<
                Seq<LineView>,
                (Origin, TreeError),
            >(error_view(e)),
        },
        r matches Err(Error::InputFormat { origin, content, reason }) ==> origin.source == source
            && 1 <= origin.line <= split_on(text@, 0x0a).len() && content@ == split_on(
            text@,
            0x0a,
        )[origin.line - 1],
{
    assert(text@.subrange(0, text@.len() as int) =~= text@);
    let spans = split_spans(text, 0, text.len(), 0x0a);
    let ghost parts = split_on(text@, 0x0a);
    let ghost before = tree.lines();
    let mut k: usize = 0;
    assert(parts.take(0) =~= Seq::<Seq<u8>>::empty());
    while k < spans.len()
        invariant
            k <= spans@.len(),
            parts == split_on(text@, 0x0a),
            before == old(tree).lines(),
            spans_hold(text@, 0, text@.len() as int, spans@, parts),
            tree.wf(),
            merged_lines(parts.take(k as int), source, before) == Ok::<
                Seq<LineView>,
                (Origin, TreeError),
            >(tree.lines()),
        decreases spans@.len() - k,
    {
        let span = spans[k];
        let origin = Origin { source, line: k + 1 };
        proof {
            assert(parts.take(k + 1).drop_last() =~= parts.take(k as int));
            assert(parts.take(k + 1).last() == parts[k as int]);
            assert(text@.subrange(span.start as int, span.end as int) == parts[k as int]);
        }
        let part = slice_subrange(text, span.start, span.end);
        match parse_line(part) {
            Ok(None) => {},
            Ok(Some(l)) => {
                match tree.add_line(&l) {
                    Ok(_) => {},
                    Err(reason) => {
                        proof {
                            lemma_merged_stays(parts, source, before, k + 1);
                        }
                        return Err(
                            match reason {
                                TreeError::Inconsistent => Error::InconsistentInput { origin },
                                TreeError::Overflow => Error::TooManySamples { origin },
                                TreeError::Line(reason) => Error::InputFormat {
                                    origin,
                                    content: copy_range(text, span.start, span.end),
                                    reason,
                                },
                            },
                        );
                    },
                }
            },
            Err(reason) => {
                proof {
                    lemma_merged_stays(parts, source, before, k + 1);
                }
                let content = copy_range(text, span.start, span.end);
                return Err(Error::InputFormat { origin, content, reason });
            },
        }
        k += 1;
    }
    assert(parts.take(k as int) =~= parts);
    Ok(())
}

/// Reads the sources, one after the other, and merges their sample lines
/// into one call tree.
pub fn merge_sources(sources: &[Vec<u8>]) -> (r: Result<CallTree, Error>)
    ensures
        match r {
            Ok(tree) => tree.wf() && spec_outcome(texts_of(sources@)) == Ok::<
                Seq<LineView>,
                (Origin, TreeError),
            >(tree.lines()),
            Err(e) => spec_outcome(texts_of(sources@)) == Err::<
                Seq<LineView>,
                (Origin, TreeError),
            >(error_view(e)),
        },
        r matches Err(Error::InputFormat { origin, content, reason }) ==> origin.source
            < sources@.len() && content@ == line_at(texts_of(sources@), origin),
{
    let ghost texts = texts_of(sources@);
    let mut tree = CallTree::new();
    let mut s: usize = 0;
    assert(texts.take(0) =~= Seq::<Seq<u8>>::empty());
    while s < sources.len()
        invariant
            s <= sources@.len(),
            texts == texts_of(sources@),
            tree.wf(),
            spec_outcome(texts.take(s as int)) == Ok::<Seq<LineView>, (Origin, TreeError)>(
                tree.lines(),
            ),
        decreases sources@.len() - s,
    {
        proof {
            assert(texts.take(s + 1).drop_last() =~= texts.take(s as int));
            assert(texts.take(s + 1).last() == sources@[s as int]@);
        }
        match merge_source(&mut tree, sources[s].as_slice(), s) {
            Ok(_) => {},
            Err(e) => {
                proof {
                    lemma_outcome_stays(texts, s + 1);
                }
                return Err(e);
            },
        }
        s += 1;
    }
    assert(texts.take(s as int) =~= texts);
    Ok(tree)
}

/// Reads the sources, one after the other, merges their sample lines into a
/// call tree and draws its graph. The first line that is no sample line, or
/// that the tree does not take, ends the run: a graph of some of the lines
/// would show wrong shares.
pub fn from_sources(
    opts: &Options,
    sources: &[Vec<u8>],
    palette_map: Option<PaletteMap>,
    source: &mut RandomSource,
) -> (r: Result<Graph, Error>)
    requires
        palette_map matches Some(m) ==> m.wf(),
    ensures
        match r {
            Ok(g) => spec_outcome(texts_of(sources@)) == Ok::<Seq<LineView>, (Origin, TreeError)>(
                g.tree.lines(),
            ) && g.is_graph_of(
                opts,
                g.tree.lines(),
                palette_map,
                old(source).state,
                final(source).state,
            ),
            Err(e) => spec_outcome(texts_of(sources@)) == Err::<
                Seq<LineView>,
                (Origin, TreeError),
            >(error_view(e)) && final(source).state == old(source).state,
        },
        r matches Err(Error::InputFormat { origin, content, reason }) ==> origin.source
            < sources@.len() && content@ == line_at(texts_of(sources@), origin),
{
    match merge_sources(sources) {
        Ok(tree) => Ok(from_tree(opts, tree, palette_map, source)),
        Err(e) => Err(e),
    }
}


/// The sample lines among `parts`, in order.
pub open spec fn sample_lines(parts: Seq<Seq<u8>>) -> Seq<LineView>
    decreases parts.len(),
{
    if parts.len() == 0 {
        Seq::empty()
    } else {
        match spec_parse_line(parts.last()) {
            Ok(Some(l)) => sample_lines(parts.drop_last()).push(l),
            _ => sample_lines(parts.drop_last()),
        }
    }
}

/// The sample lines of the sources, one source after the other.
pub open spec fn all_samples(texts: Seq<Seq<u8>>) -> Seq<LineView>
    decreases texts.len(),
{
    if texts.len() == 0 {
        Seq::empty()
    } else {
        all_samples(texts.drop_last()) + sample_lines(split_on(texts.last(), 0x0a))
    }
}

proof fn lemma_merged_samples(parts: Seq<Seq<u8>>, source: usize, before: Seq<LineView>)
    ensures
        merged_lines(parts, source, before) matches Ok(lines) ==> lines == before + sample_lines(
            parts,
        ),
    decreases parts.len(),
{
    if parts.len() == 0 {
        assert(before + sample_lines(parts) =~= before);
    } else {
        lemma_merged_samples(parts.drop_last(), source, before);
        match merged_lines(parts, source, before) {
            Ok(lines) => {
                assert(lines =~= before + sample_lines(parts));
            },
            Err(_) => {},
        }
    }
}

/// Where there is a graph, the tree holds the sample lines of the sources.
pub proof fn lemma_outcome_samples(texts: Seq<Seq<u8>>)
    ensures
        spec_outcome(texts) matches Ok(lines) ==> lines == all_samples(texts),
    decreases texts.len(),
{
    if texts.len() > 0 {
        lemma_outcome_samples(texts.drop_last());
        match spec_outcome(texts.drop_last()) {
            Ok(lines) => {
                lemma_merged_samples(
                    split_on(texts.last(), 0x0a),
                    (texts.len() - 1) as usize,
                    lines,
                );
            },
            Err(_) => {},
        }
    }
}

proof fn lemma_samples_concat(a: Seq<Seq<u8>>, b: Seq<Seq<u8>>)
    ensures
        all_samples(a + b) == all_samples(a) + all_samples(b),
    decreases b.len(),
{
    if b.len() == 0 {
        assert(a + b =~= a);
        assert(all_samples(a) + all_samples(b) =~= all_samples(a));
    } else {
        lemma_samples_concat(a, b.drop_last());
        assert((a + b).drop_last() =~= a + b.drop_last());
        assert((a + b).last() == b.last());
        assert(all_samples(a + b) =~= all_samples(a) + all_samples(b));
    }
}

/// The call tree does not depend on which sources are read first: two runs
/// that read the same sources, the one those of `a` before those of `b` and
/// the other those of `b` before those of `a`, merge the same lines, and so
/// build the same tree.
pub proof fn lemma_source_order(a: Seq<Seq<u8>>, b: Seq<Seq<u8>>)
    requires
        spec_outcome(a + b) is Ok,
        spec_outcome(b + a) is Ok,
    ensures
        spec_outcome(a + b)->Ok_0.to_multiset() == spec_outcome(b + a)->Ok_0.to_multiset(),
        crate::tree::spec_tree(spec_outcome(a + b)->Ok_0) == crate::tree::spec_tree(
            spec_outcome(b + a)->Ok_0,
        ),
{
    lemma_outcome_samples(a + b);
    lemma_outcome_samples(b + a);
    lemma_samples_concat(a, b);
    lemma_samples_concat(b, a);
    crate::profile::lemma_sources_commute(all_samples(a), all_samples(b));
    crate::tree::lemma_tree_order_independent(
        spec_outcome(a + b)->Ok_0,
        spec_outcome(b + a)->Ok_0,
    );
}

} // verus!
