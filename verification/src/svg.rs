//! The image: the frames, their labels and what surrounds them, written as SVG.
//!
//! Each piece of the document has a function `put_...`, which says what the
//! text is once the piece stands after the text `w`, and a function
//! `write_...`, which appends the piece to the output.

use crate::attrs::{attributes_for, attributes_view, Attribute, AttributeView};
use crate::color::{BackgroundColor, Color, Palette};
use crate::layout::Rect;
use crate::line::Annotation;
use crate::options::{Direction, Options};
use crate::palette_map::{color_text, push_color};
use crate::text::{bytes_equal, decimal_digits, push_all, push_decimal};
use crate::tree::{shaped, up, Node};
use vstd::prelude::*;
use vstd::string::StringSliceAdditionalSpecFns;

verus! {

/// The bytes of a text.
pub open spec fn lit(s: &str) -> Seq<u8> {
    s.spec_bytes()
}

/// Appends a text.
pub fn write_lit(out: &mut Vec<u8>, s: &str)
    ensures
        final(out)@ == old(out)@ + lit(s),
{
    push_all(out, s.as_bytes());
}

/// A byte as it stands in the text of an element or in the value of an
/// attribute: `&`, `<`, `>` and `"` by their names, a line feed by its number.
pub open spec fn escaped_byte(b: u8) -> Seq<u8> {
    if b == 0x26 {
        seq![0x26u8, 0x61u8, 0x6du8, 0x70u8, 0x3bu8]
    } else if b == 0x3c {
        seq![0x26u8, 0x6cu8, 0x74u8, 0x3bu8]
    } else if b == 0x3e {
        seq![0x26u8, 0x67u8, 0x74u8, 0x3bu8]
    } else if b == 0x22 {
        seq![0x26u8, 0x71u8, 0x75u8, 0x6fu8, 0x74u8, 0x3bu8]
    } else if b == 0x0a {
        seq![0x26u8, 0x23u8, 0x31u8, 0x30u8, 0x3bu8]
    } else {
        seq![b]
    }
}

/// A text as it stands in the document, every byte escaped.
pub open spec fn escaped(s: Seq<u8>) -> Seq<u8>
    decreases s.len(),
{
    if s.len() == 0 {
        Seq::empty()
    } else {
        escaped(s.drop_last()) + escaped_byte(s.last())
    }
}

/// Appends a text, escaped.
pub fn write_escaped(out: &mut Vec<u8>, s: &[u8])
    ensures
        final(out)@ == old(out)@ + escaped(s@),
{
    let mut i: usize = 0;
    assert(old(out)@ + escaped(s@.take(0)) =~= old(out)@);
    while i < s.len()
        invariant
            i <= s.len(),
            out@ == old(out)@ + escaped(s@.take(i as int)),
        decreases s.len() - i,
    {
        let b = s[i];
        let ghost before = out@;
        if b == 0x26 {
            out.push(0x26);
            out.push(0x61);
            out.push(0x6d);
            out.push(0x70);
            out.push(0x3b);
        } else if b == 0x3c {
            out.push(0x26);
            out.push(0x6c);
            out.push(0x74);
            out.push(0x3b);
        } else if b == 0x3e {
            out.push(0x26);
            out.push(0x67);
            out.push(0x74);
            out.push(0x3b);
        } else if b == 0x22 {
            out.push(0x26);
            out.push(0x71);
            out.push(0x75);
            out.push(0x6f);
            out.push(0x74);
            out.push(0x3b);
        } else if b == 0x0a {
            out.push(0x26);
            out.push(0x23);
            out.push(0x31);
            out.push(0x30);
            out.push(0x3b);
        } else {
            out.push(b);
        }
        proof {
            assert(out@ =~= before + escaped_byte(b));
            assert(s@.take(i + 1).drop_last() =~= s@.take(i as int));
            assert(out@ =~= old(out)@ + escaped(s@.take(i + 1)));
        }
        i += 1;
    }
    assert(s@.take(s@.len() as int) =~= s@);
}

/// The digit of the ones of `n`.
pub open spec fn ones_digit(n: int) -> u8 {
    (0x30 + n % 10) as u8
}

/// A count of thousandths as a decimal number with three places.
pub open spec fn thousandths(n: nat) -> Seq<u8> {
    decimal_digits(n / 1000) + seq![
        0x2eu8,
        ones_digit(n as int / 100),
        ones_digit(n as int / 10),
        ones_digit(n as int),
    ]
}

/// A count of hundredths as a decimal number with two places.
pub open spec fn hundredths(n: nat) -> Seq<u8> {
    decimal_digits(n / 100) + seq![0x2eu8, ones_digit(n as int / 10), ones_digit(n as int)]
}

pub fn write_thousandths(out: &mut Vec<u8>, n: u128)
    ensures
        final(out)@ == old(out)@ + thousandths(n as nat),
{
    push_decimal(out, n / 1000);
    out.push(0x2e);
    out.push(0x30 + ((n / 100) % 10) as u8);
    out.push(0x30 + ((n / 10) % 10) as u8);
    out.push(0x30 + (n % 10) as u8);
    assert(out@ =~= old(out)@ + thousandths(n as nat));
}

pub fn write_hundredths(out: &mut Vec<u8>, n: u128)
    ensures
        final(out)@ == old(out)@ + hundredths(n as nat),
{
    push_decimal(out, n / 100);
    out.push(0x2e);
    out.push(0x30 + ((n / 10) % 10) as u8);
    out.push(0x30 + (n % 10) as u8);
    assert(out@ =~= old(out)@ + hundredths(n as nat));
}

/// What parts the elements: a line feed where the document is to be easy to
/// read, and nothing else.
pub open spec fn gap(opts: &Options) -> Seq<u8> {
    if opts.pretty_xml {
        seq![0x0au8]
    } else {
        Seq::empty()
    }
}

pub fn write_gap(out: &mut Vec<u8>, opts: &Options)
    ensures
        final(out)@ == old(out)@ + gap(opts),
{
    if opts.pretty_xml {
        out.push(0x0a);
        assert(out@ =~= old(out)@ + gap(opts));
    } else {
        assert(out@ =~= old(out)@ + gap(opts));
    }
}

/// The rows above the frames: one for the title, one for the controls, and
/// one for the subtitle where there is one.
pub open spec fn header_rows(opts: &Options) -> int {
    if opts.subtitle is Some {
        3
    } else {
        2
    }
}

/// The room below the frames, for the line that tells of the frame under the pointer.
pub open spec fn margins(opts: &Options) -> int {
    2 * opts.font_size + 10
}

/// The height of the image, in pixels.
pub open spec fn image_height(opts: &Options, levels: int) -> int {
    (levels + header_rows(opts)) * opts.frame_height + margins(opts)
}

/// The upper edge of the frames of level `depth`, in pixels: in a flame
/// graph level 0 is the lowest row, in an icicle graph the highest.
pub open spec fn frame_top(opts: &Options, levels: int, depth: int) -> int {
    match opts.direction {
        Direction::Straight => (header_rows(opts) + (levels - 1 - depth)) * opts.frame_height,
        Direction::Inverted => (header_rows(opts) + depth) * opts.frame_height,
    }
}

fn rows_height(rows: u128, opts: &Options) -> (h: u128)
    requires
        rows <= 0x2_0000_0000_0000_0000,
    ensures
        h == rows * opts.frame_height,
        h <= 0x2_0000_0000_0000_0000 * 0xffff_ffff,
{
    let fh = opts.frame_height as u128;
    assert(0 <= rows * fh <= 0x2_0000_0000_0000_0000 * 0xffff_ffff) by (nonlinear_arith)
        requires
            0 <= rows <= 0x2_0000_0000_0000_0000,
            0 <= fh <= 0xffff_ffff,
    ;
    rows * fh
}

fn header_row_count(opts: &Options) -> (r: u128)
    ensures
        r == header_rows(opts),
{
    match opts.subtitle {
        Some(_) => 3,
        None => 2,
    }
}

/// The height of the image, in pixels.
pub fn height_of(opts: &Options, levels: usize) -> (h: u128)
    ensures
        h == image_height(opts, levels as int),
{
    let rows = levels as u128 + header_row_count(opts);
    rows_height(rows, opts) + 2 * (opts.font_size as u128) + 10
}

/// The upper edge of the frames of level `depth`, in pixels.
pub fn top_of(opts: &Options, levels: usize, depth: usize) -> (y: u128)
    requires
        depth < levels,
    ensures
        y == frame_top(opts, levels as int, depth as int),
        y <= 0x2_0000_0000_0000_0000 * 0xffff_ffff,
{
    let rows = match opts.direction {
        Direction::Straight => header_row_count(opts) + ((levels - 1 - depth) as u128),
        Direction::Inverted => header_row_count(opts) + (depth as u128),
    };
    rows_height(rows, opts)
}

/// A byte that goes on a character of more than one byte.
pub open spec fn is_continuation(b: u8) -> bool {
    0x80 <= b < 0xc0
}

/// The place at or before `n` where `s` can be cut without parting a character.
pub open spec fn cut_at(s: Seq<u8>, n: int) -> int
    decreases n,
{
    if n <= 0 {
        0
    } else if n >= s.len() {
        s.len() as int
    } else if is_continuation(s[n]) {
        cut_at(s, n - 1)
    } else {
        n
    }
}

/// How many characters fit in a frame `width` thousandths of a pixel wide.
pub open spec fn fit_chars(opts: &Options, width: int) -> int {
    if opts.font_size * opts.font_width == 0 {
        0
    } else {
        width / (opts.font_size * opts.font_width)
    }
}

/// The label of a frame: nothing where fewer than three characters fit, the
/// name where it fits, and else the start of the name and two dots.
pub open spec fn spec_label(name: Seq<u8>, chars: int) -> Seq<u8> {
    if chars < 3 {
        Seq::empty()
    } else if name.len() <= chars {
        name
    } else {
        name.take(cut_at(name, chars - 2)) + seq![0x2eu8, 0x2eu8]
    }
}

/// How many characters fit in a frame.
pub fn chars_that_fit(opts: &Options, width: u64) -> (n: u64)
    ensures
        n == fit_chars(opts, width as int),
{
    assert(0 <= opts.font_size * opts.font_width <= 0xffff_ffff * 0xffff_ffff)
        by (nonlinear_arith)
        requires
            0 <= opts.font_size <= 0xffff_ffff,
            0 <= opts.font_width <= 0xffff_ffff,
    ;
    let per: u64 = (opts.font_size as u64) * (opts.font_width as u64);
    if per == 0 {
        0
    } else {
        width / per
    }
}

/// The label of a frame.
pub fn label_of(name: &[u8], chars: u64) -> (label: Vec<u8>)
    ensures
        label@ == spec_label(name@, chars as int),
{
    let mut label: Vec<u8> = Vec::new();
    if chars < 3 {
        return label;
    }
    if name.len() as u64 <= chars {
        push_all(&mut label, name);
        assert(label@ =~= name@);
        return label;
    }
    let mut n: usize = (chars - 2) as usize;
    while n > 0 && n < name.len() && name[n] >= 0x80 && name[n] < 0xc0
        invariant
            n <= chars - 2,
            cut_at(name@, n as int) == cut_at(name@, chars - 2),
        decreases n,
    {
        n -= 1;
    }
    let cut: usize = if n >= name.len() {
        name.len()
    } else {
        n
    };
    assert(cut == cut_at(name@, chars - 2));
    let part = vstd::slice::slice_subrange(name, 0, cut);
    push_all(&mut label, part);
    label.push(0x2e);
    label.push(0x2e);
    assert(label@ =~= name@.take(cut as int) + seq![0x2eu8, 0x2eu8]);
    label
}

/// The tag that an annotation puts at the end of a label.
pub open spec fn tag_text(tag: Annotation) -> Seq<u8> {
    match tag {
        Annotation::Plain => Seq::empty(),
        _ => seq![0x5fu8, 0x5bu8, tag.letter(), 0x5du8],
    }
}

/// The text `w` with the call path of node `i` after it: the labels from
/// below the root down to the node, with semicolons between them.
pub open spec fn put_path(w: Seq<u8>, nodes: Seq<Node>, i: int) -> Seq<u8>
    decreases i,
{
    if 0 < i < nodes.len() && nodes[i].parent < i {
        let before = if nodes[i].parent == 0 {
            w
        } else {
            put_path(w, nodes, nodes[i].parent as int).push(0x3b)
        };
        before + escaped(nodes[i].name@) + tag_text(nodes[i].annotation)
    } else {
        w
    }
}

fn write_tag(out: &mut Vec<u8>, tag: Annotation)
    ensures
        final(out)@ == old(out)@ + tag_text(tag),
{
    match tag {
        Annotation::Plain => {},
        Annotation::Kernel => {
            out.push(0x5f);
            out.push(0x5b);
            out.push(0x6b);
            out.push(0x5d);
        },
        Annotation::Inlined => {
            out.push(0x5f);
            out.push(0x5b);
            out.push(0x69);
            out.push(0x5d);
        },
        Annotation::Jit => {
            out.push(0x5f);
            out.push(0x5b);
            out.push(0x6a);
            out.push(0x5d);
        },
        Annotation::Waker => {
            out.push(0x5f);
            out.push(0x5b);
            out.push(0x77);
            out.push(0x5d);
        },
    }
    assert(out@ =~= old(out)@ + tag_text(tag));
}

/// The nodes from a node up to the frame below the root, each the parent of
/// the one before it.
spec fn climbs(nodes: Seq<Node>, chain: Seq<usize>, i: int) -> bool {
    &&& chain.len() >= 1
    &&& chain[0] == i
    &&& forall|k: int| 0 <= k < chain.len() ==> 0 < #[trigger] chain[k] < nodes.len()
    &&& forall|k: int| 0 <= k < chain.len() - 1 ==> chain[k + 1] == up(nodes, #[trigger] chain[k] as int)
}

/// Appends the call path of node `i`.
pub fn write_path(out: &mut Vec<u8>, nodes: &Vec<Node>, i: usize)
    requires
        shaped(nodes@),
        i < nodes@.len(),
    ensures
        final(out)@ == put_path(old(out)@, nodes@, i as int),
{
    if i == 0 {
        return ;
    }
    let mut chain: Vec<usize> = Vec::new();
    chain.push(i);
    let mut at = i;
    while nodes[at].parent != 0
        invariant
            0 < at < nodes@.len(),
            shaped(nodes@),
            climbs(nodes@, chain@, i as int),
            chain@[chain@.len() - 1] == at,
        decreases at,
    {
        let ghost before = chain@;
        assert(up(nodes@, at as int) < at);
        at = nodes[at].parent;
        chain.push(at);
        proof {
            assert forall|k: int| 0 <= k < chain@.len() implies 0 < #[trigger] chain@[k]
                < nodes@.len() by {
                if k < before.len() {
                    assert(chain@[k] == before[k]);
                }
            }
            assert forall|k: int| 0 <= k < chain@.len() - 1 implies chain@[k + 1] == up(
                nodes@,
                #[trigger] chain@[k] as int,
            ) by {
                assert(chain@[k] == before[k]);
                if k + 1 < before.len() {
                    assert(chain@[k + 1] == before[k + 1]);
                }
            }
        }
    }
    let n = chain.len();
    let mut t = n;
    while t > 0
        invariant
            t <= n,
            n == chain@.len(),
            shaped(nodes@),
            climbs(nodes@, chain@, i as int),
            up(nodes@, chain@[n - 1] as int) == 0,
            t == n ==> out@ == old(out)@,
            t < n ==> out@ == put_path(old(out)@, nodes@, chain@[t as int] as int),
        decreases t,
    {
        t -= 1;
        let c = chain[t];
        let node = &nodes[c];
        proof {
            assert(0 < chain@[t as int] < nodes@.len());
            assert(up(nodes@, c as int) < c);
            if t + 1 < n {
                assert(chain@[t + 1] == up(nodes@, chain@[t as int] as int));
                assert(0 < chain@[t + 1]);
            }
        }
        if t + 1 < n {
            out.push(0x3b);
        }
        write_escaped(out, node.name.as_slice());
        write_tag(out, node.annotation);
    }
}

/// A share in hundredths of a percent: `part` out of `whole`, and of 1
/// where `whole` is nothing.
pub open spec fn share(part: int, whole: int) -> int {
    part * 10000 / (if whole > 0 {
        whole
    } else {
        1
    })
}

fn share_of(part: u64, whole: u64) -> (r: u128)
    ensures
        r == share(part as int, whole as int),
{
    let w: u128 = if whole > 0 {
        whole as u128
    } else {
        1
    };
    (part as u128) * 10000 / w
}

/// The size of a change.
pub open spec fn size_of(delta: int) -> int {
    if delta < 0 {
        -delta
    } else {
        delta
    }
}

/// The text `w` with the change of a node after it: a sign, and the change
/// as a share of the node's count, in percent.
pub open spec fn put_change(w: Seq<u8>, delta: int, samples: int) -> Seq<u8> {
    let sign = if delta > 0 {
        seq![0x2bu8]
    } else if delta < 0 {
        seq![0x2du8]
    } else {
        Seq::empty()
    };
    w + lit("; ") + sign + hundredths(share(size_of(delta), samples) as nat) + lit("%")
}

fn write_change(out: &mut Vec<u8>, delta: i128, samples: u64)
    requires
        -0xffff_ffff_ffff_ffff <= delta <= 0xffff_ffff_ffff_ffff,
    ensures
        final(out)@ == put_change(old(out)@, delta as int, samples as int),
{
    write_lit(out, "; ");
    let ghost before = out@;
    if delta > 0 {
        out.push(0x2b);
        assert(out@ =~= before + seq![0x2bu8]);
    } else if delta < 0 {
        out.push(0x2d);
        assert(out@ =~= before + seq![0x2du8]);
    } else {
        assert(out@ =~= before + Seq::<u8>::empty());
    }
    let size: u64 = if delta < 0 {
        (-delta) as u64
    } else {
        delta as u64
    };
    write_hundredths(out, share_of(size, samples));
    write_lit(out, "%");
}

/// What is known of a frame when it is drawn.
pub struct FrameView {
    /// The node of the frame, by its place in the tree.
    pub node: int,
    /// The samples of the node, and those of the whole profile.
    pub samples: int,
    pub all: int,
    /// The change of the node, in a differential profile.
    pub delta: Option<int>,
    /// The left edge and the width, in thousandths of a pixel.
    pub x: int,
    pub width: int,
    /// The upper edge, in pixels.
    pub y: int,
    pub color: Color,
}

/// The text `w` with the title of a frame after it: the name, the samples
/// and their share of all samples, and the change.
#[verifier::opaque]
pub open spec fn put_title(w: Seq<u8>, opts: &Options, name: Seq<u8>, f: FrameView) -> Seq<u8> {
    let counted = w + escaped(name) + lit(" (") + decimal_digits(f.samples as nat) + lit(" ")
        + escaped(opts.count_name@) + lit(", ") + hundredths(share(f.samples, f.all) as nat) + lit(
        "%",
    );
    let changed = match f.delta {
        Some(d) => put_change(counted, d, f.samples),
        None => counted,
    };
    changed + lit(")")
}

fn write_title(
    out: &mut Vec<u8>,
    opts: &Options,
    name: &[u8],
    samples: u64,
    all: u64,
    delta: Option<i128>,
    Ghost(f): Ghost<FrameView>,
)
    requires
        f.samples == samples,
        f.all == all,
        f.delta == (match delta {
            Some(d) => Some(d as int),
            None => None,
        }),
        delta matches Some(d) ==> -0xffff_ffff_ffff_ffff <= d <= 0xffff_ffff_ffff_ffff,
    ensures
        final(out)@ == put_title(old(out)@, opts, name@, f),
{
    proof {
        reveal(put_title);
    }
    write_escaped(out, name);
    write_lit(out, " (");
    push_decimal(out, samples as u128);
    write_lit(out, " ");
    write_escaped(out, opts.count_name.as_slice());
    write_lit(out, ", ");
    write_hundredths(out, share_of(samples, all));
    write_lit(out, "%");
    match delta {
        Some(d) => {
            write_change(out, d, samples);
        },
        None => {},
    }
    write_lit(out, ")");
}

/// The text `w` with the rectangle of a frame after it.
#[verifier::opaque]
pub open spec fn put_rect(w: Seq<u8>, opts: &Options, f: FrameView) -> Seq<u8> {
    w + lit("<rect x=\"") + thousandths(f.x as nat) + lit("\" y=\"") + decimal_digits(f.y as nat)
        + lit("\" width=\"") + thousandths(f.width as nat) + lit("\" height=\"") + decimal_digits(
        opts.frame_height as nat,
    ) + lit("\" fill=\"") + color_text(f.color) + lit("\"/>")
}

fn write_rect(
    out: &mut Vec<u8>,
    opts: &Options,
    x: u64,
    y: u128,
    width: u64,
    color: Color,
    Ghost(f): Ghost<FrameView>,
)
    requires
        f.x == x,
        f.y == y,
        f.width == width,
        f.color == color,
    ensures
        final(out)@ == put_rect(old(out)@, opts, f),
{
    proof {
        reveal(put_rect);
    }
    write_lit(out, "<rect x=\"");
    write_thousandths(out, x as u128);
    write_lit(out, "\" y=\"");
    push_decimal(out, y);
    write_lit(out, "\" width=\"");
    write_thousandths(out, width as u128);
    write_lit(out, "\" height=\"");
    push_decimal(out, opts.frame_height as u128);
    write_lit(out, "\" fill=\"");
    push_color(out, color);
    write_lit(out, "\"/>");
}

/// The line on which the label of a frame stands, in pixels.
pub open spec fn label_line(opts: &Options, y: int) -> int {
    y + (opts.frame_height + opts.font_size) / 2
}

/// The text `w` with the label of a frame after it.
#[verifier::opaque]
pub open spec fn put_label(w: Seq<u8>, opts: &Options, name: Seq<u8>, f: FrameView) -> Seq<u8> {
    w + lit("<text x=\"") + thousandths((f.x + 3000) as nat) + lit("\" y=\"") + decimal_digits(
        label_line(opts, f.y) as nat,
    ) + lit("\">") + escaped(spec_label(name, fit_chars(opts, f.width))) + lit("</text>")
}

fn write_label(
    out: &mut Vec<u8>,
    opts: &Options,
    name: &[u8],
    x: u64,
    y: u128,
    width: u64,
    Ghost(f): Ghost<FrameView>,
)
    requires
        f.x == x,
        f.y == y,
        f.width == width,
        y <= 0x2_0000_0000_0000_0000 * 0xffff_ffff,
    ensures
        final(out)@ == put_label(old(out)@, opts, name@, f),
{
    proof {
        reveal(put_label);
    }
    write_lit(out, "<text x=\"");
    write_thousandths(out, x as u128 + 3000);
    write_lit(out, "\" y=\"");
    push_decimal(out, y + ((opts.frame_height as u128) + (opts.font_size as u128)) / 2);
    write_lit(out, "\">");
    let label = label_of(name, chars_that_fit(opts, width));
    write_escaped(out, label.as_slice());
    write_lit(out, "</text>");
}

/// The text `w` with a frame after it: a group that holds the call path and
/// the samples of the frame, its title, its rectangle and its label.
pub open spec fn put_frame(w: Seq<u8>, opts: &Options, nodes: Seq<Node>, f: FrameView) -> Seq<u8> {
    let name = nodes[f.node].name@;
    let titled = put_title(put_frame_start(w, opts, nodes, f), opts, name, f) + lit("</title>");
    put_label(put_rect(titled, opts, f), opts, name, f) + lit("</g>") + gap(opts)
}

/// A key that the group of a frame has of its own: a class that is given
/// is put with the class of the frame, and the call path and the samples
/// are not to be given.
pub open spec fn is_reserved(key: Seq<u8>) -> bool {
    key == lit("class") || key == lit("data-path") || key == lit("data-samples")
}

/// The `t`-th attribute is written: its key is not reserved, and no
/// attribute before it has the key.
pub open spec fn is_written(attributes: Seq<AttributeView>, t: int) -> bool {
    !is_reserved(attributes[t].key) && forall|u: int|
        0 <= u < t ==> (#[trigger] attributes[u]).key != attributes[t].key
}

/// The class that the attributes give: the value of the first attribute
/// with the key `class` among the first `k`.
pub open spec fn given_class(attributes: Seq<AttributeView>, k: int) -> Option<Seq<u8>>
    decreases k,
{
    if k <= 0 {
        None
    } else {
        match given_class(attributes, k - 1) {
            Some(v) => Some(v),
            None => if attributes[k - 1].key == lit("class") {
                Some(attributes[k - 1].value)
            } else {
                None
            },
        }
    }
}

/// The text `w` with the first `k` of the attributes after it, each that
/// is written as ` key="value"`.
pub open spec fn put_attributes(w: Seq<u8>, attributes: Seq<AttributeView>, k: int) -> Seq<u8>
    decreases k,
{
    if k <= 0 {
        w
    } else if is_written(attributes, k - 1) {
        put_attributes(w, attributes, k - 1) + lit(" ") + attributes[k - 1].key + lit("=\"")
            + escaped(attributes[k - 1].value) + lit("\"")
    } else {
        put_attributes(w, attributes, k - 1)
    }
}

fn key_is_reserved(key: &[u8]) -> (r: bool)
    ensures
        r == is_reserved(key@),
{
    bytes_equal(key, "class".as_bytes()) || bytes_equal(key, "data-path".as_bytes())
        || bytes_equal(key, "data-samples".as_bytes())
}

fn key_is_new(attributes: &Vec<Attribute>, t: usize) -> (r: bool)
    requires
        t < attributes@.len(),
    ensures
        r == (forall|u: int|
            0 <= u < t ==> (#[trigger] attributes_view(attributes@)[u]).key != attributes_view(
                attributes@,
            )[t as int].key),
{
    let ghost all = attributes_view(attributes@);
    let mut u: usize = 0;
    while u < t
        invariant
            u <= t,
            t < attributes@.len(),
            all == attributes_view(attributes@),
            forall|v: int| 0 <= v < u ==> (#[trigger] all[v]).key != all[t as int].key,
        decreases t - u,
    {
        assert(all[u as int] == attributes@[u as int]@);
        assert(all[t as int] == attributes@[t as int]@);
        if bytes_equal(attributes[u].key.as_slice(), attributes[t].key.as_slice()) {
            return false;
        }
        u += 1;
    }
    true
}

fn write_attributes(out: &mut Vec<u8>, attributes: &Vec<Attribute>)
    ensures
        final(out)@ == put_attributes(
            old(out)@,
            attributes_view(attributes@),
            attributes@.len() as int,
        ),
{
    let mut k: usize = 0;
    while k < attributes.len()
        invariant
            k <= attributes@.len(),
            out@ == put_attributes(old(out)@, attributes_view(attributes@), k as int),
        decreases attributes@.len() - k,
    {
        let a = &attributes[k];
        assert(attributes_view(attributes@)[k as int] == a@);
        if !key_is_reserved(a.key.as_slice()) && key_is_new(attributes, k) {
            write_lit(out, " ");
            push_all(out, a.key.as_slice());
            write_lit(out, "=\"");
            write_escaped(out, a.value.as_slice());
            write_lit(out, "\"");
        }
        k += 1;
    }
}

/// The text `w` with the class of a frame after it: `frame`, and after it
/// the class that the attributes give.
pub open spec fn put_class(w: Seq<u8>, attributes: Seq<AttributeView>) -> Seq<u8> {
    match given_class(attributes, attributes.len() as int) {
        Some(v) => w + lit("<g class=\"frame ") + escaped(v) + lit("\" data-path=\""),
        None => w + lit("<g class=\"frame") + lit("\" data-path=\""),
    }
}

fn write_class(out: &mut Vec<u8>, attributes: &Vec<Attribute>)
    ensures
        final(out)@ == put_class(old(out)@, attributes_view(attributes@)),
{
    let ghost all = attributes_view(attributes@);
    let mut k: usize = 0;
    while k < attributes.len()
        invariant
            k <= attributes@.len(),
            all == attributes_view(attributes@),
            given_class(all, k as int) is None,
            out@ == old(out)@,
        decreases attributes@.len() - k,
    {
        let a = &attributes[k];
        assert(all[k as int] == a@);
        if bytes_equal(a.key.as_slice(), "class".as_bytes()) {
            proof {
                lemma_class_found(all, k + 1, all.len() as int);
            }
            write_lit(out, "<g class=\"frame ");
            write_escaped(out, a.value.as_slice());
            write_lit(out, "\" data-path=\"");
            return ;
        }
        k += 1;
    }
    write_lit(out, "<g class=\"frame");
    write_lit(out, "\" data-path=\"");
}

proof fn lemma_class_found(attributes: Seq<AttributeView>, k: int, n: int)
    requires
        0 <= k <= n,
        given_class(attributes, k) is Some,
    ensures
        given_class(attributes, n) == given_class(attributes, k),
    decreases n - k,
{
    if k < n {
        lemma_class_found(attributes, k, n - 1);
    }
}

/// The text `w` with the start of a frame after it: the group is opened,
/// with the class, the call path, the samples and the attributes that the
/// function of the frame was given, and the title is opened too.
#[verifier::opaque]
pub open spec fn put_frame_start(
    w: Seq<u8>,
    opts: &Options,
    nodes: Seq<Node>,
    f: FrameView,
) -> Seq<u8> {
    let given = attributes_for(opts.func_frameattrs@, nodes[f.node].name@);
    let counted = put_path(put_class(w, given), nodes, f.node) + lit("\" data-samples=\"")
        + decimal_digits(f.samples as nat) + lit("\"");
    put_attributes(counted, given, given.len() as int) + lit("><title>")
}

fn write_frame_start(
    out: &mut Vec<u8>,
    opts: &Options,
    nodes: &Vec<Node>,
    node: usize,
    Ghost(f): Ghost<FrameView>,
)
    requires
        shaped(nodes@),
        node < nodes@.len(),
        f.node == node,
        f.samples == nodes@[node as int].total,
    ensures
        final(out)@ == put_frame_start(old(out)@, opts, nodes@, f),
{
    proof {
        reveal(put_frame_start);
    }
    let none: Vec<Attribute> = Vec::new();
    let given = match opts.func_frameattrs.find(nodes[node].name.as_slice()) {
        Some(i) => {
            assert(opts.func_frameattrs@[i as int] == opts.func_frameattrs.entries@[i as int]@);
            &opts.func_frameattrs.entries[i].attributes
        },
        None => {
            assert(attributes_view(none@) =~= Seq::<AttributeView>::empty());
            &none
        },
    };
    write_class(out, given);
    write_path(out, nodes, node);
    write_lit(out, "\" data-samples=\"");
    push_decimal(out, nodes[node].total as u128);
    write_lit(out, "\"");
    write_attributes(out, given);
    write_lit(out, "><title>");
}

/// The frame of the rectangle `r` with the color `c`.
pub open spec fn frame_view(
    opts: &Options,
    nodes: Seq<Node>,
    differential: bool,
    levels: int,
    r: Rect,
    c: Color,
) -> FrameView {
    FrameView {
        node: r.node as int,
        samples: nodes[r.node as int].total as int,
        all: nodes[0].total as int,
        delta: if differential {
            Some(nodes[r.node as int].secondary - nodes[r.node as int].total)
        } else {
            None
        },
        x: r.x as int,
        width: r.width as int,
        y: frame_top(opts, levels, r.depth as int),
        color: c,
    }
}

fn write_frame(
    out: &mut Vec<u8>,
    opts: &Options,
    nodes: &Vec<Node>,
    differential: bool,
    levels: usize,
    r: Rect,
    c: Color,
)
    requires
        shaped(nodes@),
        r.node < nodes@.len(),
        r.depth < levels,
    ensures
        final(out)@ == put_frame(
            old(out)@,
            opts,
            nodes@,
            frame_view(opts, nodes@, differential, levels as int, r, c),
        ),
{
    let ghost f = frame_view(opts, nodes@, differential, levels as int, r, c);
    let node = &nodes[r.node];
    let samples = node.total;
    let all = nodes[0].total;
    let delta: Option<i128> = if differential {
        Some((node.secondary as i128) - (node.total as i128))
    } else {
        None
    };
    let y = top_of(opts, levels, r.depth);
    let ghost name = node.name@;
    write_frame_start(out, opts, nodes, r.node, Ghost(f));
    let ghost started = out@;
    write_title(out, opts, node.name.as_slice(), samples, all, delta, Ghost(f));
    write_lit(out, "</title>");
    let ghost titled = out@;
    assert(titled == put_title(started, opts, name, f) + lit("</title>"));
    write_rect(out, opts, r.x, y, r.width, c, Ghost(f));
    let ghost framed = out@;
    assert(framed == put_rect(titled, opts, f));
    write_label(out, opts, node.name.as_slice(), r.x, y, r.width, Ghost(f));
    let ghost labelled = out@;
    assert(labelled == put_label(framed, opts, name, f));
    write_lit(out, "</g>");
    write_gap(out, opts);
    assert(out@ == labelled + lit("</g>") + gap(opts));
}

/// The text `w` with the first `k` frames after it.
pub open spec fn put_frames(
    w: Seq<u8>,
    opts: &Options,
    nodes: Seq<Node>,
    differential: bool,
    levels: int,
    rects: Seq<Rect>,
    colors: Seq<Color>,
    k: int,
) -> Seq<u8>
    decreases k,
{
    if k <= 0 {
        w
    } else {
        put_frame(
            put_frames(w, opts, nodes, differential, levels, rects, colors, k - 1),
            opts,
            nodes,
            frame_view(opts, nodes, differential, levels, rects[k - 1], colors[k - 1]),
        )
    }
}

/// Appends the frames, in the order of the rectangles.
pub fn write_frames(
    out: &mut Vec<u8>,
    opts: &Options,
    nodes: &Vec<Node>,
    differential: bool,
    levels: usize,
    rects: &Vec<Rect>,
    colors: &Vec<Color>,
)
    requires
        shaped(nodes@),
        colors@.len() == rects@.len(),
        forall|k: int|
            0 <= k < rects@.len() ==> (#[trigger] rects@[k]).node < nodes@.len() && rects@[k].depth
                < levels,
    ensures
        final(out)@ == put_frames(
            old(out)@,
            opts,
            nodes@,
            differential,
            levels as int,
            rects@,
            colors@,
            rects@.len() as int,
        ),
{
    let mut k: usize = 0;
    while k < rects.len()
        invariant
            k <= rects@.len(),
            shaped(nodes@),
            colors@.len() == rects@.len(),
            forall|j: int|
                0 <= j < rects@.len() ==> (#[trigger] rects@[j]).node < nodes@.len()
                    && rects@[j].depth < levels,
            out@ == put_frames(
                old(out)@,
                opts,
                nodes@,
                differential,
                levels as int,
                rects@,
                colors@,
                k as int,
            ),
        decreases rects@.len() - k,
    {
        write_frame(out, opts, nodes, differential, levels, rects[k], colors[k]);
        k += 1;
    }
}


/// The script that makes the image answer to the pointer: it tells of the
/// frame under the pointer, zooms into a frame on a click, and searches.
pub const SCRIPT: &'static str = "var d,s,fr;function init(e){d=document.getElementById('details');s=document.getElementsByTagName('svg')[0];fr=document.getElementById('frames');}function grp(n){while(n&&n!=s){if(n.getAttribute&&n.getAttribute('class')=='frame')return n;n=n.parentNode;}return null;}function say(t){d.firstChild.nodeValue=t;}window.addEventListener('mouseover',function(e){var g=grp(e.target);if(g)say(d.getAttribute('data-nametype')+' '+g.getElementsByTagName('title')[0].textContent);},false);window.addEventListener('mouseout',function(e){if(grp(e.target))say(' ');},false);window.addEventListener('click',function(e){var g=grp(e.target);if(g)zoom(g);else if(e.target.id=='unzoom')unzoom();else if(e.target.id=='search')find();},false);function keep(r,t){if(!r.hasAttribute('data-x')){r.setAttribute('data-x',r.getAttribute('x'));r.setAttribute('data-w',r.getAttribute('width'));t.setAttribute('data-x',t.getAttribute('x'));}}function zoom(g){var z=g.getElementsByTagName('rect')[0];keep(z,g.getElementsByTagName('text')[0]);var x0=parseFloat(z.getAttribute('data-x')),w0=parseFloat(z.getAttribute('data-w')),W=parseFloat(s.getAttribute('width')),k=W/w0,p=g.getAttribute('data-path'),c=fr.children;for(var i=0;i<c.length;i++){var r=c[i].getElementsByTagName('rect')[0],t=c[i].getElementsByTagName('text')[0];keep(r,t);var q=c[i].getAttribute('data-path'),x=parseFloat(r.getAttribute('data-x')),w=parseFloat(r.getAttribute('data-w'));if(q==p||q.indexOf(p+';')==0){c[i].style.display='';r.setAttribute('x',(x-x0)*k);r.setAttribute('width',w*k);t.setAttribute('x',(x-x0)*k+3);}else if(p.indexOf(q+';')==0){c[i].style.display='';r.setAttribute('x',0);r.setAttribute('width',W);t.setAttribute('x',3);}else{c[i].style.display='none';}}document.getElementById('unzoom').setAttribute('class','');}function unzoom(){var c=fr.children;for(var i=0;i<c.length;i++){var r=c[i].getElementsByTagName('rect')[0],t=c[i].getElementsByTagName('text')[0];if(r.hasAttribute('data-x')){r.setAttribute('x',r.getAttribute('data-x'));r.setAttribute('width',r.getAttribute('data-w'));t.setAttribute('x',t.getAttribute('data-x'));}c[i].style.display='';}document.getElementById('unzoom').setAttribute('class','hide');}function find(){var q=prompt('Enter a search term (regexp allowed, eg: ^ext4_)',''),c=fr.children,m=0;for(var i=0;i<c.length;i++){var r=c[i].getElementsByTagName('rect')[0];if(r.hasAttribute('data-f')){r.setAttribute('fill',r.getAttribute('data-f'));r.removeAttribute('data-f');}}if(!q){document.getElementById('matched').firstChild.nodeValue=' ';return;}var re=new RegExp(q);for(var i=0;i<c.length;i++){var p=c[i].getAttribute('data-path'),nm=p.substring(p.lastIndexOf(';')+1);if(re.test(nm)){var r=c[i].getElementsByTagName('rect')[0];r.setAttribute('data-f',r.getAttribute('fill'));r.setAttribute('fill','rgb(230,0,230)');m++;}}document.getElementById('matched').firstChild.nodeValue='Matched: '+m;}";

/// The background of the graph: the one that was asked for, and else the
/// one that goes with the palette.
pub open spec fn spec_background(opts: &Options) -> BackgroundColor {
    match opts.bgcolors {
        Some(b) => b,
        None => match opts.colors {
            Palette::Mem => BackgroundColor::Green,
            Palette::Io => BackgroundColor::Blue,
            Palette::Wakeup => BackgroundColor::Blue,
            _ => BackgroundColor::Yellow,
        },
    }
}

/// The colors at the top and at the bottom of a background.
pub open spec fn spec_gradient(b: BackgroundColor) -> (Color, Color) {
    match b {
        BackgroundColor::Yellow => (
            Color { r: 238, g: 238, b: 238 },
            Color { r: 238, g: 238, b: 176 },
        ),
        BackgroundColor::Blue => (
            Color { r: 238, g: 238, b: 238 },
            Color { r: 224, g: 224, b: 255 },
        ),
        BackgroundColor::Green => (
            Color { r: 238, g: 242, b: 238 },
            Color { r: 224, g: 255, b: 224 },
        ),
        BackgroundColor::Grey => (
            Color { r: 248, g: 248, b: 248 },
            Color { r: 232, g: 232, b: 232 },
        ),
        BackgroundColor::Flat(c) => (c, c),
    }
}

/// The colors at the top and at the bottom of the background of the graph.
pub fn gradient_of(opts: &Options) -> (g: (Color, Color))
    ensures
        g == spec_gradient(spec_background(opts)),
{
    let b = match opts.bgcolors {
        Some(b) => b,
        None => match opts.colors {
            Palette::Mem => BackgroundColor::Green,
            Palette::Io => BackgroundColor::Blue,
            Palette::Wakeup => BackgroundColor::Blue,
            _ => BackgroundColor::Yellow,
        },
    };
    match b {
        BackgroundColor::Yellow => (
            Color { r: 238, g: 238, b: 238 },
            Color { r: 238, g: 238, b: 176 },
        ),
        BackgroundColor::Blue => (
            Color { r: 238, g: 238, b: 238 },
            Color { r: 224, g: 224, b: 255 },
        ),
        BackgroundColor::Green => (
            Color { r: 238, g: 242, b: 238 },
            Color { r: 224, g: 255, b: 224 },
        ),
        BackgroundColor::Grey => (
            Color { r: 248, g: 248, b: 248 },
            Color { r: 232, g: 232, b: 232 },
        ),
        BackgroundColor::Flat(c) => (c, c),
    }
}

/// The text `w` with the start of the document after it: the declaration,
/// and the root element with the size of the image.
#[verifier::opaque]
pub open spec fn put_prolog(w: Seq<u8>, opts: &Options, height: int) -> Seq<u8> {
    let declared = w + lit("<?xml version=\"1.0\" standalone=\"no\"?>") + gap(opts) + lit(
        "<svg version=\"1.1\" width=\"",
    ) + decimal_digits(opts.image_width as nat) + lit("\" height=\"") + decimal_digits(
        height as nat,
    );
    let boxed = declared + lit("\" viewBox=\"0 0 ") + decimal_digits(opts.image_width as nat)
        + lit(" ") + decimal_digits(height as nat);
    let loaded = if opts.no_javascript {
        boxed
    } else {
        boxed + lit("\" onload=\"init(evt)")
    };
    loaded + lit("\" xmlns=\"http://www.w3.org/2000/svg\">") + gap(opts)
}

fn write_prolog(out: &mut Vec<u8>, opts: &Options, height: u128)
    ensures
        final(out)@ == put_prolog(old(out)@, opts, height as int),
{
    proof {
        reveal(put_prolog);
    }
    write_lit(out, "<?xml version=\"1.0\" standalone=\"no\"?>");
    write_gap(out, opts);
    write_lit(out, "<svg version=\"1.1\" width=\"");
    push_decimal(out, opts.image_width as u128);
    write_lit(out, "\" height=\"");
    push_decimal(out, height);
    write_lit(out, "\" viewBox=\"0 0 ");
    push_decimal(out, opts.image_width as u128);
    write_lit(out, " ");
    push_decimal(out, height);
    if !opts.no_javascript {
        write_lit(out, "\" onload=\"init(evt)");
    }
    write_lit(out, "\" xmlns=\"http://www.w3.org/2000/svg\">");
    write_gap(out, opts);
}

/// The text `w` with the notes and the background after it.
#[verifier::opaque]
pub open spec fn put_defs(w: Seq<u8>, opts: &Options) -> Seq<u8> {
    let noted = w + lit("<desc>") + escaped(opts.notes@) + lit("</desc>") + gap(opts);
    noted + lit(
        "<defs><linearGradient id=\"background\" y1=\"0\" y2=\"1\" x1=\"0\" x2=\"0\"><stop stop-color=\"",
    ) + color_text(spec_gradient(spec_background(opts)).0) + lit(
        "\" offset=\"5%\"/><stop stop-color=\"",
    ) + color_text(spec_gradient(spec_background(opts)).1) + lit(
        "\" offset=\"95%\"/></linearGradient></defs>",
    ) + gap(opts)
}

fn write_defs(out: &mut Vec<u8>, opts: &Options)
    ensures
        final(out)@ == put_defs(old(out)@, opts),
{
    proof {
        reveal(put_defs);
    }
    write_lit(out, "<desc>");
    write_escaped(out, opts.notes.as_slice());
    write_lit(out, "</desc>");
    write_gap(out, opts);
    let g = gradient_of(opts);
    write_lit(
        out,
        "<defs><linearGradient id=\"background\" y1=\"0\" y2=\"1\" x1=\"0\" x2=\"0\"><stop stop-color=\"",
    );
    push_color(out, g.0);
    write_lit(out, "\" offset=\"5%\"/><stop stop-color=\"");
    push_color(out, g.1);
    write_lit(out, "\" offset=\"95%\"/></linearGradient></defs>");
    write_gap(out, opts);
}

/// The text `w` with the style sheet and, unless it is left out, the script after it.
#[verifier::opaque]
pub open spec fn put_style(w: Seq<u8>, opts: &Options) -> Seq<u8> {
    let styled = w + lit("<style type=\"text/css\">text{font-family:") + escaped(opts.font_type@)
        + lit(";font-size:") + decimal_digits(opts.font_size as nat) + lit(
        "px;fill:rgb(0,0,0);}.frame:hover{stroke:black;stroke-width:0.5;cursor:pointer;}.hide{display:none;}</style>",
    ) + gap(opts);
    if opts.no_javascript {
        styled
    } else {
        styled + lit("<script type=\"text/ecmascript\">") + escaped(lit(SCRIPT)) + lit(
            "</script>",
        ) + gap(opts)
    }
}

fn write_style(out: &mut Vec<u8>, opts: &Options)
    ensures
        final(out)@ == put_style(old(out)@, opts),
{
    proof {
        reveal(put_style);
    }
    write_lit(out, "<style type=\"text/css\">text{font-family:");
    write_escaped(out, opts.font_type.as_slice());
    write_lit(out, ";font-size:");
    push_decimal(out, opts.font_size as u128);
    write_lit(
        out,
        "px;fill:rgb(0,0,0);}.frame:hover{stroke:black;stroke-width:0.5;cursor:pointer;}.hide{display:none;}</style>",
    );
    write_gap(out, opts);
    if !opts.no_javascript {
        write_lit(out, "<script type=\"text/ecmascript\">");
        write_escaped(out, SCRIPT.as_bytes());
        write_lit(out, "</script>");
        write_gap(out, opts);
    }
}

/// The text `w` with the backdrop and the title after it, and the subtitle
/// where there is one.
#[verifier::opaque]
pub open spec fn put_heading(w: Seq<u8>, opts: &Options, height: int) -> Seq<u8> {
    let backed = w + lit("<rect x=\"0\" y=\"0\" width=\"") + decimal_digits(
        opts.image_width as nat,
    ) + lit("\" height=\"") + decimal_digits(height as nat) + lit(
        "\" fill=\"url(#background)\"/>",
    ) + gap(opts);
    let titled = backed + lit("<text id=\"title\" text-anchor=\"middle\" x=\"") + decimal_digits(
        (opts.image_width / 2) as nat,
    ) + lit("\" y=\"") + decimal_digits(opts.frame_height as nat) + lit(
        "\" style=\"font-size:",
    ) + decimal_digits((opts.font_size + 5) as nat) + lit("px\">") + escaped(opts.title@) + lit(
        "</text>",
    ) + gap(opts);
    match opts.subtitle {
        Some(sub) => titled + lit("<text id=\"subtitle\" text-anchor=\"middle\" x=\"")
            + decimal_digits((opts.image_width / 2) as nat) + lit("\" y=\"") + decimal_digits(
            (2 * opts.frame_height) as nat,
        ) + lit("\">") + escaped(sub@) + lit("</text>") + gap(opts),
        None => titled,
    }
}

fn write_heading(out: &mut Vec<u8>, opts: &Options, height: u128)
    ensures
        final(out)@ == put_heading(old(out)@, opts, height as int),
{
    proof {
        reveal(put_heading);
    }
    write_lit(out, "<rect x=\"0\" y=\"0\" width=\"");
    push_decimal(out, opts.image_width as u128);
    write_lit(out, "\" height=\"");
    push_decimal(out, height);
    write_lit(out, "\" fill=\"url(#background)\"/>");
    write_gap(out, opts);
    write_lit(out, "<text id=\"title\" text-anchor=\"middle\" x=\"");
    push_decimal(out, (opts.image_width / 2) as u128);
    write_lit(out, "\" y=\"");
    push_decimal(out, opts.frame_height as u128);
    write_lit(out, "\" style=\"font-size:");
    push_decimal(out, opts.font_size as u128 + 5);
    write_lit(out, "px\">");
    write_escaped(out, opts.title.as_slice());
    write_lit(out, "</text>");
    write_gap(out, opts);
    match &opts.subtitle {
        Some(sub) => {
            write_lit(out, "<text id=\"subtitle\" text-anchor=\"middle\" x=\"");
            push_decimal(out, (opts.image_width / 2) as u128);
            write_lit(out, "\" y=\"");
            push_decimal(out, 2 * (opts.frame_height as u128));
            write_lit(out, "\">");
            write_escaped(out, sub.as_slice());
            write_lit(out, "</text>");
            write_gap(out, opts);
        },
        None => {},
    }
}

/// The line at the foot of the image, in pixels.
pub open spec fn foot_line(opts: &Options, height: int) -> int {
    height - opts.font_size - 5
}

/// The text `w` with the controls after it: the line that tells of the
/// frame under the pointer, the two buttons, and the count of matches.
#[verifier::opaque]
pub open spec fn put_controls(w: Seq<u8>, opts: &Options, height: int) -> Seq<u8> {
    let told = w + lit("<text id=\"details\" data-nametype=\"") + escaped(opts.name_type@) + lit(
        "\" x=\"10\" y=\"",
    ) + decimal_digits(foot_line(opts, height) as nat) + lit("\"> </text>") + gap(opts);
    let zoomed = told + lit("<text id=\"unzoom\" class=\"hide\" x=\"10\" y=\"") + decimal_digits(
        opts.frame_height as nat,
    ) + lit("\">Reset Zoom</text>") + gap(opts);
    let searched = zoomed + lit("<text id=\"search\" text-anchor=\"end\" x=\"") + decimal_digits(
        opts.image_width as nat,
    ) + lit("\" y=\"") + decimal_digits(opts.frame_height as nat) + lit("\">Search</text>") + gap(
        opts,
    );
    searched + lit("<text id=\"matched\" text-anchor=\"end\" x=\"") + decimal_digits(
        opts.image_width as nat,
    ) + lit("\" y=\"") + decimal_digits(foot_line(opts, height) as nat) + lit("\"> </text>") + gap(
        opts,
    )
}

fn write_controls(out: &mut Vec<u8>, opts: &Options, height: u128)
    requires
        height >= 2 * opts.font_size + 10,
    ensures
        final(out)@ == put_controls(old(out)@, opts, height as int),
{
    proof {
        reveal(put_controls);
    }
    let foot = height - (opts.font_size as u128) - 5;
    write_lit(out, "<text id=\"details\" data-nametype=\"");
    write_escaped(out, opts.name_type.as_slice());
    write_lit(out, "\" x=\"10\" y=\"");
    push_decimal(out, foot);
    write_lit(out, "\"> </text>");
    write_gap(out, opts);
    write_lit(out, "<text id=\"unzoom\" class=\"hide\" x=\"10\" y=\"");
    push_decimal(out, opts.frame_height as u128);
    write_lit(out, "\">Reset Zoom</text>");
    write_gap(out, opts);
    write_lit(out, "<text id=\"search\" text-anchor=\"end\" x=\"");
    push_decimal(out, opts.image_width as u128);
    write_lit(out, "\" y=\"");
    push_decimal(out, opts.frame_height as u128);
    write_lit(out, "\">Search</text>");
    write_gap(out, opts);
    write_lit(out, "<text id=\"matched\" text-anchor=\"end\" x=\"");
    push_decimal(out, opts.image_width as u128);
    write_lit(out, "\" y=\"");
    push_decimal(out, foot);
    write_lit(out, "\"> </text>");
    write_gap(out, opts);
}

/// The document: what stands before the frames, the frames in the order of
/// the rectangles, and the end of the document.
pub open spec fn spec_svg(
    opts: &Options,
    nodes: Seq<Node>,
    differential: bool,
    levels: int,
    rects: Seq<Rect>,
    colors: Seq<Color>,
) -> Seq<u8> {
    let height = image_height(opts, levels);
    let styled = put_style(put_defs(put_prolog(Seq::empty(), opts, height), opts), opts);
    let headed = put_controls(put_heading(styled, opts, height), opts, height);
    let framed = put_frames(
        headed + lit("<g id=\"frames\">") + gap(opts),
        opts,
        nodes,
        differential,
        levels,
        rects,
        colors,
        rects.len() as int,
    );
    framed + lit("</g>") + gap(opts) + lit("</svg>") + gap(opts)
}

/// Writes the image.
///
/// The output is the same bytes for the same tree, rectangles, colors and
/// settings. With `pretty_xml` a line feed stands after each element, and
/// nothing else differs.
pub fn render(
    opts: &Options,
    nodes: &Vec<Node>,
    differential: bool,
    levels: usize,
    rects: &Vec<Rect>,
    colors: &Vec<Color>,
) -> (svg: Vec<u8>)
    requires
        shaped(nodes@),
        colors@.len() == rects@.len(),
        forall|k: int|
            0 <= k < rects@.len() ==> (#[trigger] rects@[k]).node < nodes@.len() && rects@[k].depth
                < levels,
    ensures
        svg@ == spec_svg(opts, nodes@, differential, levels as int, rects@, colors@),
{
    let mut out: Vec<u8> = Vec::new();
    let height = height_of(opts, levels);
    write_prolog(&mut out, opts, height);
    write_defs(&mut out, opts);
    write_style(&mut out, opts);
    write_heading(&mut out, opts, height);
    assert(height >= 2 * opts.font_size + 10) by (nonlinear_arith)
        requires
            height == (levels + header_rows(opts)) * opts.frame_height + (2 * opts.font_size + 10),
            levels >= 0,
            header_rows(opts) >= 0,
            opts.frame_height >= 0,
    ;
    write_controls(&mut out, opts, height);
    write_lit(&mut out, "<g id=\"frames\">");
    write_gap(&mut out, opts);
    write_frames(&mut out, opts, nodes, differential, levels, rects, colors);
    write_lit(&mut out, "</g>");
    write_gap(&mut out, opts);
    write_lit(&mut out, "</svg>");
    write_gap(&mut out, opts);
    out
}

} // verus!
