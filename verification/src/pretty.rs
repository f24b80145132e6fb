//! A document that is written to be easy to read differs from the plain
//! document in line feeds only.

use crate::attrs::{
    attributes_for, first_place, is_key_byte, loaded, spec_attribute, spec_attributes,
    spec_frame_attrs, spec_load, AttributeView, FrameAttrsView,
};
use crate::text::split_on;
use crate::color::Color;
use crate::layout::Rect;
use crate::line::Annotation;
use crate::options::Options;
use crate::palette_map::{color_text, lemma_color_round_trip};
use crate::svg::{
    escaped, escaped_byte, frame_view, gap, hundredths, image_height, lit, put_attributes,
    put_change, put_class, put_controls, put_defs, put_frame, put_frame_start, put_frames,
    put_heading,
    put_label, put_path, put_prolog, put_rect, put_style, put_title, spec_svg, tag_text,
    thousandths, FrameView,
};
use crate::text::{decimal_digits, lemma_decimal_round_trip};
use crate::tree::Node;
use vstd::prelude::*;

verus! {

/// The text without its line feeds.
pub open spec fn without_line_feeds(s: Seq<u8>) -> Seq<u8>
    decreases s.len(),
{
    if s.len() == 0 {
        Seq::empty()
    } else if s.last() == 0x0a {
        without_line_feeds(s.drop_last())
    } else {
        without_line_feeds(s.drop_last()).push(s.last())
    }
}

/// The text holds no line feed.
pub open spec fn plain(s: Seq<u8>) -> bool {
    forall|i: int| 0 <= i < s.len() ==> s[i] != 0x0a
}

/// The two settings are the same but for this: the first asks for a
/// document that is easy to read and the second does not.
pub open spec fn same_but_pretty(pretty: &Options, compact: &Options) -> bool {
    &&& pretty.pretty_xml
    &&& !compact.pretty_xml
    &&& pretty.colors == compact.colors
    &&& pretty.bgcolors == compact.bgcolors
    &&& pretty.hash == compact.hash
    &&& pretty.direction == compact.direction
    &&& pretty.title@ == compact.title@
    &&& pretty.subtitle is Some == compact.subtitle is Some
    &&& (pretty.subtitle matches Some(a) ==> compact.subtitle matches Some(b) && a@ == b@)
    &&& pretty.image_width == compact.image_width
    &&& pretty.frame_height == compact.frame_height
    &&& pretty.min_width == compact.min_width
    &&& pretty.font_type@ == compact.font_type@
    &&& pretty.font_size == compact.font_size
    &&& pretty.font_width == compact.font_width
    &&& pretty.count_name@ == compact.count_name@
    &&& pretty.name_type@ == compact.name_type@
    &&& pretty.notes@ == compact.notes@
    &&& pretty.negate_differentials == compact.negate_differentials
    &&& pretty.factor == compact.factor
    &&& pretty.no_javascript == compact.no_javascript
    &&& pretty.func_frameattrs@ == compact.func_frameattrs@
}

/// No key of the attributes holds a line feed.
pub open spec fn attributes_plain(attributes: Seq<AttributeView>) -> bool {
    forall|j: int| 0 <= j < attributes.len() ==> plain(#[trigger] attributes[j].key)
}

/// No key of an attribute of any function holds a line feed.
pub open spec fn keys_plain(entries: Seq<FrameAttrsView>) -> bool {
    forall|e: int| 0 <= e < entries.len() ==> attributes_plain(#[trigger] entries[e].attributes)
}

proof fn lemma_without_add(a: Seq<u8>, b: Seq<u8>)
    ensures
        without_line_feeds(a + b) == without_line_feeds(a) + without_line_feeds(b),
    decreases b.len(),
{
    if b.len() == 0 {
        assert(a + b =~= a);
        assert(without_line_feeds(a) + without_line_feeds(b) =~= without_line_feeds(a));
    } else {
        lemma_without_add(a, b.drop_last());
        assert((a + b).drop_last() =~= a + b.drop_last());
        assert((a + b).last() == b.last());
        if b.last() != 0x0a {
            assert((without_line_feeds(a) + without_line_feeds(b.drop_last())).push(b.last())
                =~= without_line_feeds(a) + without_line_feeds(b.drop_last()).push(b.last()));
        }
    }
}

proof fn lemma_without_plain(s: Seq<u8>)
    requires
        plain(s),
    ensures
        without_line_feeds(s) == s,
    decreases s.len(),
{
    if s.len() > 0 {
        lemma_without_plain(s.drop_last());
        assert(s.drop_last().push(s.last()) =~= s);
    } else {
        assert(s =~= Seq::<u8>::empty());
    }
}

proof fn lemma_plain_literal(s: &str)
    requires
        vstd::string::is_ascii(s),
        forall|i: int| 0 <= i < s@.len() ==> s@[i] != '\n',
    ensures
        without_line_feeds(lit(s)) == lit(s),
{
    vstd::string::is_ascii_spec_bytes(s);
    let b = lit(s);
    assert forall|i: int| 0 <= i < b.len() implies b[i] != 0x0a by {
        assert(b[i] == s@[i] as u8);
    }
    lemma_without_plain(b);
}

proof fn lemma_plain_escaped(s: Seq<u8>)
    ensures
        plain(escaped(s)),
    decreases s.len(),
{
    if s.len() > 0 {
        lemma_plain_escaped(s.drop_last());
        let a = escaped(s.drop_last());
        let b = escaped_byte(s.last());
        assert(plain(b));
        assert forall|i: int| 0 <= i < (a + b).len() implies (a + b)[i] != 0x0a by {
            if i < a.len() {
                assert((a + b)[i] == a[i]);
            } else {
                assert((a + b)[i] == b[i - a.len()]);
            }
        }
    }
}

proof fn lemma_plain_digits(n: nat)
    ensures
        plain(decimal_digits(n)),
        plain(thousandths(n)),
        plain(hundredths(n)),
{
    lemma_decimal_round_trip(n);
    lemma_decimal_round_trip(n / 1000);
    lemma_decimal_round_trip(n / 100);
    let d = decimal_digits(n);
    assert forall|i: int| 0 <= i < d.len() implies d[i] != 0x0a by {
        assert(crate::text::is_digit(d[i]));
    }
    let t = decimal_digits(n / 1000);
    assert forall|i: int| 0 <= i < thousandths(n).len() implies thousandths(n)[i] != 0x0a by {
        if i < t.len() {
            assert(crate::text::is_digit(t[i]));
        }
    }
    let h = decimal_digits(n / 100);
    assert forall|i: int| 0 <= i < hundredths(n).len() implies hundredths(n)[i] != 0x0a by {
        if i < h.len() {
            assert(crate::text::is_digit(h[i]));
        }
    }
}

/// What taking the line feeds out does to the pieces of the document.
proof fn lemma_pieces()
    ensures
        forall|a: Seq<u8>, b: Seq<u8>| #[trigger]
            without_line_feeds(a + b) == without_line_feeds(a) + without_line_feeds(b),
        forall|a: Seq<u8>, x: u8|
            x != 0x0a ==> #[trigger] without_line_feeds(a.push(x)) == without_line_feeds(a).push(
                x,
            ),
        forall|n: nat| without_line_feeds(#[trigger] decimal_digits(n)) == decimal_digits(n),
        forall|n: nat| without_line_feeds(#[trigger] thousandths(n)) == thousandths(n),
        forall|n: nat| without_line_feeds(#[trigger] hundredths(n)) == hundredths(n),
        forall|s: Seq<u8>| without_line_feeds(#[trigger] escaped(s)) == escaped(s),
        forall|c: Color| without_line_feeds(#[trigger] color_text(c)) == color_text(c),
        forall|t: Annotation| without_line_feeds(#[trigger] tag_text(t)) == tag_text(t),
        without_line_feeds(seq![0x0au8]) == Seq::<u8>::empty(),
        without_line_feeds(seq![0x2bu8]) == seq![0x2bu8],
        without_line_feeds(seq![0x2du8]) == seq![0x2du8],
        without_line_feeds(Seq::<u8>::empty()) == Seq::<u8>::empty(),
{
    assert forall|a: Seq<u8>, b: Seq<u8>| #[trigger]
        without_line_feeds(a + b) == without_line_feeds(a) + without_line_feeds(b) by {
        lemma_without_add(a, b);
    }
    assert forall|a: Seq<u8>, x: u8| x != 0x0a implies #[trigger] without_line_feeds(a.push(x))
        == without_line_feeds(a).push(x) by {
        assert(a.push(x).drop_last() =~= a);
    }
    assert forall|n: nat| without_line_feeds(#[trigger] decimal_digits(n)) == decimal_digits(n) by {
        lemma_plain_digits(n);
        lemma_without_plain(decimal_digits(n));
    }
    assert forall|n: nat| without_line_feeds(#[trigger] thousandths(n)) == thousandths(n) by {
        lemma_plain_digits(n);
        lemma_without_plain(thousandths(n));
    }
    assert forall|n: nat| without_line_feeds(#[trigger] hundredths(n)) == hundredths(n) by {
        lemma_plain_digits(n);
        lemma_without_plain(hundredths(n));
    }
    assert forall|s: Seq<u8>| without_line_feeds(#[trigger] escaped(s)) == escaped(s) by {
        lemma_plain_escaped(s);
        lemma_without_plain(escaped(s));
    }
    assert forall|c: Color| without_line_feeds(#[trigger] color_text(c)) == color_text(c) by {
        lemma_color_round_trip(c);
        assert forall|i: int| 0 <= i < color_text(c).len() implies color_text(c)[i] != 0x0a by {
            assert(color_text(c).contains(color_text(c)[i]));
        }
        lemma_without_plain(color_text(c));
    }
    assert forall|t: Annotation| without_line_feeds(#[trigger] tag_text(t)) == tag_text(t) by {
        lemma_without_plain(tag_text(t));
    }
    lemma_without_plain(seq![0x2bu8]);
    lemma_without_plain(seq![0x2du8]);
    let feed = seq![0x0au8];
    assert(feed.drop_last() =~= Seq::<u8>::empty());
}

proof fn lemma_literals_of_put_change()
    ensures
        without_line_feeds(lit("; ")) == lit("; "),
        without_line_feeds(lit("%")) == lit("%"),
{
    reveal_strlit("; ");
    lemma_plain_literal("; ");
    reveal_strlit("%");
    lemma_plain_literal("%");
}

proof fn lemma_literals_of_put_title()
    ensures
        without_line_feeds(lit(" (")) == lit(" ("),
        without_line_feeds(lit(" ")) == lit(" "),
        without_line_feeds(lit(", ")) == lit(", "),
        without_line_feeds(lit("%")) == lit("%"),
        without_line_feeds(lit(")")) == lit(")"),
{
    reveal_strlit(" (");
    lemma_plain_literal(" (");
    reveal_strlit(" ");
    lemma_plain_literal(" ");
    reveal_strlit(", ");
    lemma_plain_literal(", ");
    reveal_strlit("%");
    lemma_plain_literal("%");
    reveal_strlit(")");
    lemma_plain_literal(")");
}

proof fn lemma_literals_of_put_rect()
    ensures
        without_line_feeds(lit("<rect x=\"")) == lit("<rect x=\""),
        without_line_feeds(lit("\" y=\"")) == lit("\" y=\""),
        without_line_feeds(lit("\" width=\"")) == lit("\" width=\""),
        without_line_feeds(lit("\" height=\"")) == lit("\" height=\""),
        without_line_feeds(lit("\" fill=\"")) == lit("\" fill=\""),
        without_line_feeds(lit("\"/>")) == lit("\"/>"),
{
    reveal_strlit("<rect x=\"");
    lemma_plain_literal("<rect x=\"");
    reveal_strlit("\" y=\"");
    lemma_plain_literal("\" y=\"");
    reveal_strlit("\" width=\"");
    lemma_plain_literal("\" width=\"");
    reveal_strlit("\" height=\"");
    lemma_plain_literal("\" height=\"");
    reveal_strlit("\" fill=\"");
    lemma_plain_literal("\" fill=\"");
    reveal_strlit("\"/>");
    lemma_plain_literal("\"/>");
}

proof fn lemma_literals_of_put_label()
    ensures
        without_line_feeds(lit("<text x=\"")) == lit("<text x=\""),
        without_line_feeds(lit("\" y=\"")) == lit("\" y=\""),
        without_line_feeds(lit("\">")) == lit("\">"),
        without_line_feeds(lit("</text>")) == lit("</text>"),
{
    reveal_strlit("<text x=\"");
    lemma_plain_literal("<text x=\"");
    reveal_strlit("\" y=\"");
    lemma_plain_literal("\" y=\"");
    reveal_strlit("\">");
    lemma_plain_literal("\">");
    reveal_strlit("</text>");
    lemma_plain_literal("</text>");
}

proof fn lemma_literals_of_put_frame()
    ensures
        without_line_feeds(lit("</title>")) == lit("</title>"),
        without_line_feeds(lit("</g>")) == lit("</g>"),
{
    reveal_strlit("</title>");
    lemma_plain_literal("</title>");
    reveal_strlit("</g>");
    lemma_plain_literal("</g>");
}

proof fn lemma_literals_of_put_attributes()
    ensures
        without_line_feeds(lit(" ")) == lit(" "),
        without_line_feeds(lit("=\"")) == lit("=\""),
        without_line_feeds(lit("\"")) == lit("\""),
{
    reveal_strlit(" ");
    lemma_plain_literal(" ");
    reveal_strlit("=\"");
    lemma_plain_literal("=\"");
    reveal_strlit("\"");
    lemma_plain_literal("\"");
}

proof fn lemma_literals_of_put_frame_start()
    ensures
        without_line_feeds(lit("\" data-samples=\"")) == lit("\" data-samples=\""),
        without_line_feeds(lit("\"")) == lit("\""),
        without_line_feeds(lit("><title>")) == lit("><title>"),
{
    reveal_strlit("\" data-samples=\"");
    lemma_plain_literal("\" data-samples=\"");
    reveal_strlit("\"");
    lemma_plain_literal("\"");
    reveal_strlit("><title>");
    lemma_plain_literal("><title>");
}

proof fn lemma_literals_of_put_class()
    ensures
        without_line_feeds(lit("<g class=\"frame ")) == lit("<g class=\"frame "),
        without_line_feeds(lit("<g class=\"frame")) == lit("<g class=\"frame"),
        without_line_feeds(lit("\" data-path=\"")) == lit("\" data-path=\""),
{
    reveal_strlit("<g class=\"frame ");
    lemma_plain_literal("<g class=\"frame ");
    reveal_strlit("<g class=\"frame");
    lemma_plain_literal("<g class=\"frame");
    reveal_strlit("\" data-path=\"");
    lemma_plain_literal("\" data-path=\"");
}

proof fn lemma_literals_of_put_prolog_a()
    ensures
        without_line_feeds(lit("<?xml version=\"1.0\" standalone=\"no\"?>")) == lit("<?xml version=\"1.0\" standalone=\"no\"?>"),
        without_line_feeds(lit("<svg version=\"1.1\" width=\"")) == lit("<svg version=\"1.1\" width=\""),
        without_line_feeds(lit("\" height=\"")) == lit("\" height=\""),
        without_line_feeds(lit("\" viewBox=\"0 0 ")) == lit("\" viewBox=\"0 0 "),
{
    reveal_strlit("<?xml version=\"1.0\" standalone=\"no\"?>");
    lemma_plain_literal("<?xml version=\"1.0\" standalone=\"no\"?>");
    reveal_strlit("<svg version=\"1.1\" width=\"");
    lemma_plain_literal("<svg version=\"1.1\" width=\"");
    reveal_strlit("\" height=\"");
    lemma_plain_literal("\" height=\"");
    reveal_strlit("\" viewBox=\"0 0 ");
    lemma_plain_literal("\" viewBox=\"0 0 ");
}

proof fn lemma_literals_of_put_prolog_b()
    ensures
        without_line_feeds(lit(" ")) == lit(" "),
        without_line_feeds(lit("\" onload=\"init(evt)")) == lit("\" onload=\"init(evt)"),
        without_line_feeds(lit("\" xmlns=\"http://www.w3.org/2000/svg\">")) == lit("\" xmlns=\"http://www.w3.org/2000/svg\">"),
{
    reveal_strlit(" ");
    lemma_plain_literal(" ");
    reveal_strlit("\" onload=\"init(evt)");
    lemma_plain_literal("\" onload=\"init(evt)");
    reveal_strlit("\" xmlns=\"http://www.w3.org/2000/svg\">");
    lemma_plain_literal("\" xmlns=\"http://www.w3.org/2000/svg\">");
}

proof fn lemma_literals_of_put_defs()
    ensures
        without_line_feeds(lit("<desc>")) == lit("<desc>"),
        without_line_feeds(lit("</desc>")) == lit("</desc>"),
        without_line_feeds(lit("<defs><linearGradient id=\"background\" y1=\"0\" y2=\"1\" x1=\"0\" x2=\"0\"><stop stop-color=\"")) == lit("<defs><linearGradient id=\"background\" y1=\"0\" y2=\"1\" x1=\"0\" x2=\"0\"><stop stop-color=\""),
        without_line_feeds(lit("\" offset=\"5%\"/><stop stop-color=\"")) == lit("\" offset=\"5%\"/><stop stop-color=\""),
        without_line_feeds(lit("\" offset=\"95%\"/></linearGradient></defs>")) == lit("\" offset=\"95%\"/></linearGradient></defs>"),
{
    reveal_strlit("<desc>");
    lemma_plain_literal("<desc>");
    reveal_strlit("</desc>");
    lemma_plain_literal("</desc>");
    reveal_strlit("<defs><linearGradient id=\"background\" y1=\"0\" y2=\"1\" x1=\"0\" x2=\"0\"><stop stop-color=\"");
    lemma_plain_literal("<defs><linearGradient id=\"background\" y1=\"0\" y2=\"1\" x1=\"0\" x2=\"0\"><stop stop-color=\"");
    reveal_strlit("\" offset=\"5%\"/><stop stop-color=\"");
    lemma_plain_literal("\" offset=\"5%\"/><stop stop-color=\"");
    reveal_strlit("\" offset=\"95%\"/></linearGradient></defs>");
    lemma_plain_literal("\" offset=\"95%\"/></linearGradient></defs>");
}

proof fn lemma_literals_of_put_style()
    ensures
        without_line_feeds(lit("<style type=\"text/css\">text{font-family:")) == lit("<style type=\"text/css\">text{font-family:"),
        without_line_feeds(lit(";font-size:")) == lit(";font-size:"),
        without_line_feeds(lit("px;fill:rgb(0,0,0);}.frame:hover{stroke:black;stroke-width:0.5;cursor:pointer;}.hide{display:none;}</style>")) == lit("px;fill:rgb(0,0,0);}.frame:hover{stroke:black;stroke-width:0.5;cursor:pointer;}.hide{display:none;}</style>"),
        without_line_feeds(lit("<script type=\"text/ecmascript\">")) == lit("<script type=\"text/ecmascript\">"),
        without_line_feeds(lit("</script>")) == lit("</script>"),
{
    reveal_strlit("<style type=\"text/css\">text{font-family:");
    lemma_plain_literal("<style type=\"text/css\">text{font-family:");
    reveal_strlit(";font-size:");
    lemma_plain_literal(";font-size:");
    reveal_strlit("px;fill:rgb(0,0,0);}.frame:hover{stroke:black;stroke-width:0.5;cursor:pointer;}.hide{display:none;}</style>");
    lemma_plain_literal("px;fill:rgb(0,0,0);}.frame:hover{stroke:black;stroke-width:0.5;cursor:pointer;}.hide{display:none;}</style>");
    reveal_strlit("<script type=\"text/ecmascript\">");
    lemma_plain_literal("<script type=\"text/ecmascript\">");
    reveal_strlit("</script>");
    lemma_plain_literal("</script>");
}

proof fn lemma_literals_of_put_heading_a()
    ensures
        without_line_feeds(lit("<rect x=\"0\" y=\"0\" width=\"")) == lit("<rect x=\"0\" y=\"0\" width=\""),
        without_line_feeds(lit("\" height=\"")) == lit("\" height=\""),
        without_line_feeds(lit("\" fill=\"url(#background)\"/>")) == lit("\" fill=\"url(#background)\"/>"),
        without_line_feeds(lit("<text id=\"title\" text-anchor=\"middle\" x=\"")) == lit("<text id=\"title\" text-anchor=\"middle\" x=\""),
        without_line_feeds(lit("\" y=\"")) == lit("\" y=\""),
{
    reveal_strlit("<rect x=\"0\" y=\"0\" width=\"");
    lemma_plain_literal("<rect x=\"0\" y=\"0\" width=\"");
    reveal_strlit("\" height=\"");
    lemma_plain_literal("\" height=\"");
    reveal_strlit("\" fill=\"url(#background)\"/>");
    lemma_plain_literal("\" fill=\"url(#background)\"/>");
    reveal_strlit("<text id=\"title\" text-anchor=\"middle\" x=\"");
    lemma_plain_literal("<text id=\"title\" text-anchor=\"middle\" x=\"");
    reveal_strlit("\" y=\"");
    lemma_plain_literal("\" y=\"");
}

proof fn lemma_literals_of_put_heading_b()
    ensures
        without_line_feeds(lit("\" style=\"font-size:")) == lit("\" style=\"font-size:"),
        without_line_feeds(lit("px\">")) == lit("px\">"),
        without_line_feeds(lit("</text>")) == lit("</text>"),
        without_line_feeds(lit("<text id=\"subtitle\" text-anchor=\"middle\" x=\"")) == lit("<text id=\"subtitle\" text-anchor=\"middle\" x=\""),
        without_line_feeds(lit("\">")) == lit("\">"),
{
    reveal_strlit("\" style=\"font-size:");
    lemma_plain_literal("\" style=\"font-size:");
    reveal_strlit("px\">");
    lemma_plain_literal("px\">");
    reveal_strlit("</text>");
    lemma_plain_literal("</text>");
    reveal_strlit("<text id=\"subtitle\" text-anchor=\"middle\" x=\"");
    lemma_plain_literal("<text id=\"subtitle\" text-anchor=\"middle\" x=\"");
    reveal_strlit("\">");
    lemma_plain_literal("\">");
}

proof fn lemma_literals_of_put_controls_a()
    ensures
        without_line_feeds(lit("<text id=\"details\" data-nametype=\"")) == lit("<text id=\"details\" data-nametype=\""),
        without_line_feeds(lit("\" x=\"10\" y=\"")) == lit("\" x=\"10\" y=\""),
        without_line_feeds(lit("\"> </text>")) == lit("\"> </text>"),
        without_line_feeds(lit("<text id=\"unzoom\" class=\"hide\" x=\"10\" y=\"")) == lit("<text id=\"unzoom\" class=\"hide\" x=\"10\" y=\""),
        without_line_feeds(lit("\">Reset Zoom</text>")) == lit("\">Reset Zoom</text>"),
{
    reveal_strlit("<text id=\"details\" data-nametype=\"");
    lemma_plain_literal("<text id=\"details\" data-nametype=\"");
    reveal_strlit("\" x=\"10\" y=\"");
    lemma_plain_literal("\" x=\"10\" y=\"");
    reveal_strlit("\"> </text>");
    lemma_plain_literal("\"> </text>");
    reveal_strlit("<text id=\"unzoom\" class=\"hide\" x=\"10\" y=\"");
    lemma_plain_literal("<text id=\"unzoom\" class=\"hide\" x=\"10\" y=\"");
    reveal_strlit("\">Reset Zoom</text>");
    lemma_plain_literal("\">Reset Zoom</text>");
}

proof fn lemma_literals_of_put_controls_b()
    ensures
        without_line_feeds(lit("<text id=\"search\" text-anchor=\"end\" x=\"")) == lit("<text id=\"search\" text-anchor=\"end\" x=\""),
        without_line_feeds(lit("\" y=\"")) == lit("\" y=\""),
        without_line_feeds(lit("\">Search</text>")) == lit("\">Search</text>"),
        without_line_feeds(lit("<text id=\"matched\" text-anchor=\"end\" x=\"")) == lit("<text id=\"matched\" text-anchor=\"end\" x=\""),
{
    reveal_strlit("<text id=\"search\" text-anchor=\"end\" x=\"");
    lemma_plain_literal("<text id=\"search\" text-anchor=\"end\" x=\"");
    reveal_strlit("\" y=\"");
    lemma_plain_literal("\" y=\"");
    reveal_strlit("\">Search</text>");
    lemma_plain_literal("\">Search</text>");
    reveal_strlit("<text id=\"matched\" text-anchor=\"end\" x=\"");
    lemma_plain_literal("<text id=\"matched\" text-anchor=\"end\" x=\"");
}

proof fn lemma_literals_of_spec_svg()
    ensures
        without_line_feeds(lit("<g id=\"frames\">")) == lit("<g id=\"frames\">"),
        without_line_feeds(lit("</g>")) == lit("</g>"),
        without_line_feeds(lit("</svg>")) == lit("</svg>"),
{
    reveal_strlit("<g id=\"frames\">");
    lemma_plain_literal("<g id=\"frames\">");
    reveal_strlit("</g>");
    lemma_plain_literal("</g>");
    reveal_strlit("</svg>");
    lemma_plain_literal("</svg>");
}

proof fn lemma_change(w: Seq<u8>, delta: int, samples: int)
    ensures
        without_line_feeds(put_change(w, delta, samples)) == put_change(
            without_line_feeds(w),
            delta,
            samples,
        ),
{
    lemma_pieces();
    lemma_literals_of_put_change();
}

proof fn lemma_title(w: Seq<u8>, p: &Options, c: &Options, name: Seq<u8>, f: FrameView)
    requires
        same_but_pretty(p, c),
    ensures
        without_line_feeds(put_title(w, p, name, f)) == put_title(
            without_line_feeds(w),
            c,
            name,
            f,
        ),
{
    reveal(put_title);
    lemma_pieces();
    lemma_literals_of_put_title();
    let counted = w + escaped(name) + lit(" (") + decimal_digits(f.samples as nat) + lit(" ")
        + escaped(p.count_name@) + lit(", ") + hundredths(crate::svg::share(f.samples, f.all) as nat)
        + lit("%");
    match f.delta {
        Some(d) => {
            lemma_change(counted, d, f.samples);
        },
        None => {},
    }
}

proof fn lemma_rect(w: Seq<u8>, p: &Options, c: &Options, f: FrameView)
    requires
        same_but_pretty(p, c),
    ensures
        without_line_feeds(put_rect(w, p, f)) == put_rect(without_line_feeds(w), c, f),
{
    reveal(put_rect);
    lemma_pieces();
    lemma_literals_of_put_rect();
}

proof fn lemma_label(w: Seq<u8>, p: &Options, c: &Options, name: Seq<u8>, f: FrameView)
    requires
        same_but_pretty(p, c),
    ensures
        without_line_feeds(put_label(w, p, name, f)) == put_label(
            without_line_feeds(w),
            c,
            name,
            f,
        ),
{
    reveal(put_label);
    lemma_pieces();
    lemma_literals_of_put_label();
}

proof fn lemma_path(w: Seq<u8>, nodes: Seq<Node>, i: int)
    ensures
        without_line_feeds(put_path(w, nodes, i)) == put_path(without_line_feeds(w), nodes, i),
    decreases i,
{
    lemma_pieces();
    if 0 < i < nodes.len() && nodes[i].parent < i {
        if nodes[i].parent != 0 {
            lemma_path(w, nodes, nodes[i].parent as int);
        }
    }
}

proof fn lemma_attributes(w: Seq<u8>, attributes: Seq<AttributeView>, k: int)
    requires
        attributes_plain(attributes),
        k <= attributes.len(),
    ensures
        without_line_feeds(put_attributes(w, attributes, k)) == put_attributes(
            without_line_feeds(w),
            attributes,
            k,
        ),
    decreases k,
{
    lemma_pieces();
    lemma_literals_of_put_attributes();
    if k > 0 {
        lemma_attributes(w, attributes, k - 1);
        assert(plain(attributes[k - 1].key));
        lemma_without_plain(attributes[k - 1].key);
    }
}

proof fn lemma_given_keys(entries: Seq<FrameAttrsView>, name: Seq<u8>)
    requires
        keys_plain(entries),
    ensures
        attributes_plain(attributes_for(entries, name)),
    decreases entries.len(),
{
    if entries.len() > 0 {
        if entries[0].name == name {
            assert(attributes_plain(entries[0].attributes));
        } else {
            let rest = entries.drop_first();
            assert forall|e: int| 0 <= e < rest.len() implies attributes_plain(
                #[trigger] rest[e].attributes,
            ) by {
                assert(rest[e] == entries[e + 1]);
                assert(attributes_plain(entries[e + 1].attributes));
            }
            lemma_given_keys(rest, name);
        }
    }
}

proof fn lemma_class(w: Seq<u8>, attributes: Seq<AttributeView>)
    ensures
        without_line_feeds(put_class(w, attributes)) == put_class(
            without_line_feeds(w),
            attributes,
        ),
{
    lemma_pieces();
    lemma_literals_of_put_class();
}

proof fn lemma_frame_start(w: Seq<u8>, p: &Options, c: &Options, nodes: Seq<Node>, f: FrameView)
    requires
        same_but_pretty(p, c),
        keys_plain(p.func_frameattrs@),
    ensures
        without_line_feeds(put_frame_start(w, p, nodes, f)) == put_frame_start(
            without_line_feeds(w),
            c,
            nodes,
            f,
        ),
{
    reveal(put_frame_start);
    let given = attributes_for(p.func_frameattrs@, nodes[f.node].name@);
    lemma_given_keys(p.func_frameattrs@, nodes[f.node].name@);
    lemma_class(w, given);
    let classed = put_class(w, given);
    lemma_path(classed, nodes, f.node);
    let pathed = put_path(classed, nodes, f.node);
    let counted = pathed + lit("\" data-samples=\"") + decimal_digits(f.samples as nat) + lit(
        "\"",
    );
    assert(without_line_feeds(counted) == put_path(
        put_class(without_line_feeds(w), given),
        nodes,
        f.node,
    ) + lit("\" data-samples=\"") + decimal_digits(f.samples as nat) + lit("\"")) by {
        lemma_pieces();
        lemma_literals_of_put_frame_start();
    }
    lemma_attributes(counted, given, given.len() as int);
    assert(without_line_feeds(
        put_attributes(counted, given, given.len() as int) + lit("><title>"),
    ) == put_attributes(without_line_feeds(counted), given, given.len() as int) + lit(
        "><title>",
    )) by {
        lemma_pieces();
        lemma_literals_of_put_frame_start();
    }
}

proof fn lemma_frame(w: Seq<u8>, p: &Options, c: &Options, nodes: Seq<Node>, f: FrameView)
    requires
        same_but_pretty(p, c),
        keys_plain(p.func_frameattrs@),
    ensures
        without_line_feeds(put_frame(w, p, nodes, f)) == put_frame(
            without_line_feeds(w),
            c,
            nodes,
            f,
        ),
{
    lemma_pieces();
    lemma_literals_of_put_frame();
    let name = nodes[f.node].name@;
    lemma_frame_start(w, p, c, nodes, f);
    let started = put_frame_start(w, p, nodes, f);
    lemma_title(started, p, c, name, f);
    let titled = put_title(started, p, name, f) + lit("</title>");
    lemma_rect(titled, p, c, f);
    lemma_label(put_rect(titled, p, f), p, c, name, f);
}

proof fn lemma_frames(
    w: Seq<u8>,
    p: &Options,
    c: &Options,
    nodes: Seq<Node>,
    differential: bool,
    levels: int,
    rects: Seq<Rect>,
    colors: Seq<Color>,
    k: int,
)
    requires
        same_but_pretty(p, c),
        keys_plain(p.func_frameattrs@),
    ensures
        without_line_feeds(put_frames(w, p, nodes, differential, levels, rects, colors, k))
            == put_frames(
            without_line_feeds(w),
            c,
            nodes,
            differential,
            levels,
            rects,
            colors,
            k,
        ),
    decreases k,
{
    if k > 0 {
        lemma_frames(w, p, c, nodes, differential, levels, rects, colors, k - 1);
        let before = put_frames(w, p, nodes, differential, levels, rects, colors, k - 1);
        let f = frame_view(p, nodes, differential, levels, rects[k - 1], colors[k - 1]);
        assert(f == frame_view(c, nodes, differential, levels, rects[k - 1], colors[k - 1]));
        lemma_frame(before, p, c, nodes, f);
    }
}

proof fn lemma_prolog(w: Seq<u8>, p: &Options, c: &Options, height: int)
    requires
        same_but_pretty(p, c),
    ensures
        without_line_feeds(put_prolog(w, p, height)) == put_prolog(
            without_line_feeds(w),
            c,
            height,
        ),
{
    reveal(put_prolog);
    lemma_pieces();
    lemma_literals_of_put_prolog_a();
    lemma_literals_of_put_prolog_b();
}

proof fn lemma_defs(w: Seq<u8>, p: &Options, c: &Options)
    requires
        same_but_pretty(p, c),
    ensures
        without_line_feeds(put_defs(w, p)) == put_defs(without_line_feeds(w), c),
{
    reveal(put_defs);
    lemma_pieces();
    assert(crate::svg::spec_background(p) == crate::svg::spec_background(c));
    lemma_literals_of_put_defs();
}

proof fn lemma_style(w: Seq<u8>, p: &Options, c: &Options)
    requires
        same_but_pretty(p, c),
    ensures
        without_line_feeds(put_style(w, p)) == put_style(without_line_feeds(w), c),
{
    reveal(put_style);
    lemma_pieces();
    lemma_literals_of_put_style();
}

proof fn lemma_heading(w: Seq<u8>, p: &Options, c: &Options, height: int)
    requires
        same_but_pretty(p, c),
    ensures
        without_line_feeds(put_heading(w, p, height)) == put_heading(
            without_line_feeds(w),
            c,
            height,
        ),
{
    reveal(put_heading);
    lemma_pieces();
    lemma_literals_of_put_heading_a();
    lemma_literals_of_put_heading_b();
}

proof fn lemma_controls(w: Seq<u8>, p: &Options, c: &Options, height: int)
    requires
        same_but_pretty(p, c),
    ensures
        without_line_feeds(put_controls(w, p, height)) == put_controls(
            without_line_feeds(w),
            c,
            height,
        ),
{
    reveal(put_controls);
    lemma_pieces();
    lemma_literals_of_put_controls_a();
    lemma_literals_of_put_controls_b();
}

proof fn lemma_fields_plain(fields: Seq<Seq<u8>>)
    ensures
        spec_attributes(fields) matches Some(a) ==> attributes_plain(a),
    decreases fields.len(),
{
    if fields.len() > 0 {
        lemma_fields_plain(fields.drop_last());
        match (spec_attributes(fields.drop_last()), spec_attribute(fields.last())) {
            (Some(a), Some(x)) => {
                let field = fields.last();
                let e = first_place(field, 0x3d);
                crate::attrs::lemma_first_place_holds(field, 0x3d);
                assert(x.key == field.take(e));
                assert forall|i: int| 0 <= i < x.key.len() implies x.key[i] != 0x0a by {
                    assert(x.key[i] == field[i]);
                    assert(is_key_byte(field[i]));
                }
                assert forall|j: int| 0 <= j < a.push(x).len() implies plain(
                    #[trigger] a.push(x)[j].key,
                ) by {
                    if j < a.len() {
                        assert(a.push(x)[j] == a[j]);
                    }
                }
            },
            _ => {},
        }
    }
}

proof fn lemma_lines_plain(lines: Seq<Seq<u8>>)
    ensures
        loaded(lines) matches Ok(m) ==> keys_plain(m),
    decreases lines.len(),
{
    if lines.len() > 0 {
        lemma_lines_plain(lines.drop_last());
        match loaded(lines.drop_last()) {
            Ok(m) => {
                if lines.last().len() > 0 {
                    match spec_frame_attrs(lines.last()) {
                        Some(e) => {
                            lemma_fields_plain(split_on(lines.last(), 0x09).skip(1));
                            assert forall|i: int| 0 <= i < m.push(e).len() implies attributes_plain(
                                #[trigger] m.push(e)[i].attributes,
                            ) by {
                                if i < m.len() {
                                    assert(m.push(e)[i] == m[i]);
                                }
                            }
                        },
                        None => {},
                    }
                }
            },
            Err(_) => {},
        }
    }
}

/// Attributes that were read from text have no line feed in their keys.
pub proof fn lemma_read_keys_plain(text: Seq<u8>)
    ensures
        spec_load(text) matches Ok(m) ==> keys_plain(m),
{
    lemma_lines_plain(split_on(text, 0x0a));
}

/// The document that is easy to read is the plain document with line feeds
/// put in: without its line feeds it is the plain document, byte for byte.
pub proof fn lemma_pretty_adds_line_feeds(
    pretty: &Options,
    compact: &Options,
    nodes: Seq<Node>,
    differential: bool,
    levels: int,
    rects: Seq<Rect>,
    colors: Seq<Color>,
)
    requires
        same_but_pretty(pretty, compact),
        keys_plain(pretty.func_frameattrs@),
    ensures
        without_line_feeds(spec_svg(pretty, nodes, differential, levels, rects, colors))
            == spec_svg(compact, nodes, differential, levels, rects, colors),
{
    lemma_pieces();
    lemma_literals_of_spec_svg();
    let e = Seq::<u8>::empty();
    let height = image_height(pretty, levels);
    assert(height == image_height(compact, levels));
    lemma_prolog(e, pretty, compact, height);
    let a = put_prolog(e, pretty, height);
    lemma_defs(a, pretty, compact);
    let b = put_defs(a, pretty);
    lemma_style(b, pretty, compact);
    let styled = put_style(b, pretty);
    lemma_heading(styled, pretty, compact, height);
    let d = put_heading(styled, pretty, height);
    lemma_controls(d, pretty, compact, height);
    let headed = put_controls(d, pretty, height);
    let opened = headed + lit("<g id=\"frames\">") + gap(pretty);
    lemma_frames(
        opened,
        pretty,
        compact,
        nodes,
        differential,
        levels,
        rects,
        colors,
        rects.len() as int,
    );
}

} // verus!
