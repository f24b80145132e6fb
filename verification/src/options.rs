//! The settings of a graph.

use crate::attrs::{FrameAttrsView, FuncFrameAttrsMap};
use crate::color::{BackgroundColor, Palette};
use crate::text::{bytes_equal, copy_range};
use vstd::prelude::*;
use vstd::string::StringSliceAdditionalSpecFns;

verus! {

/// Which way the stacks grow.
#[derive(Clone, Copy, Debug, PartialEq, Eq, Structural)]
pub enum Direction {
    /// The roots at the bottom, the stacks growing upwards: a flame graph.
    Straight,
    /// The roots at the top, the stacks growing downwards: an icicle graph.
    Inverted,
}

/// The bytes of a text.
pub fn text(s: &str) -> (r: Vec<u8>)
    ensures
        r@ == s.spec_bytes(),
{
    let bytes = s.as_bytes();
    let r = copy_range(bytes, 0, bytes.len());
    assert(r@ =~= s.spec_bytes());
    r
}

/// The title of a graph that was given none.
pub open spec fn default_title() -> Seq<u8> {
    "Flame Graph".spec_bytes()
}

/// The title of an inverted graph that was given none.
pub open spec fn icicle_title() -> Seq<u8> {
    "Icicle Graph".spec_bytes()
}

/// The settings of a graph. Widths that may be fractions of a pixel are
/// counted in thousandths.
pub struct Options {
    /// The palette of the frames.
    pub colors: Palette,
    /// The background; `None` leaves the choice to the palette.
    pub bgcolors: Option<BackgroundColor>,
    /// Colors by the hash of the function name, the same in every run.
    pub hash: bool,
    pub direction: Direction,
    pub title: Vec<u8>,
    pub subtitle: Option<Vec<u8>>,
    /// The width of the image, in pixels.
    pub image_width: u32,
    /// The height of a frame, in pixels.
    pub frame_height: u32,
    /// Frames narrower than this many thousandths of a pixel are left out.
    pub min_width: u32,
    pub font_type: Vec<u8>,
    /// The font size, in pixels.
    pub font_size: u32,
    /// The width of a character, in thousandths of the font size.
    pub font_width: u32,
    /// What the counts count, as in "samples".
    pub count_name: Vec<u8>,
    /// What the names name, as in "Function:".
    pub name_type: Vec<u8>,
    /// Notes to embed in the image.
    pub notes: Vec<u8>,
    /// Changes the hues of a differential graph for each other.
    pub negate_differentials: bool,
    /// The factor by which widths are scaled, in thousandths.
    pub factor: u32,
    /// One element on each line.
    pub pretty_xml: bool,
    /// Leaves the script out of the image.
    pub no_javascript: bool,
    /// Attributes for the frames of chosen functions.
    pub func_frameattrs: FuncFrameAttrsMap,
}

impl Options {
    /// The settings of a graph for which nothing was asked.
    pub open spec fn is_default(&self) -> bool {
        &&& self.colors == Palette::Hot
        &&& self.bgcolors is None
        &&& !self.hash
        &&& self.direction == Direction::Straight
        &&& self.title@ == default_title()
        &&& self.subtitle is None
        &&& self.image_width == 1200
        &&& self.frame_height == 16
        &&& self.min_width == 100
        &&& self.font_type@ == "Verdana".spec_bytes()
        &&& self.font_size == 12
        &&& self.font_width == 590
        &&& self.count_name@ == "samples".spec_bytes()
        &&& self.name_type@ == "Function:".spec_bytes()
        &&& self.notes@ == Seq::<u8>::empty()
        &&& !self.negate_differentials
        &&& self.factor == 1000
        &&& !self.pretty_xml
        &&& !self.no_javascript
        &&& self.func_frameattrs@ == Seq::<FrameAttrsView>::empty()
    }
}

impl Default for Options {
    fn default() -> (o: Options)
        ensures
            o.is_default(),
    {
        Options {
            colors: Palette::Hot,
            bgcolors: None,
            hash: false,
            direction: Direction::Straight,
            title: text("Flame Graph"),
            subtitle: None,
            image_width: 1200,
            frame_height: 16,
            min_width: 100,
            font_type: text("Verdana"),
            font_size: 12,
            font_width: 590,
            count_name: text("samples"),
            name_type: text("Function:"),
            notes: Vec::new(),
            negate_differentials: false,
            factor: 1000,
            pretty_xml: false,
            no_javascript: false,
            func_frameattrs: FuncFrameAttrsMap::new(),
        }
    }
}

/// What was asked for on the command line, as plain values.
pub struct Settings {
    pub inverted: bool,
    pub colors: Palette,
    pub bgcolors: Option<BackgroundColor>,
    pub hash: bool,
    pub title: Vec<u8>,
    pub subtitle: Option<Vec<u8>>,
    pub image_width: u32,
    pub frame_height: u32,
    pub min_width: u32,
    pub font_type: Vec<u8>,
    pub font_size: u32,
    pub font_width: u32,
    pub count_name: Vec<u8>,
    pub name_type: Vec<u8>,
    pub notes: Vec<u8>,
    pub negate: bool,
    pub factor: u32,
    pub pretty_xml: bool,
    pub no_javascript: bool,
    /// What the file of attributes held, if one was named.
    pub frame_attrs: Option<FuncFrameAttrsMap>,
}

impl Settings {
    /// The title of the graph: an inverted graph that was given no title of
    /// its own is an icicle graph.
    pub open spec fn spec_title(&self) -> Seq<u8> {
        if self.inverted && self.title@ == default_title() {
            icicle_title()
        } else {
            self.title@
        }
    }

    /// The settings of the graph that was asked for.
    pub fn into_parts(self) -> (o: Options)
        ensures
            o.colors == self.colors,
            o.bgcolors == self.bgcolors,
            o.hash == self.hash,
            o.direction == (if self.inverted {
                Direction::Inverted
            } else {
                Direction::Straight
            }),
            o.title@ == self.spec_title(),
            o.subtitle == self.subtitle,
            o.image_width == self.image_width,
            o.frame_height == self.frame_height,
            o.min_width == self.min_width,
            o.font_type == self.font_type,
            o.font_size == self.font_size,
            o.font_width == self.font_width,
            o.count_name == self.count_name,
            o.name_type == self.name_type,
            o.notes == self.notes,
            o.negate_differentials == self.negate,
            o.factor == self.factor,
            o.pretty_xml == self.pretty_xml,
            o.no_javascript == self.no_javascript,
            o.func_frameattrs@ == (match self.frame_attrs {
                Some(m) => m@,
                None => Seq::<FrameAttrsView>::empty(),
            }),
    {
        let mut options = Options::default();
        options.colors = self.colors;
        options.bgcolors = self.bgcolors;
        options.hash = self.hash;
        options.title = self.title;
        if self.inverted {
            options.direction = Direction::Inverted;
            if bytes_equal(options.title.as_slice(), "Flame Graph".as_bytes()) {
                options.title = text("Icicle Graph");
            }
        }
        options.subtitle = self.subtitle;
        options.image_width = self.image_width;
        options.frame_height = self.frame_height;
        options.min_width = self.min_width;
        options.font_type = self.font_type;
        options.font_size = self.font_size;
        options.font_width = self.font_width;
        options.count_name = self.count_name;
        options.name_type = self.name_type;
        options.notes = self.notes;
        options.negate_differentials = self.negate;
        options.factor = self.factor;
        options.pretty_xml = self.pretty_xml;
        options.no_javascript = self.no_javascript;
        match self.frame_attrs {
            Some(m) => {
                options.func_frameattrs = m;
            },
            None => {},
        }
        options
    }
}

} // verus!
