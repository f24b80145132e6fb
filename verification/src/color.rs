//! Colors: the palettes, the color that the hash of a name gives, the color
//! of a change between two profiles, and a source of random values.

use crate::line::Annotation;
use crate::text::bytes_equal;
use vstd::prelude::*;
use vstd::string::StringSliceAdditionalSpecFns;

verus! {

/// A color by its red, green and blue parts.
#[derive(Clone, Copy, Debug, PartialEq, Eq, Structural)]
pub struct Color {
    pub r: u8,
    pub g: u8,
    pub b: u8,
}

/// The palettes that can be asked for.
#[derive(Clone, Copy, Debug, PartialEq, Eq, Structural)]
pub enum Palette {
    Hot,
    Mem,
    Io,
    Wakeup,
    Java,
    Js,
    Perl,
    Red,
    Green,
    Blue,
    Aqua,
    Yellow,
    Purple,
    Orange,
}

/// The palettes that are a band of hues. Each of the others picks one of
/// these for a frame, by the frame's name and annotation.
#[derive(Clone, Copy, Debug, PartialEq, Eq, Structural)]
pub enum Band {
    Hot,
    Mem,
    Io,
    Red,
    Green,
    Blue,
    Aqua,
    Yellow,
    Purple,
    Orange,
}

/// What lies behind the frames: one of four gradients, or one flat color.
#[derive(Clone, Copy, Debug, PartialEq, Eq, Structural)]
pub enum BackgroundColor {
    Yellow,
    Blue,
    Green,
    Grey,
    Flat(Color),
}

/// The color of the frames named `-`, which part stacks from one another.
pub open spec fn separator_color() -> Color {
    Color { r: 160, g: 160, b: 160 }
}

/// The color of a node that did not change between the two profiles.
pub open spec fn unchanged_color() -> Color {
    Color { r: 255, g: 255, b: 255 }
}

/// The part of a color that lies `v` thousandths of the way from `base` to `base + span`.
pub open spec fn blend(base: int, span: int, v: int) -> int {
    base + span * v / 1000
}

/// `v`, and 1000 where `v` is above it.
pub open spec fn capped(v: int) -> int {
    if v > 1000 {
        1000
    } else {
        v
    }
}

fn mix(base: u8, span: u8, v: u16) -> (r: u8)
    requires
        base + span <= 255,
        v <= 1000,
    ensures
        r == blend(base as int, span as int, v as int),
{
    assert(0 <= span * v <= span * 1000) by (nonlinear_arith)
        requires
            0 <= v <= 1000,
            0 <= span,
    ;
    let part: u32 = (span as u32) * (v as u32) / 1000;
    base + (part as u8)
}

/// The color of the band `band` at the three values `v1`, `v2` and `v3`, each
/// in thousandths and taken as 1000 where it is more.
pub open spec fn spec_band_color(band: Band, v1: int, v2: int, v3: int) -> Color {
    let a = capped(v1);
    let b = capped(v2);
    let c = capped(v3);
    match band {
        Band::Hot => Color {
            r: blend(205, 50, c) as u8,
            g: blend(0, 230, a) as u8,
            b: blend(0, 55, b) as u8,
        },
        Band::Mem => Color {
            r: blend(0, 0, c) as u8,
            g: blend(190, 50, b) as u8,
            b: blend(0, 210, a) as u8,
        },
        Band::Io => Color {
            r: blend(80, 60, a) as u8,
            g: blend(80, 60, a) as u8,
            b: blend(190, 55, b) as u8,
        },
        Band::Red => Color {
            r: blend(200, 55, a) as u8,
            g: blend(50, 80, a) as u8,
            b: blend(50, 80, a) as u8,
        },
        Band::Green => Color {
            r: blend(50, 60, a) as u8,
            g: blend(200, 55, a) as u8,
            b: blend(50, 60, a) as u8,
        },
        Band::Blue => Color {
            r: blend(80, 60, a) as u8,
            g: blend(80, 60, a) as u8,
            b: blend(205, 50, a) as u8,
        },
        Band::Yellow => Color {
            r: blend(175, 55, a) as u8,
            g: blend(175, 55, a) as u8,
            b: blend(50, 20, a) as u8,
        },
        Band::Purple => Color {
            r: blend(190, 65, a) as u8,
            g: blend(80, 60, a) as u8,
            b: blend(190, 65, a) as u8,
        },
        Band::Aqua => Color {
            r: blend(50, 60, a) as u8,
            g: blend(165, 55, a) as u8,
            b: blend(165, 55, a) as u8,
        },
        Band::Orange => Color {
            r: blend(190, 65, a) as u8,
            g: blend(90, 65, a) as u8,
            b: blend(0, 0, a) as u8,
        },
    }
}

/// The color of a band at three values in thousandths.
pub fn band_color(band: Band, v1: u16, v2: u16, v3: u16) -> (c: Color)
    ensures
        c == spec_band_color(band, v1 as int, v2 as int, v3 as int),
{
    let a: u16 = if v1 > 1000 {
        1000
    } else {
        v1
    };
    let b: u16 = if v2 > 1000 {
        1000
    } else {
        v2
    };
    let c: u16 = if v3 > 1000 {
        1000
    } else {
        v3
    };
    match band {
        Band::Hot => Color { r: mix(205, 50, c), g: mix(0, 230, a), b: mix(0, 55, b) },
        Band::Mem => Color { r: mix(0, 0, c), g: mix(190, 50, b), b: mix(0, 210, a) },
        Band::Io => Color { r: mix(80, 60, a), g: mix(80, 60, a), b: mix(190, 55, b) },
        Band::Red => Color { r: mix(200, 55, a), g: mix(50, 80, a), b: mix(50, 80, a) },
        Band::Green => Color { r: mix(50, 60, a), g: mix(200, 55, a), b: mix(50, 60, a) },
        Band::Blue => Color { r: mix(80, 60, a), g: mix(80, 60, a), b: mix(205, 50, a) },
        Band::Yellow => Color { r: mix(175, 55, a), g: mix(175, 55, a), b: mix(50, 20, a) },
        Band::Purple => Color { r: mix(190, 65, a), g: mix(80, 60, a), b: mix(190, 65, a) },
        Band::Aqua => Color { r: mix(50, 60, a), g: mix(165, 55, a), b: mix(165, 55, a) },
        Band::Orange => Color { r: mix(190, 65, a), g: mix(90, 65, a), b: mix(0, 0, a) },
    }
}

/// What the byte `c` at place `k` of a name adds to the name's hash.
pub open spec fn hash_term(k: int, c: u8) -> int {
    if k == 0 {
        (c % 10) * 11000
    } else if k == 1 {
        (c % 11) * 6930
    } else {
        (c % 12) * 4410
    }
}

/// The weighted sum of the first three bytes of a name.
pub open spec fn hash_vector(s: Seq<u8>) -> int {
    (if s.len() > 0 {
        hash_term(0, s[0])
    } else {
        0
    }) + (if s.len() > 1 {
        hash_term(1, s[1])
    } else {
        0
    }) + (if s.len() > 2 {
        hash_term(2, s[2])
    } else {
        0
    })
}

/// The bound of `hash_vector` for names as long as `s`.
pub open spec fn hash_bound(s: Seq<u8>) -> int {
    if s.len() == 0 {
        99000
    } else if s.len() == 1 {
        198000
    } else if s.len() == 2 {
        267300
    } else {
        315810
    }
}

/// The hash of a name, in thousandths: a value from 1 to 1000 that the
/// first three bytes of the name decide, the first byte most.
pub open spec fn name_hash(s: Seq<u8>) -> int {
    1000 - hash_vector(s) * 1000 / hash_bound(s)
}

fn hash_three(len: usize, c0: u8, c1: u8, c2: u8) -> (h: u16)
    ensures
        1 <= h <= 1000,
        len == 0 ==> h == 1000,
        len == 1 ==> h == 1000 - hash_term(0, c0) * 1000 / 198000,
        len == 2 ==> h == 1000 - (hash_term(0, c0) + hash_term(1, c1)) * 1000 / 267300,
        len >= 3 ==> h == 1000 - (hash_term(0, c0) + hash_term(1, c1) + hash_term(2, c2)) * 1000
            / 315810,
{
    let t0: u64 = ((c0 % 10) as u64) * 11000;
    let t1: u64 = ((c1 % 11) as u64) * 6930;
    let t2: u64 = ((c2 % 12) as u64) * 4410;
    if len == 0 {
        1000
    } else if len == 1 {
        (1000 - t0 * 1000 / 198000) as u16
    } else if len == 2 {
        (1000 - (t0 + t1) * 1000 / 267300) as u16
    } else {
        (1000 - (t0 + t1 + t2) * 1000 / 315810) as u16
    }
}

/// The hash of a name.
pub fn hash_name(name: &[u8]) -> (h: u16)
    ensures
        h == name_hash(name@),
        1 <= h <= 1000,
{
    let n = name.len();
    let c0 = if n > 0 {
        name[0]
    } else {
        0
    };
    let c1 = if n > 1 {
        name[1]
    } else {
        0
    };
    let c2 = if n > 2 {
        name[2]
    } else {
        0
    };
    hash_three(n, c0, c1, c2)
}

/// The hash of a name read from its end.
pub fn hash_name_reversed(name: &[u8]) -> (h: u16)
    ensures
        h == name_hash(name@.reverse()),
        1 <= h <= 1000,
{
    let n = name.len();
    let ghost r = name@.reverse();
    let c0 = if n > 0 {
        name[n - 1]
    } else {
        0
    };
    let c1 = if n > 1 {
        name[n - 2]
    } else {
        0
    };
    let c2 = if n > 2 {
        name[n - 3]
    } else {
        0
    };
    proof {
        assert(r.len() == n);
        if n > 0 {
            assert(r[0] == name@[n - 1]);
        }
        if n > 1 {
            assert(r[1] == name@[n - 2]);
        }
        if n > 2 {
            assert(r[2] == name@[n - 3]);
        }
    }
    hash_three(n, c0, c1, c2)
}

/// `s` holds `pattern` somewhere.
pub open spec fn contains_bytes(s: Seq<u8>, pattern: Seq<u8>) -> bool {
    exists|i: int|
        0 <= i && i + pattern.len() <= s.len() && #[trigger] s.subrange(i, i + pattern.len())
            == pattern
}

/// Whether `s` holds `pattern` somewhere.
pub fn find_bytes(s: &[u8], pattern: &[u8]) -> (r: bool)
    ensures
        r == contains_bytes(s@, pattern@),
{
    if pattern.len() > s.len() {
        return false;
    }
    if pattern.len() == 0 {
        assert(s@.subrange(0int, 0int + pattern@.len()) =~= pattern@);
        return true;
    }
    let last = s.len() - pattern.len();
    let mut i: usize = 0;
    while i <= last
        invariant
            0 < pattern.len() <= s.len(),
            last == s.len() - pattern.len(),
            i <= last + 1,
            forall|k: int| 0 <= k < i ==> #[trigger] s@.subrange(k, k + pattern.len()) != pattern@,
        decreases last + 1 - i,
    {
        let part = vstd::slice::slice_subrange(s, i, i + pattern.len());
        if bytes_equal(part, pattern) {
            return true;
        }
        i += 1;
    }
    false
}

/// The band in which a palette draws a frame. A palette that is a band draws
/// every frame in it. The palettes for languages go by the annotation of the
/// frame and by what its name holds.
pub open spec fn spec_band(palette: Palette, name: Seq<u8>, tag: Annotation) -> Band {
    let scoped = contains_bytes(name, seq![0x3a, 0x3a]);
    let pathed = contains_bytes(name, seq![0x2f]);
    match palette {
        Palette::Hot => Band::Hot,
        Palette::Mem => Band::Mem,
        Palette::Io => Band::Io,
        Palette::Red => Band::Red,
        Palette::Green => Band::Green,
        Palette::Blue => Band::Blue,
        Palette::Aqua => Band::Aqua,
        Palette::Yellow => Band::Yellow,
        Palette::Purple => Band::Purple,
        Palette::Orange => Band::Orange,
        Palette::Wakeup => Band::Aqua,
        Palette::Java => match tag {
            Annotation::Jit => Band::Green,
            Annotation::Inlined => Band::Aqua,
            Annotation::Kernel => Band::Orange,
            _ => if scoped {
                Band::Yellow
            } else if pathed {
                Band::Green
            } else {
                Band::Red
            },
        },
        Palette::Js => match tag {
            Annotation::Jit => if pathed {
                Band::Green
            } else {
                Band::Aqua
            },
            Annotation::Kernel => Band::Orange,
            _ => if scoped {
                Band::Yellow
            } else {
                Band::Red
            },
        },
        Palette::Perl => match tag {
            Annotation::Kernel => Band::Orange,
            _ => if scoped {
                Band::Yellow
            } else if contains_bytes(name, seq![0x50, 0x65, 0x72, 0x6c]) || contains_bytes(
                name,
                seq![0x2e, 0x70, 0x6c],
            ) {
                Band::Green
            } else {
                Band::Red
            },
        },
    }
}

/// The band in which a palette draws a frame.
pub fn band_of(palette: Palette, name: &[u8], tag: Annotation) -> (band: Band)
    ensures
        band == spec_band(palette, name@, tag),
{
    match palette {
        Palette::Hot => Band::Hot,
        Palette::Mem => Band::Mem,
        Palette::Io => Band::Io,
        Palette::Red => Band::Red,
        Palette::Green => Band::Green,
        Palette::Blue => Band::Blue,
        Palette::Aqua => Band::Aqua,
        Palette::Yellow => Band::Yellow,
        Palette::Purple => Band::Purple,
        Palette::Orange => Band::Orange,
        Palette::Wakeup => Band::Aqua,
        Palette::Java => {
            let colons: [u8; 2] = [0x3a, 0x3a];
            let slash: [u8; 1] = [0x2f];
            assert(colons@ =~= seq![0x3au8, 0x3au8]);
            assert(slash@ =~= seq![0x2fu8]);
            match tag {
                Annotation::Jit => Band::Green,
                Annotation::Inlined => Band::Aqua,
                Annotation::Kernel => Band::Orange,
                _ => if find_bytes(name, colons.as_slice()) {
                    Band::Yellow
                } else if find_bytes(name, slash.as_slice()) {
                    Band::Green
                } else {
                    Band::Red
                },
            }
        },
        Palette::Js => {
            let colons: [u8; 2] = [0x3a, 0x3a];
            let slash: [u8; 1] = [0x2f];
            assert(colons@ =~= seq![0x3au8, 0x3au8]);
            assert(slash@ =~= seq![0x2fu8]);
            match tag {
                Annotation::Jit => if find_bytes(name, slash.as_slice()) {
                    Band::Green
                } else {
                    Band::Aqua
                },
                Annotation::Kernel => Band::Orange,
                _ => if find_bytes(name, colons.as_slice()) {
                    Band::Yellow
                } else {
                    Band::Red
                },
            }
        },
        Palette::Perl => {
            let colons: [u8; 2] = [0x3a, 0x3a];
            let perl: [u8; 4] = [0x50, 0x65, 0x72, 0x6c];
            let suffix: [u8; 3] = [0x2e, 0x70, 0x6c];
            assert(colons@ =~= seq![0x3au8, 0x3au8]);
            assert(perl@ =~= seq![0x50u8, 0x65u8, 0x72u8, 0x6cu8]);
            assert(suffix@ =~= seq![0x2eu8, 0x70u8, 0x6cu8]);
            match tag {
                Annotation::Kernel => Band::Orange,
                _ => if find_bytes(name, colons.as_slice()) {
                    Band::Yellow
                } else if find_bytes(name, perl.as_slice()) || find_bytes(
                    name,
                    suffix.as_slice(),
                ) {
                    Band::Green
                } else {
                    Band::Red
                },
            }
        },
    }
}

/// The color that a palette gives a frame by the hash of its name: the first
/// value is the hash of the name, the other two the hash of the name read
/// from its end.
pub open spec fn spec_hashed_color(palette: Palette, name: Seq<u8>, tag: Annotation) -> Color {
    spec_band_color(
        spec_band(palette, name, tag),
        name_hash(name),
        name_hash(name.reverse()),
        name_hash(name.reverse()),
    )
}

/// The color that a palette gives a frame by the hash of its name. It is the
/// same in every run.
pub fn hashed_color(palette: Palette, name: &[u8], tag: Annotation) -> (c: Color)
    ensures
        c == spec_hashed_color(palette, name@, tag),
{
    let v1 = hash_name(name);
    let v2 = hash_name_reversed(name);
    band_color(band_of(palette, name, tag), v1, v2, v2)
}

/// The size of a change, and `max` where it is larger.
pub open spec fn change_size(delta: int, max: int) -> int {
    let size = if delta < 0 {
        -delta
    } else {
        delta
    };
    if size > max {
        max
    } else {
        size
    }
}

/// How pale the color of a change is: 210 for none, 0 for the largest.
pub open spec fn paleness(delta: int, max: int) -> int {
    210 * (max - change_size(delta, max)) / max
}

/// The color of a node of a differential profile. A node that grew is red, one
/// that shrank is blue, the deeper the larger the change is beside the
/// largest change `max`; with `negate` the two hues change places.
pub open spec fn spec_diff_color(delta: int, max: int, negate: bool) -> Color {
    if delta == 0 || max <= 0 {
        unchanged_color()
    } else {
        let pale = paleness(delta, max) as u8;
        if (delta > 0) != negate {
            Color { r: 255, g: pale, b: pale }
        } else {
            Color { r: pale, g: pale, b: 255 }
        }
    }
}

/// The hue of growth: full red, with green and blue alike and paler than full.
pub open spec fn is_growth_hue(c: Color) -> bool {
    c.r == 255 && c.g == c.b && c.g <= 210
}

/// The hue of shrinking: full blue, with red and green alike and paler than full.
pub open spec fn is_shrink_hue(c: Color) -> bool {
    c.b == 255 && c.r == c.g && c.g <= 210
}

/// The color with red and blue in each other's place.
pub open spec fn mirrored(c: Color) -> Color {
    Color { r: c.b, g: c.g, b: c.r }
}

proof fn lemma_paleness_bounds(delta: int, max: int)
    requires
        max > 0,
    ensures
        0 <= paleness(delta, max) <= 210,
{
    let rest = max - change_size(delta, max);
    assert(0 <= 210 * rest / max <= 210) by (nonlinear_arith)
        requires
            0 <= rest <= max,
            max > 0,
    ;
}

/// A node that has grown is drawn in the hue of growth and one that has
/// shrunk in the hue of shrinking, unless the hues are negated, and then the
/// other way round.
pub proof fn lemma_diff_hue(delta: int, max: int, negate: bool)
    requires
        max > 0,
        delta != 0,
    ensures
        (delta > 0) != negate ==> is_growth_hue(spec_diff_color(delta, max, negate)),
        (delta > 0) == negate ==> is_shrink_hue(spec_diff_color(delta, max, negate)),
{
    lemma_paleness_bounds(delta, max);
}

/// Negating the hues changes red for blue and leaves the depth of the color
/// as it is; it gives each change the color of the opposite change.
pub proof fn lemma_negate_flips(delta: int, max: int, negate: bool)
    ensures
        spec_diff_color(delta, max, !negate) == mirrored(spec_diff_color(delta, max, negate)),
        spec_diff_color(delta, max, !negate) == spec_diff_color(-delta, max, negate),
        paleness(-delta, max) == paleness(delta, max),
{
    if max > 0 {
        lemma_paleness_bounds(delta, max);
    }
}

/// The larger a change is, the deeper is its color.
pub proof fn lemma_deeper_for_larger(small: int, large: int, max: int)
    requires
        max > 0,
        change_size(small, max) <= change_size(large, max),
    ensures
        paleness(large, max) <= paleness(small, max),
{
    let a = max - change_size(small, max);
    let b = max - change_size(large, max);
    assert(210 * b / max <= 210 * a / max) by (nonlinear_arith)
        requires
            0 <= b <= a,
            max > 0,
    ;
}

/// The color of a node of a differential profile.
pub fn diff_color(delta: i128, max: u64, negate: bool) -> (c: Color)
    ensures
        c == spec_diff_color(delta as int, max as int, negate),
{
    if delta == 0 || max == 0 {
        return Color { r: 255, g: 255, b: 255 };
    }
    let size: u64 = if delta > 0 {
        if delta > max as i128 {
            max
        } else {
            delta as u64
        }
    } else {
        if delta < -(max as i128) {
            max
        } else {
            (-delta) as u64
        }
    };
    assert(size == change_size(delta as int, max as int));
    proof {
        lemma_paleness_bounds(delta as int, max as int);
    }
    let pale = (210 * ((max - size) as u128) / (max as u128)) as u8;
    if (delta > 0) != negate {
        Color { r: 255, g: pale, b: pale }
    } else {
        Color { r: pale, g: pale, b: 255 }
    }
}

/// A source of values that look random and are the same for the same seed.
pub struct RandomSource {
    pub state: u64,
}

/// The state that follows `state`.
pub open spec fn next_state(state: u64) -> u64 {
    ((state % 2147483647) * 48271 % 2147483647) as u64
}

/// The value that is drawn in the state `state`, in thousandths.
pub open spec fn drawn(state: u64) -> int {
    (next_state(state) % 1001) as int
}

impl RandomSource {
    /// A source that starts from `seed`.
    pub fn new(seed: u64) -> (r: RandomSource)
        ensures
            r.state == seed % 2147483646 + 1,
    {
        RandomSource { state: seed % 2147483646 + 1 }
    }

    /// The next value, in thousandths.
    pub fn next_value(&mut self) -> (v: u16)
        ensures
            final(self).state == next_state(old(self).state),
            v == drawn(old(self).state),
    {
        self.state = (self.state % 2147483647) * 48271 % 2147483647;
        (self.state % 1001) as u16
    }
}

/// The color that a palette gives a frame from three values drawn at random.
pub fn random_color(palette: Palette, name: &[u8], tag: Annotation, source: &mut RandomSource) -> (c:
    Color)
    ensures
        final(source).state == next_state(next_state(next_state(old(source).state))),
        c == spec_band_color(
            spec_band(palette, name@, tag),
            drawn(old(source).state),
            drawn(next_state(old(source).state)),
            drawn(next_state(next_state(old(source).state))),
        ),
{
    let v1 = source.next_value();
    let v2 = source.next_value();
    let v3 = source.next_value();
    band_color(band_of(palette, name, tag), v1, v2, v3)
}


/// The palette of a name, if it is the name of a palette.
pub open spec fn spec_palette(name: Seq<u8>) -> Option<Palette> {
    if name == "hot".spec_bytes() {
        Some(Palette::Hot)
    } else if name == "mem".spec_bytes() {
        Some(Palette::Mem)
    } else if name == "io".spec_bytes() {
        Some(Palette::Io)
    } else if name == "wakeup".spec_bytes() {
        Some(Palette::Wakeup)
    } else if name == "java".spec_bytes() {
        Some(Palette::Java)
    } else if name == "js".spec_bytes() {
        Some(Palette::Js)
    } else if name == "perl".spec_bytes() {
        Some(Palette::Perl)
    } else if name == "red".spec_bytes() {
        Some(Palette::Red)
    } else if name == "green".spec_bytes() {
        Some(Palette::Green)
    } else if name == "blue".spec_bytes() {
        Some(Palette::Blue)
    } else if name == "aqua".spec_bytes() {
        Some(Palette::Aqua)
    } else if name == "yellow".spec_bytes() {
        Some(Palette::Yellow)
    } else if name == "purple".spec_bytes() {
        Some(Palette::Purple)
    } else if name == "orange".spec_bytes() {
        Some(Palette::Orange)
    } else {
        None
    }
}

/// The palette of a name.
pub fn palette_from_name(name: &[u8]) -> (r: Option<Palette>)
    ensures
        r == spec_palette(name@),
{
    if bytes_equal(name, "hot".as_bytes()) {
        Some(Palette::Hot)
    } else if bytes_equal(name, "mem".as_bytes()) {
        Some(Palette::Mem)
    } else if bytes_equal(name, "io".as_bytes()) {
        Some(Palette::Io)
    } else if bytes_equal(name, "wakeup".as_bytes()) {
        Some(Palette::Wakeup)
    } else if bytes_equal(name, "java".as_bytes()) {
        Some(Palette::Java)
    } else if bytes_equal(name, "js".as_bytes()) {
        Some(Palette::Js)
    } else if bytes_equal(name, "perl".as_bytes()) {
        Some(Palette::Perl)
    } else if bytes_equal(name, "red".as_bytes()) {
        Some(Palette::Red)
    } else if bytes_equal(name, "green".as_bytes()) {
        Some(Palette::Green)
    } else if bytes_equal(name, "blue".as_bytes()) {
        Some(Palette::Blue)
    } else if bytes_equal(name, "aqua".as_bytes()) {
        Some(Palette::Aqua)
    } else if bytes_equal(name, "yellow".as_bytes()) {
        Some(Palette::Yellow)
    } else if bytes_equal(name, "purple".as_bytes()) {
        Some(Palette::Purple)
    } else if bytes_equal(name, "orange".as_bytes()) {
        Some(Palette::Orange)
    } else {
        None
    }
}

/// The number that a hexadecimal digit writes, and -1 for any other byte.
pub open spec fn hex_value(b: u8) -> int {
    if 0x30 <= b <= 0x39 {
        b - 0x30
    } else if 0x61 <= b <= 0x66 {
        b - 0x61 + 10
    } else if 0x41 <= b <= 0x46 {
        b - 0x41 + 10
    } else {
        -1
    }
}

/// The color that a text of the form `#rrggbb` writes, each part as two
/// hexadecimal digits.
pub open spec fn spec_hex_color(s: Seq<u8>) -> Option<Color> {
    if s.len() == 7 && s[0] == 0x23 && hex_value(s[1]) >= 0 && hex_value(s[2]) >= 0 && hex_value(
        s[3],
    ) >= 0 && hex_value(s[4]) >= 0 && hex_value(s[5]) >= 0 && hex_value(s[6]) >= 0 {
        Some(
            Color {
                r: (16 * hex_value(s[1]) + hex_value(s[2])) as u8,
                g: (16 * hex_value(s[3]) + hex_value(s[4])) as u8,
                b: (16 * hex_value(s[5]) + hex_value(s[6])) as u8,
            },
        )
    } else {
        None
    }
}

fn hex_digit(b: u8) -> (r: Option<u8>)
    ensures
        match r {
            Some(v) => v == hex_value(b) && v < 16,
            None => hex_value(b) == -1,
        },
{
    if 0x30 <= b && b <= 0x39 {
        Some(b - 0x30)
    } else if 0x61 <= b && b <= 0x66 {
        Some(b - 0x61 + 10)
    } else if 0x41 <= b && b <= 0x46 {
        Some(b - 0x41 + 10)
    } else {
        None
    }
}

fn hex_pair(high: u8, low: u8) -> (r: Option<u8>)
    ensures
        match r {
            Some(v) => hex_value(high) >= 0 && hex_value(low) >= 0 && v == 16 * hex_value(high)
                + hex_value(low),
            None => hex_value(high) == -1 || hex_value(low) == -1,
        },
{
    match (hex_digit(high), hex_digit(low)) {
        (Some(h), Some(l)) => Some(16 * h + l),
        _ => None,
    }
}

/// The color that a text of the form `#rrggbb` writes.
pub fn parse_hex_color(s: &[u8]) -> (r: Option<Color>)
    ensures
        r == spec_hex_color(s@),
{
    if s.len() != 7 || s[0] != 0x23 {
        return None;
    }
    match (hex_pair(s[1], s[2]), hex_pair(s[3], s[4]), hex_pair(s[5], s[6])) {
        (Some(r), Some(g), Some(b)) => Some(Color { r, g, b }),
        _ => None,
    }
}

/// The background of a name: one of the four gradients, or the flat color
/// that the name writes.
pub open spec fn spec_background_name(name: Seq<u8>) -> Option<BackgroundColor> {
    if name == "yellow".spec_bytes() {
        Some(BackgroundColor::Yellow)
    } else if name == "blue".spec_bytes() {
        Some(BackgroundColor::Blue)
    } else if name == "green".spec_bytes() {
        Some(BackgroundColor::Green)
    } else if name == "grey".spec_bytes() {
        Some(BackgroundColor::Grey)
    } else {
        match spec_hex_color(name) {
            Some(c) => Some(BackgroundColor::Flat(c)),
            None => None,
        }
    }
}

/// The background of a name.
pub fn background_from_name(name: &[u8]) -> (r: Option<BackgroundColor>)
    ensures
        r == spec_background_name(name@),
{
    if bytes_equal(name, "yellow".as_bytes()) {
        Some(BackgroundColor::Yellow)
    } else if bytes_equal(name, "blue".as_bytes()) {
        Some(BackgroundColor::Blue)
    } else if bytes_equal(name, "green".as_bytes()) {
        Some(BackgroundColor::Green)
    } else if bytes_equal(name, "grey".as_bytes()) {
        Some(BackgroundColor::Grey)
    } else {
        match parse_hex_color(name) {
            Some(c) => Some(BackgroundColor::Flat(c)),
            None => None,
        }
    }
}

} // verus!
