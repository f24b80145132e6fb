//! The palette map: the color of each function name, kept from one run to the
//! next so that a function has the same color in every graph.
//!
//! As text the map is one line for each name: the name, a tab, and the color
//! as `rgb(r,g,b)`. The lines stand in the alphabetical order of the names.

use crate::color::Color;
use crate::text::{
    bytes_lt, compare_bytes, copy_range, decimal_digits, find_last, is_digit, last_place,
    lemma_bytes_lt_asymmetric, lemma_bytes_lt_irreflexive, lemma_bytes_lt_total,
    lemma_bytes_lt_transitive, lemma_decimal_round_trip, lemma_last_place_found,
    lemma_split_append, lemma_split_parts, lemma_split_plain, parse_u64, push_all, push_decimal,
    spans_hold, spec_parse_u64, split_on, split_spans, Rank,
};
use vstd::prelude::*;
use vstd::slice::slice_subrange;

verus! {

/// A name and its color.
pub struct Entry {
    pub name: Vec<u8>,
    pub color: Color,
}

pub struct EntryView {
    pub name: Seq<u8>,
    pub color: Color,
}

impl View for Entry {
    type V = EntryView;

    open spec fn view(&self) -> EntryView {
        EntryView { name: self.name@, color: self.color }
    }
}

pub open spec fn entries_view(es: Seq<Entry>) -> Seq<EntryView> {
    Seq::new(es.len(), |i: int| es[i]@)
}

/// The names stand in strict alphabetical order.
pub open spec fn names_sorted(es: Seq<EntryView>) -> bool {
    forall|i: int, j: int|
        0 <= i < j < es.len() ==> bytes_lt((#[trigger] es[i]).name, (#[trigger] es[j]).name)
}

/// No name holds a line feed.
pub open spec fn names_plain(es: Seq<EntryView>) -> bool {
    forall|i: int| 0 <= i < es.len() ==> !(#[trigger] es[i]).name.contains(0x0a)
}

pub open spec fn has_name(es: Seq<EntryView>, n: Seq<u8>) -> bool {
    exists|i: int| 0 <= i < es.len() && (#[trigger] es[i]).name == n
}

pub open spec fn place_of(es: Seq<EntryView>, n: Seq<u8>) -> int {
    choose|i: int| 0 <= i < es.len() && (#[trigger] es[i]).name == n
}

/// The entries as a map from name to color.
pub open spec fn entries_map(es: Seq<EntryView>) -> Map<Seq<u8>, Color> {
    Map::new(|n: Seq<u8>| has_name(es, n), |n: Seq<u8>| es[place_of(es, n)].color)
}

proof fn lemma_place_unique(es: Seq<EntryView>, i: int)
    requires
        names_sorted(es),
        0 <= i < es.len(),
    ensures
        has_name(es, es[i].name),
        place_of(es, es[i].name) == i,
{
    let j = place_of(es, es[i].name);
    if j < i {
        lemma_bytes_lt_asymmetric(es[j].name, es[i].name);
    } else if i < j {
        lemma_bytes_lt_asymmetric(es[i].name, es[j].name);
    }
}

/// The name `n` belongs at `pos` among the entries, and is none of their names.
pub open spec fn name_belongs_at(es: Seq<EntryView>, pos: int, n: Seq<u8>) -> bool {
    &&& 0 <= pos <= es.len()
    &&& forall|j: int| 0 <= j < pos ==> bytes_lt((#[trigger] es[j]).name, n)
    &&& forall|j: int| pos <= j < es.len() ==> bytes_lt(n, (#[trigger] es[j]).name)
}

proof fn lemma_absent(es: Seq<EntryView>, pos: int, n: Seq<u8>)
    requires
        name_belongs_at(es, pos, n),
    ensures
        !has_name(es, n),
{
    if has_name(es, n) {
        let j = place_of(es, n);
        lemma_bytes_lt_irreflexive(n);
    }
}

/// The text of a color: `rgb(r,g,b)` with the three parts in decimal.
pub open spec fn color_text(c: Color) -> Seq<u8> {
    seq![0x72u8, 0x67u8, 0x62u8, 0x28u8] + decimal_digits(c.r as nat) + seq![0x2cu8]
        + decimal_digits(c.g as nat) + seq![0x2cu8] + decimal_digits(c.b as nat) + seq![0x29u8]
}

/// The line of an entry, without the line feed: the name, a tab, the color.
pub open spec fn entry_line(e: EntryView) -> Seq<u8> {
    e.name.push(0x09) + color_text(e.color)
}

/// The text of the entries: their lines in order, each with a line feed after it.
pub open spec fn saved(es: Seq<EntryView>) -> Seq<u8>
    decreases es.len(),
{
    if es.len() == 0 {
        Seq::empty()
    } else {
        saved(es.drop_last()) + entry_line(es.last()).push(0x0a)
    }
}

/// The color that a text of the form `rgb(r,g,b)` writes, each part a decimal
/// number up to 255.
pub open spec fn spec_color(s: Seq<u8>) -> Option<Color> {
    if s.len() >= 5 && s[0] == 0x72 && s[1] == 0x67 && s[2] == 0x62 && s[3] == 0x28 && s.last()
        == 0x29 {
        let parts = split_on(s.subrange(4, s.len() - 1), 0x2c);
        if parts.len() == 3 {
            match (spec_parse_u64(parts[0]), spec_parse_u64(parts[1]), spec_parse_u64(parts[2])) {
                (Some(r), Some(g), Some(b)) => if r <= 255 && g <= 255 && b <= 255 {
                    Some(Color { r: r as u8, g: g as u8, b: b as u8 })
                } else {
                    None
                },
                _ => None,
            }
        } else {
            None
        }
    } else {
        None
    }
}

/// The entry that a line writes: the name is what stands before the last tab,
/// the color what stands after it.
pub open spec fn spec_entry(line: Seq<u8>) -> Option<EntryView> {
    let t = last_place(line, 0x09);
    if t < 0 {
        None
    } else {
        match spec_color(line.skip(t + 1)) {
            Some(c) => Some(EntryView { name: line.take(t), color: c }),
            None => None,
        }
    }
}

/// The map that the lines write, or the number, from 1, of the first line
/// that is no entry. Empty lines are passed over; of two lines with one name
/// the later holds.
pub open spec fn loaded(lines: Seq<Seq<u8>>) -> Result<Map<Seq<u8>, Color>, int>
    decreases lines.len(),
{
    if lines.len() == 0 {
        Ok(Map::empty())
    } else {
        match loaded(lines.drop_last()) {
            Err(n) => Err(n),
            Ok(m) => if lines.last().len() == 0 {
                Ok(m)
            } else {
                match spec_entry(lines.last()) {
                    Some(e) => Ok(m.insert(e.name, e.color)),
                    None => Err(lines.len() as int),
                }
            },
        }
    }
}

/// The map that a text writes.
pub open spec fn spec_load(text: Seq<u8>) -> Result<Map<Seq<u8>, Color>, int> {
    loaded(split_on(text, 0x0a))
}

/// A text that is no palette map: the number of its first bad line, from 1.
#[derive(Clone, Copy, Debug, PartialEq, Eq, Structural)]
pub struct PaletteError {
    pub line: usize,
}

/// Appends the text of a color.
pub fn push_color(out: &mut Vec<u8>, c: Color)
    ensures
        final(out)@ == old(out)@ + color_text(c),
{
    out.push(0x72);
    out.push(0x67);
    out.push(0x62);
    out.push(0x28);
    push_decimal(out, c.r as u128);
    out.push(0x2c);
    push_decimal(out, c.g as u128);
    out.push(0x2c);
    push_decimal(out, c.b as u128);
    out.push(0x29);
    assert(out@ =~= old(out)@ + color_text(c));
}

/// Reads the text of a color from `s[from..to]`.
pub fn parse_color(s: &[u8], from: usize, to: usize) -> (r: Option<Color>)
    requires
        from <= to <= s.len(),
    ensures
        r == spec_color(s@.subrange(from as int, to as int)),
{
    let ghost t = s@.subrange(from as int, to as int);
    if to - from < 5 {
        return None;
    }
    if !(s[from] == 0x72 && s[from + 1] == 0x67 && s[from + 2] == 0x62 && s[from + 3] == 0x28
        && s[to - 1] == 0x29) {
        return None;
    }
    assert(t.subrange(4, t.len() - 1) =~= s@.subrange(from + 4, to - 1));
    let spans = split_spans(s, from + 4, to - 1, 0x2c);
    if spans.len() != 3 {
        return None;
    }
    let a = spans[0];
    let b = spans[1];
    let c = spans[2];
    let red = parse_u64(slice_subrange(s, a.start, a.end));
    let green = parse_u64(slice_subrange(s, b.start, b.end));
    let blue = parse_u64(slice_subrange(s, c.start, c.end));
    match (red, green, blue) {
        (Some(r), Some(g), Some(b)) => {
            if r <= 255 && g <= 255 && b <= 255 {
                Some(Color { r: r as u8, g: g as u8, b: b as u8 })
            } else {
                None
            }
        },
        _ => None,
    }
}

fn has_line_feed(s: &[u8]) -> (r: bool)
    ensures
        r == s@.contains(0x0a),
{
    let mut i: usize = 0;
    while i < s.len()
        invariant
            i <= s.len(),
            forall|j: int| 0 <= j < i ==> s@[j] != 0x0a,
        decreases s.len() - i,
    {
        if s[i] == 0x0a {
            return true;
        }
        i += 1;
    }
    false
}

/// The map from function names to colors.
pub struct PaletteMap {
    pub entries: Vec<Entry>,
}

impl View for PaletteMap {
    type V = Map<Seq<u8>, Color>;

    open spec fn view(&self) -> Map<Seq<u8>, Color> {
        entries_map(self.items())
    }
}

impl PaletteMap {
    /// The entries in their order.
    pub open spec fn items(&self) -> Seq<EntryView> {
        entries_view(self.entries@)
    }

    /// The names stand in strict alphabetical order, and none holds a line feed.
    pub open spec fn wf(&self) -> bool {
        names_sorted(self.items()) && names_plain(self.items())
    }

    /// A map without entries.
    pub fn new() -> (m: PaletteMap)
        ensures
            m.wf(),
            m@ == Map::<Seq<u8>, Color>::empty(),
            m.items().len() == 0,
    {
        let m = PaletteMap { entries: Vec::new() };
        assert(m@ =~= Map::<Seq<u8>, Color>::empty());
        m
    }

    /// The number of names.
    pub fn len(&self) -> (n: usize)
        ensures
            n == self.items().len(),
    {
        self.entries.len()
    }

    fn locate(&self, name: &[u8]) -> (r: (usize, bool))
        requires
            self.wf(),
        ensures
            r.0 <= self.items().len(),
            r.1 ==> r.0 < self.items().len() && self.items()[r.0 as int].name == name@,
            !r.1 ==> name_belongs_at(self.items(), r.0 as int, name@),
    {
        let ghost es = self.items();
        let n = self.entries.len();
        let mut j: usize = 0;
        while j < n
            invariant
                self.wf(),
                es == self.items(),
                n == es.len(),
                j <= n,
                forall|m: int| 0 <= m < j ==> bytes_lt((#[trigger] es[m]).name, name@),
            decreases n - j,
        {
            let entry = &self.entries[j];
            assert(entry@ == es[j as int]);
            match compare_bytes(entry.name.as_slice(), name) {
                Rank::Before => {
                    j += 1;
                },
                Rank::Same => {
                    return (j, true);
                },
                Rank::After => {
                    proof {
                        lemma_bytes_lt_total(es[j as int].name, name@);
                        assert forall|m: int| j <= m < n implies bytes_lt(
                            name@,
                            (#[trigger] es[m]).name,
                        ) by {
                            if m > j {
                                lemma_bytes_lt_transitive(name@, es[j as int].name, es[m].name);
                            }
                        }
                    }
                    return (j, false);
                },
            }
        }
        (j, false)
    }

    /// The color of a name, if the map has the name.
    pub fn get(&self, name: &[u8]) -> (r: Option<Color>)
        requires
            self.wf(),
        ensures
            r == (if self@.contains_key(name@) {
                Some(self@[name@])
            } else {
                None
            }),
    {
        let (pos, found) = self.locate(name);
        if found {
            proof {
                lemma_place_unique(self.items(), pos as int);
            }
            Some(self.entries[pos].color)
        } else {
            proof {
                lemma_absent(self.items(), pos as int, name@);
            }
            None
        }
    }

    /// Gives a name a color, in place of the color that it had, if any. A
    /// name that holds a line feed cannot be written as a line and is not
    /// taken: the map stays as it was and the answer is `false`.
    pub fn insert(&mut self, name: &[u8], color: Color) -> (stored: bool)
        requires
            old(self).wf(),
        ensures
            final(self).wf(),
            stored == !name@.contains(0x0a),
            stored ==> final(self)@ == old(self)@.insert(name@, color),
            !stored ==> final(self).items() == old(self).items(),
    {
        if has_line_feed(name) {
            return false;
        }
        let ghost es = self.items();
        let (pos, found) = self.locate(name);
        if found {
            self.entries[pos].color = color;
            proof {
                let fs = self.items();
                assert(fs.len() == es.len());
                assert forall|i: int| 0 <= i < es.len() implies (#[trigger] fs[i]).name
                    == es[i].name && (i != pos ==> fs[i] == es[i]) by {}
                assert(names_sorted(fs)) by {
                    assert forall|i: int, j: int| 0 <= i < j < fs.len() implies bytes_lt(
                        (#[trigger] fs[i]).name,
                        (#[trigger] fs[j]).name,
                    ) by {
                        assert(bytes_lt(es[i].name, es[j].name));
                    }
                }
                assert(names_plain(fs)) by {
                    assert forall|i: int| 0 <= i < fs.len() implies !(#[trigger] fs[i]).name.contains(
                        0x0a,
                    ) by {
                        assert(!es[i].name.contains(0x0a));
                    }
                }
                assert forall|n: Seq<u8>| has_name(fs, n) <==> has_name(es, n) by {
                    if has_name(fs, n) {
                        let i = place_of(fs, n);
                        assert(es[i].name == n);
                    }
                    if has_name(es, n) {
                        let i = place_of(es, n);
                        assert(fs[i].name == n);
                    }
                }
                lemma_place_unique(es, pos as int);
                assert forall|n: Seq<u8>| has_name(fs, n) implies #[trigger] entries_map(fs)[n]
                    == entries_map(es).insert(name@, color)[n] by {
                    let i = place_of(fs, n);
                    lemma_place_unique(fs, i);
                    lemma_place_unique(es, i);
                }
                assert(entries_map(fs) =~= entries_map(es).insert(name@, color));
            }
        } else {
            let copy = copy_range(name, 0, name.len());
            assert(copy@ =~= name@);
            self.entries.insert(pos, Entry { name: copy, color });
            proof {
                let fs = self.items();
                let e = EntryView { name: name@, color };
                old(self).entries@.insert_ensures(pos as int, self.entries@[pos as int]);
                assert(fs =~= es.insert(pos as int, e)) by {
                    es.insert_ensures(pos as int, e);
                    assert(fs.len() == es.len() + 1);
                    assert forall|i: int| 0 <= i < fs.len() implies fs[i] == es.insert(
                        pos as int,
                        e,
                    )[i] by {
                        if i < pos {
                            assert(self.entries@[i] == old(self).entries@[i]);
                            assert(es.insert(pos as int, e)[i] == es[i]);
                        } else if i > pos {
                            assert(self.entries@[(i - 1) + 1] == old(self).entries@[i - 1]);
                            assert(es.insert(pos as int, e)[(i - 1) + 1] == es[i - 1]);
                        }
                    }
                }
                lemma_inserted(es, pos as int, e);
            }
        }
        true
    }

    /// The map as text.
    pub fn save(&self) -> (text: Vec<u8>)
        ensures
            text@ == saved(self.items()),
    {
        let ghost es = self.items();
        let mut text: Vec<u8> = Vec::new();
        let mut i: usize = 0;
        assert(es.take(0) =~= Seq::<EntryView>::empty());
        while i < self.entries.len()
            invariant
                i <= self.entries@.len(),
                es == self.items(),
                text@ == saved(es.take(i as int)),
            decreases self.entries@.len() - i,
        {
            let entry = &self.entries[i];
            let ghost before = text@;
            push_all(&mut text, entry.name.as_slice());
            text.push(0x09);
            push_color(&mut text, entry.color);
            text.push(0x0a);
            proof {
                assert(es.take(i + 1).drop_last() =~= es.take(i as int));
                assert(es.take(i + 1).last() == entry@);
                assert(text@ =~= before + entry_line(entry@).push(0x0a));
            }
            i += 1;
        }
        assert(es.take(i as int) =~= es);
        text
    }

    /// Reads a map from text. Every line that is not empty must be an entry.
    pub fn load(text: &[u8]) -> (r: Result<PaletteMap, PaletteError>)
        ensures
            match r {
                Ok(m) => m.wf() && spec_load(text@) == Ok::<Map<Seq<u8>, Color>, int>(m@),
                Err(e) => spec_load(text@) == Err::<Map<Seq<u8>, Color>, int>(e.line as int),
            },
    {
        assert(text@.subrange(0, text@.len() as int) =~= text@);
        let spans = split_spans(text, 0, text.len(), 0x0a);
        let ghost lines = split_on(text@, 0x0a);
        let mut map = PaletteMap::new();
        let mut k: usize = 0;
        assert(lines.take(0) =~= Seq::<Seq<u8>>::empty());
        while k < spans.len()
            invariant
                k <= spans@.len(),
                lines == split_on(text@, 0x0a),
                spans_hold(text@, 0, text@.len() as int, spans@, lines),
                map.wf(),
                loaded(lines.take(k as int)) == Ok::<Map<Seq<u8>, Color>, int>(map@),
            decreases spans@.len() - k,
        {
            let span = spans[k];
            let ghost line = lines[k as int];
            proof {
                assert(lines.take(k + 1).drop_last() =~= lines.take(k as int));
                assert(lines.take(k + 1).last() == line);
                assert(text@.subrange(span.start as int, span.end as int) == line);
            }
            if span.end > span.start {
                let entry = match find_last(text, span.start, span.end, 0x09) {
                    None => None,
                    Some(t) => {
                        assert(line.skip(t - span.start + 1) =~= text@.subrange(
                            t + 1,
                            span.end as int,
                        ));
                        assert(line.take(t - span.start) =~= text@.subrange(
                            span.start as int,
                            t as int,
                        ));
                        match parse_color(text, t + 1, span.end) {
                            None => None,
                            Some(c) => Some((t, c)),
                        }
                    },
                };
                match entry {
                    None => {
                        proof {
                            lemma_loaded_stays(lines, k + 1);
                        }
                        return Err(PaletteError { line: k + 1 });
                    },
                    Some((t, c)) => {
                        let name = slice_subrange(text, span.start, t);
                        proof {
                            lemma_split_parts(text@, 0x0a);
                            assert(!line.contains(0x0a));
                            assert forall|i: int| 0 <= i < name@.len() implies name@[i] != 0x0a by {
                                assert(line.contains(line[i]));
                            }
                        }
                        let stored = map.insert(name, c);
                        assert(stored);
                    },
                }
            }
            k += 1;
        }
        assert(lines.take(k as int) =~= lines);
        Ok(map)
    }
}

/// A new entry at its place leaves the names in order, and makes the map
/// that holds the entry besides.
proof fn lemma_inserted(es: Seq<EntryView>, pos: int, e: EntryView)
    requires
        names_sorted(es),
        names_plain(es),
        name_belongs_at(es, pos, e.name),
        !e.name.contains(0x0a),
    ensures
        names_sorted(es.insert(pos, e)),
        names_plain(es.insert(pos, e)),
        entries_map(es.insert(pos, e)) == entries_map(es).insert(e.name, e.color),
{
    let fs = es.insert(pos, e);
    es.insert_ensures(pos, e);
    assert forall|i: int| pos < i < fs.len() implies #[trigger] fs[i] == es[i - 1] by {
        assert(fs[(i - 1) + 1] == es[i - 1]);
    }
    assert forall|i: int, j: int| 0 <= i < j < fs.len() implies bytes_lt(
        (#[trigger] fs[i]).name,
        (#[trigger] fs[j]).name,
    ) by {
        let a = if i < pos {
            es[i]
        } else {
            es[i - 1]
        };
        let b = if j < pos {
            es[j]
        } else {
            es[j - 1]
        };
        if i != pos {
            assert(fs[i] == a);
        }
        if j != pos {
            assert(fs[j] == b);
        }
        if i != pos && j != pos {
            assert(bytes_lt(a.name, b.name));
        }
    }
    assert forall|i: int| 0 <= i < fs.len() implies !(#[trigger] fs[i]).name.contains(0x0a) by {
        if i < pos {
            assert(fs[i] == es[i]);
        } else if i > pos {
            assert(fs[i] == es[i - 1]);
        }
    }
    lemma_inserted_map(es, pos, e);
}

proof fn lemma_loaded_stays(lines: Seq<Seq<u8>>, j: int)
    requires
        0 <= j <= lines.len(),
        loaded(lines.take(j)) is Err,
    ensures
        loaded(lines) == loaded(lines.take(j)),
    decreases lines.len() - j,
{
    if j == lines.len() {
        assert(lines.take(j) =~= lines);
    } else {
        assert(lines.take(j + 1).drop_last() =~= lines.take(j));
        lemma_loaded_stays(lines, j + 1);
    }
}


/// The lines of the entries, in order.
pub open spec fn entry_lines(es: Seq<EntryView>) -> Seq<Seq<u8>> {
    Seq::new(es.len(), |i: int| entry_line(es[i]))
}

proof fn lemma_digits_plain(n: nat, b: u8)
    requires
        !is_digit(b),
    ensures
        !decimal_digits(n).contains(b),
{
    lemma_decimal_round_trip(n);
}

/// The text of a color holds neither tab nor line feed, and reads as the color.
pub proof fn lemma_color_round_trip(c: Color)
    ensures
        spec_color(color_text(c)) == Some(c),
        !color_text(c).contains(0x09),
        !color_text(c).contains(0x0a),
{
    let r = decimal_digits(c.r as nat);
    let g = decimal_digits(c.g as nat);
    let b = decimal_digits(c.b as nat);
    let head = seq![0x72u8, 0x67u8, 0x62u8, 0x28u8];
    let comma = seq![0x2cu8];
    let t = color_text(c);
    lemma_decimal_round_trip(c.r as nat);
    lemma_decimal_round_trip(c.g as nat);
    lemma_decimal_round_trip(c.b as nat);
    lemma_digits_plain(c.r as nat, 0x2c);
    lemma_digits_plain(c.g as nat, 0x2c);
    lemma_digits_plain(c.b as nat, 0x2c);
    assert(t.len() == 4 + r.len() + 1 + g.len() + 1 + b.len() + 1);
    let mid = t.subrange(4, t.len() - 1);
    assert(mid =~= r.push(0x2c) + g + comma + b);
    lemma_split_plain(r, 0x2c);
    assert(r.push(0x2c).drop_last() =~= r);
    assert(split_on(r.push(0x2c), 0x2c) =~= seq![r, Seq::<u8>::empty()]);
    lemma_split_append(r.push(0x2c), g, 0x2c);
    assert(Seq::<u8>::empty() + g =~= g);
    assert(split_on(r.push(0x2c) + g, 0x2c) =~= seq![r, g]);
    let two = (r.push(0x2c) + g).push(0x2c);
    assert(two.drop_last() =~= r.push(0x2c) + g);
    assert(split_on(two, 0x2c) =~= seq![r, g, Seq::<u8>::empty()]);
    lemma_split_append(two, b, 0x2c);
    assert(Seq::<u8>::empty() + b =~= b);
    assert(two + b =~= mid);
    assert(split_on(mid, 0x2c) =~= seq![r, g, b]);
    assert forall|i: int| 0 <= i < t.len() implies t[i] != 0x09 && t[i] != 0x0a by {
        if 4 <= i < 4 + r.len() {
            assert(is_digit(r[i - 4]));
        } else if 5 + r.len() <= i < 5 + r.len() + g.len() {
            assert(is_digit(g[i - 5 - r.len()]));
        } else if 6 + r.len() + g.len() <= i < 6 + r.len() + g.len() + b.len() {
            assert(is_digit(b[i - 6 - r.len() - g.len()]));
        }
    }
}

/// The line of an entry reads as the entry.
proof fn lemma_entry_round_trip(e: EntryView)
    ensures
        spec_entry(entry_line(e)) == Some(e),
        entry_line(e).len() > 0,
{
    lemma_color_round_trip(e.color);
    lemma_last_place_found(e.name, color_text(e.color), 0x09);
    let line = entry_line(e);
    let t = e.name.len() as int;
    assert(line.skip(t + 1) =~= color_text(e.color));
    assert(line.take(t) =~= e.name);
}

/// The text of the entries falls into their lines, and an empty part after the last.
proof fn lemma_saved_lines(es: Seq<EntryView>)
    requires
        names_plain(es),
    ensures
        split_on(saved(es), 0x0a) == entry_lines(es).push(Seq::empty()),
    decreases es.len(),
{
    let e = Seq::<u8>::empty();
    if es.len() == 0 {
        assert(entry_lines(es).push(e) =~= seq![e]);
    } else {
        let rest = es.drop_last();
        assert forall|i: int| 0 <= i < rest.len() implies !(#[trigger] rest[i]).name.contains(
            0x0a,
        ) by {
            assert(rest[i] == es[i]);
        }
        lemma_saved_lines(rest);
        let line = entry_line(es.last());
        lemma_color_round_trip(es.last().color);
        assert(es[es.len() - 1] == es.last());
        assert(!es.last().name.contains(0x0a));
        assert forall|i: int| 0 <= i < line.len() implies line[i] != 0x0a by {
            if i < es.last().name.len() {
                assert(es.last().name.contains(es.last().name[i]));
            } else if i > es.last().name.len() {
                let ct = color_text(es.last().color);
                assert(ct.contains(ct[i - es.last().name.len() - 1]));
            }
        }
        lemma_split_append(saved(rest), line, 0x0a);
        assert(e + line =~= line);
        let whole = saved(rest) + line;
        assert(split_on(whole, 0x0a) =~= entry_lines(rest).push(line));
        assert(saved(es) =~= whole.push(0x0a));
        assert(whole.push(0x0a).drop_last() =~= whole);
        assert(entry_lines(rest).push(line) =~= entry_lines(es));
    }
}

/// The lines of the first `k` entries read as the map of those entries.
proof fn lemma_loaded_entries(es: Seq<EntryView>, k: int)
    requires
        names_sorted(es),
        0 <= k <= es.len(),
    ensures
        loaded(entry_lines(es).take(k)) == Ok::<Map<Seq<u8>, Color>, int>(
            entries_map(es.take(k)),
        ),
    decreases k,
{
    let lines = entry_lines(es);
    if k == 0 {
        assert(lines.take(0) =~= Seq::<Seq<u8>>::empty());
        assert(entries_map(es.take(0)) =~= Map::<Seq<u8>, Color>::empty());
    } else {
        lemma_loaded_entries(es, k - 1);
        assert(lines.take(k).drop_last() =~= lines.take(k - 1));
        assert(lines.take(k).last() == entry_line(es[k - 1]));
        lemma_entry_round_trip(es[k - 1]);
        let before = es.take(k - 1);
        let e = es[k - 1];
        assert forall|i: int, j: int| 0 <= i < j < before.len() implies bytes_lt(
            (#[trigger] before[i]).name,
            (#[trigger] before[j]).name,
        ) by {
            assert(bytes_lt(es[i].name, es[j].name));
        }
        assert forall|j: int| 0 <= j < k - 1 implies bytes_lt((#[trigger] before[j]).name, e.name) by {
            assert(bytes_lt(es[j].name, es[k - 1].name));
        }
        assert(before.insert(k - 1, e) =~= es.take(k));
        lemma_inserted_map(before, k - 1, e);
    }
}

/// As `lemma_inserted`, for the map alone.
proof fn lemma_inserted_map(es: Seq<EntryView>, pos: int, e: EntryView)
    requires
        names_sorted(es),
        name_belongs_at(es, pos, e.name),
    ensures
        entries_map(es.insert(pos, e)) == entries_map(es).insert(e.name, e.color),
{
    let fs = es.insert(pos, e);
    es.insert_ensures(pos, e);
    assert forall|i: int| pos < i < fs.len() implies #[trigger] fs[i] == es[i - 1] by {
        assert(fs[(i - 1) + 1] == es[i - 1]);
    }
    assert forall|i: int, j: int| 0 <= i < j < fs.len() implies bytes_lt(
        (#[trigger] fs[i]).name,
        (#[trigger] fs[j]).name,
    ) by {
        let a = if i < pos {
            es[i]
        } else {
            es[i - 1]
        };
        let b = if j < pos {
            es[j]
        } else {
            es[j - 1]
        };
        if i != pos {
            assert(fs[i] == a);
        }
        if j != pos {
            assert(fs[j] == b);
        }
        if i != pos && j != pos {
            assert(bytes_lt(a.name, b.name));
        }
    }
    lemma_absent(es, pos, e.name);
    assert forall|n: Seq<u8>| has_name(fs, n) <==> (n == e.name || has_name(es, n)) by {
        if has_name(fs, n) {
            let i = place_of(fs, n);
            if i < pos {
                assert(es[i].name == n);
            } else if i > pos {
                assert(es[i - 1].name == n);
            }
        }
        if has_name(es, n) {
            let i = place_of(es, n);
            if i < pos {
                assert(fs[i].name == n);
            } else {
                assert(fs[i + 1] == es[(i + 1) - 1]);
                assert(fs[i + 1].name == n);
            }
        }
        if n == e.name {
            assert(fs[pos].name == n);
        }
    }
    assert forall|n: Seq<u8>| has_name(fs, n) implies #[trigger] entries_map(fs)[n] == entries_map(
        es,
    ).insert(e.name, e.color)[n] by {
        let i = place_of(fs, n);
        lemma_place_unique(fs, i);
        if i < pos {
            lemma_place_unique(es, i);
        } else if i > pos {
            lemma_place_unique(es, i - 1);
        }
    }
    assert(entries_map(fs) =~= entries_map(es).insert(e.name, e.color));
}

/// A palette map that is written as text and read again is the map that was
/// written: every name with its color, and no other name.
pub proof fn lemma_round_trip(es: Seq<EntryView>)
    requires
        names_sorted(es),
        names_plain(es),
    ensures
        spec_load(saved(es)) == Ok::<Map<Seq<u8>, Color>, int>(entries_map(es)),
{
    lemma_saved_lines(es);
    let lines = entry_lines(es);
    let all = lines.push(Seq::empty());
    lemma_loaded_entries(es, es.len() as int);
    assert(lines.take(es.len() as int) =~= lines);
    assert(es.take(es.len() as int) =~= es);
    assert(all.drop_last() =~= lines);
}

/// The palette map of a run: none unless the run is to keep its colors
/// consistent; else the map that the palette file holds, and an empty map
/// where there is no such file.
pub fn fetch_consistent_palette_if_needed(
    use_consistent_palette: bool,
    palette_file: Option<&[u8]>,
) -> (r: Result<Option<PaletteMap>, PaletteError>)
    ensures
        match r {
            Ok(None) => !use_consistent_palette,
            Ok(Some(m)) => use_consistent_palette && m.wf() && match palette_file {
                None => m.items().len() == 0,
                Some(text) => spec_load(text@) == Ok::<Map<Seq<u8>, Color>, int>(m@),
            },
            Err(e) => use_consistent_palette && match palette_file {
                None => false,
                Some(text) => spec_load(text@) == Err::<Map<Seq<u8>, Color>, int>(e.line as int),
            },
        },
{
    if !use_consistent_palette {
        return Ok(None);
    }
    match palette_file {
        None => Ok(Some(PaletteMap::new())),
        Some(text) => match PaletteMap::load(text) {
            Ok(m) => Ok(Some(m)),
            Err(e) => Err(e),
        },
    }
}

/// What is to be written to the palette file after a run: the text of the
/// map, if the run had one.
pub fn save_consistent_palette_if_needed(palette_map: &Option<PaletteMap>) -> (r: Option<Vec<u8>>)
    ensures
        match palette_map {
            Some(m) => r matches Some(text) && text@ == saved(m.items()),
            None => r is None,
        },
{
    match palette_map {
        Some(m) => Some(m.save()),
        None => None,
    }
}

} // verus!
