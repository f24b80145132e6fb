//! Attributes for the frames of chosen functions.
//!
//! As text there is one line for each function: its name and, after tabs,
//! one `key=value` for each attribute. The image gives every frame of that
//! name these attributes.

use crate::text::{bytes_equal, copy_range, spans_hold, split_on, split_spans};
use vstd::prelude::*;

verus! {

/// An attribute of an element.
pub struct Attribute {
    pub key: Vec<u8>,
    pub value: Vec<u8>,
}

pub struct AttributeView {
    pub key: Seq<u8>,
    pub value: Seq<u8>,
}

impl View for Attribute {
    type V = AttributeView;

    open spec fn view(&self) -> AttributeView {
        AttributeView { key: self.key@, value: self.value@ }
    }
}

pub open spec fn attributes_view(a: Seq<Attribute>) -> Seq<AttributeView> {
    Seq::new(a.len(), |i: int| a[i]@)
}

/// The attributes of the frames of one function.
pub struct FrameAttrs {
    pub name: Vec<u8>,
    pub attributes: Vec<Attribute>,
}

pub struct FrameAttrsView {
    pub name: Seq<u8>,
    pub attributes: Seq<AttributeView>,
}

impl View for FrameAttrs {
    type V = FrameAttrsView;

    open spec fn view(&self) -> FrameAttrsView {
        FrameAttrsView { name: self.name@, attributes: attributes_view(self.attributes@) }
    }
}

/// The attributes of the frames, function by function.
pub struct FuncFrameAttrsMap {
    pub entries: Vec<FrameAttrs>,
}

impl View for FuncFrameAttrsMap {
    type V = Seq<FrameAttrsView>;

    open spec fn view(&self) -> Seq<FrameAttrsView> {
        Seq::new(self.entries@.len(), |i: int| self.entries@[i]@)
    }
}

/// A byte that may stand in the key of an attribute: a letter, a digit, or
/// one of `_`, `-`, `:` and `.`.
pub open spec fn is_key_byte(b: u8) -> bool {
    (0x41 <= b <= 0x5a) || (0x61 <= b <= 0x7a) || (0x30 <= b <= 0x39) || b == 0x5f || b == 0x2d
        || b == 0x3a || b == 0x2e
}

/// The place of the first byte `b` in `s`, or -1 where `s` has none.
pub open spec fn first_place(s: Seq<u8>, b: u8) -> int
    decreases s.len(),
{
    if s.len() == 0 {
        -1
    } else if first_place(s.drop_last(), b) >= 0 {
        first_place(s.drop_last(), b)
    } else if s.last() == b {
        s.len() - 1
    } else {
        -1
    }
}

/// The attribute that a field of the form `key=value` writes. The key ends
/// at the first `=`; it is not empty and holds key bytes only.
pub open spec fn spec_attribute(field: Seq<u8>) -> Option<AttributeView> {
    let e = first_place(field, 0x3d);
    if e >= 1 && (forall|i: int| 0 <= i < e ==> is_key_byte(#[trigger] field[i])) {
        Some(AttributeView { key: field.take(e), value: field.skip(e + 1) })
    } else {
        None
    }
}

/// The attributes that the fields write, if each of them writes one.
pub open spec fn spec_attributes(fields: Seq<Seq<u8>>) -> Option<Seq<AttributeView>>
    decreases fields.len(),
{
    if fields.len() == 0 {
        Some(Seq::empty())
    } else {
        match (spec_attributes(fields.drop_last()), spec_attribute(fields.last())) {
            (Some(a), Some(x)) => Some(a.push(x)),
            _ => None,
        }
    }
}

/// What a line writes: a name, and at least one attribute after it.
pub open spec fn spec_frame_attrs(line: Seq<u8>) -> Option<FrameAttrsView> {
    let fields = split_on(line, 0x09);
    if fields.len() < 2 {
        None
    } else {
        match spec_attributes(fields.skip(1)) {
            Some(a) => Some(FrameAttrsView { name: fields[0], attributes: a }),
            None => None,
        }
    }
}

/// What the lines write, or the number, from 1, of the first line that
/// writes nothing of the kind. Empty lines are passed over.
pub open spec fn loaded(lines: Seq<Seq<u8>>) -> Result<Seq<FrameAttrsView>, int>
    decreases lines.len(),
{
    if lines.len() == 0 {
        Ok(Seq::empty())
    } else {
        match loaded(lines.drop_last()) {
            Err(n) => Err(n),
            Ok(m) => if lines.last().len() == 0 {
                Ok(m)
            } else {
                match spec_frame_attrs(lines.last()) {
                    Some(e) => Ok(m.push(e)),
                    None => Err(lines.len() as int),
                }
            },
        }
    }
}

/// What a text writes.
pub open spec fn spec_load(text: Seq<u8>) -> Result<Seq<FrameAttrsView>, int> {
    loaded(split_on(text, 0x0a))
}

/// The attributes of the first entry with the name `name`, and none where
/// no entry has the name.
pub open spec fn attributes_for(entries: Seq<FrameAttrsView>, name: Seq<u8>) -> Seq<
    AttributeView,
>
    decreases entries.len(),
{
    if entries.len() == 0 {
        Seq::empty()
    } else if entries[0].name == name {
        entries[0].attributes
    } else {
        attributes_for(entries.drop_first(), name)
    }
}

/// A text that writes no attributes: the number of its first bad line, from 1.
#[derive(Clone, Copy, Debug, PartialEq, Eq, Structural)]
pub struct AttrsError {
    pub line: usize,
}

fn byte_is_key(b: u8) -> (r: bool)
    ensures
        r == is_key_byte(b),
{
    (0x41 <= b && b <= 0x5a) || (0x61 <= b && b <= 0x7a) || (0x30 <= b && b <= 0x39) || b == 0x5f
        || b == 0x2d || b == 0x3a || b == 0x2e
}

/// Reads the attribute that `s[from..to]` writes.
fn parse_attribute(s: &[u8], from: usize, to: usize) -> (r: Option<Attribute>)
    requires
        from <= to <= s.len(),
    ensures
        match r {
            Some(a) => spec_attribute(s@.subrange(from as int, to as int)) == Some(a@),
            None => spec_attribute(s@.subrange(from as int, to as int)) is None,
        },
{
    let ghost field = s@.subrange(from as int, to as int);
    let mut i = from;
    assert(field.take(0) =~= Seq::<u8>::empty());
    while i < to && s[i] != 0x3d
        invariant
            from <= i <= to,
            to <= s.len(),
            field == s@.subrange(from as int, to as int),
            first_place(field.take(i - from), 0x3d) == -1,
            forall|j: int| 0 <= j < i - from ==> is_key_byte(#[trigger] field[j]),
        decreases to - i,
    {
        if !byte_is_key(s[i]) {
            proof {
                lemma_first_place_after(field, i - from, 0x3d);
                lemma_first_place_holds(field, 0x3d);
                assert(!is_key_byte(field[i - from]));
            }
            return None;
        }
        assert(field.take(i - from + 1).drop_last() =~= field.take(i - from));
        i += 1;
    }
    if i == to {
        assert(field.take(i - from) =~= field);
        return None;
    }
    proof {
        assert(field.take(i - from + 1).drop_last() =~= field.take(i - from));
        assert(first_place(field.take(i - from + 1), 0x3d) == i - from);
        lemma_first_place_found(field, i - from + 1, 0x3d);
    }
    if i == from {
        return None;
    }
    let key = copy_range(s, from, i);
    let value = copy_range(s, i + 1, to);
    assert(key@ =~= field.take(i - from));
    assert(value@ =~= field.skip(i - from + 1));
    Some(Attribute { key, value })
}

/// The first place of a byte holds the byte.
pub proof fn lemma_first_place_holds(s: Seq<u8>, b: u8)
    ensures
        -1 <= first_place(s, b) < s.len(),
        first_place(s, b) >= 0 ==> s[first_place(s, b)] == b,
    decreases s.len(),
{
    if s.len() > 0 {
        lemma_first_place_holds(s.drop_last(), b);
    }
}

/// The first place of a byte in a start of `s` is its first place in `s`.
proof fn lemma_first_place_found(s: Seq<u8>, n: int, b: u8)
    requires
        0 <= n <= s.len(),
        first_place(s.take(n), b) >= 0,
    ensures
        first_place(s, b) == first_place(s.take(n), b),
    decreases s.len() - n,
{
    if n == s.len() {
        assert(s.take(n) =~= s);
    } else {
        assert(s.take(n + 1).drop_last() =~= s.take(n));
        lemma_first_place_found(s, n + 1, b);
    }
}

/// Where a start of `s` holds no `b`, the first `b` of `s` comes after it, if at all.
proof fn lemma_first_place_after(s: Seq<u8>, n: int, b: u8)
    requires
        0 <= n <= s.len(),
        first_place(s.take(n), b) == -1,
    ensures
        first_place(s, b) == -1 || first_place(s, b) >= n,
    decreases s.len() - n,
{
    if n == s.len() {
        assert(s.take(n) =~= s);
    } else {
        assert(s.take(n + 1).drop_last() =~= s.take(n));
        if s[n] == b {
            lemma_first_place_found(s, n + 1, b);
        } else {
            lemma_first_place_after(s, n + 1, b);
        }
    }
}

/// Reads the entry that the line `s[from..to]` writes.
fn parse_entry(s: &[u8], from: usize, to: usize) -> (r: Option<FrameAttrs>)
    requires
        from <= to <= s.len(),
    ensures
        match r {
            Some(e) => spec_frame_attrs(s@.subrange(from as int, to as int)) == Some(e@),
            None => spec_frame_attrs(s@.subrange(from as int, to as int)) is None,
        },
{
    let ghost line = s@.subrange(from as int, to as int);
    let fields = split_spans(s, from, to, 0x09);
    let ghost parts = split_on(line, 0x09);
    if fields.len() < 2 {
        return None;
    }
    let ghost rest = parts.skip(1);
    let mut attributes: Vec<Attribute> = Vec::new();
    let mut k: usize = 1;
    proof {
        assert(rest.take(0) =~= Seq::<Seq<u8>>::empty());
        assert(attributes_view(attributes@) =~= Seq::<AttributeView>::empty());
    }
    while k < fields.len()
        invariant
            1 <= k <= fields@.len(),
            line == s@.subrange(from as int, to as int),
            parts == split_on(line, 0x09),
            rest == parts.skip(1),
            spans_hold(s@, from as int, to as int, fields@, parts),
            to <= s.len(),
            spec_attributes(rest.take(k - 1)) == Some(attributes_view(attributes@)),
        decreases fields@.len() - k,
    {
        let span = fields[k];
        proof {
            assert(rest.take(k as int).drop_last() =~= rest.take(k - 1));
            assert(rest.take(k as int).last() == parts[k as int]);
            assert(s@.subrange(span.start as int, span.end as int) == parts[k as int]);
        }
        match parse_attribute(s, span.start, span.end) {
            Some(a) => {
                let ghost held = attributes_view(attributes@);
                attributes.push(a);
                assert(attributes_view(attributes@) =~= held.push(a@));
            },
            None => {
                proof {
                    lemma_attributes_fail(rest, k as int);
                }
                return None;
            },
        }
        k += 1;
    }
    assert(rest.take(k - 1) =~= rest);
    let first = fields[0];
    assert(s@.subrange(first.start as int, first.end as int) == parts[0]);
    let name = copy_range(s, first.start, first.end);
    Some(FrameAttrs { name, attributes })
}

proof fn lemma_attributes_fail(fields: Seq<Seq<u8>>, j: int)
    requires
        0 <= j <= fields.len(),
        spec_attributes(fields.take(j)) is None,
    ensures
        spec_attributes(fields) is None,
    decreases fields.len() - j,
{
    if j == fields.len() {
        assert(fields.take(j) =~= fields);
    } else {
        assert(fields.take(j + 1).drop_last() =~= fields.take(j));
        lemma_attributes_fail(fields, j + 1);
    }
}

proof fn lemma_loaded_stays(lines: Seq<Seq<u8>>, j: int)
    requires
        0 <= j <= lines.len(),
        loaded(lines.take(j)) is Err,
    ensures
        loaded(lines) == loaded(lines.take(j)),
    decreases lines.len() - j,
{
    if j == lines.len() {
        assert(lines.take(j) =~= lines);
    } else {
        assert(lines.take(j + 1).drop_last() =~= lines.take(j));
        lemma_loaded_stays(lines, j + 1);
    }
}

impl FuncFrameAttrsMap {
    /// No attributes for any function.
    pub fn new() -> (m: FuncFrameAttrsMap)
        ensures
            m@ == Seq::<FrameAttrsView>::empty(),
    {
        let m = FuncFrameAttrsMap { entries: Vec::new() };
        assert(m@ =~= Seq::<FrameAttrsView>::empty());
        m
    }

    /// Reads the attributes from text. Every line that is not empty must
    /// write a name and its attributes.
    pub fn load(text: &[u8]) -> (r: Result<FuncFrameAttrsMap, AttrsError>)
        ensures
            match r {
                Ok(m) => spec_load(text@) == Ok::<Seq<FrameAttrsView>, int>(m@),
                Err(e) => spec_load(text@) == Err::<Seq<FrameAttrsView>, int>(e.line as int),
            },
    {
        assert(text@.subrange(0, text@.len() as int) =~= text@);
        let spans = split_spans(text, 0, text.len(), 0x0a);
        let ghost lines = split_on(text@, 0x0a);
        let mut map = FuncFrameAttrsMap::new();
        let mut k: usize = 0;
        assert(lines.take(0) =~= Seq::<Seq<u8>>::empty());
        while k < spans.len()
            invariant
                k <= spans@.len(),
                lines == split_on(text@, 0x0a),
                spans_hold(text@, 0, text@.len() as int, spans@, lines),
                loaded(lines.take(k as int)) == Ok::<Seq<FrameAttrsView>, int>(map@),
            decreases spans@.len() - k,
        {
            let span = spans[k];
            proof {
                assert(lines.take(k + 1).drop_last() =~= lines.take(k as int));
                assert(lines.take(k + 1).last() == lines[k as int]);
                assert(text@.subrange(span.start as int, span.end as int) == lines[k as int]);
            }
            if span.end > span.start {
                match parse_entry(text, span.start, span.end) {
                    Some(e) => {
                        let ghost held = map@;
                        map.entries.push(e);
                        assert(map@ =~= held.push(e@));
                    },
                    None => {
                        proof {
                            lemma_loaded_stays(lines, k + 1);
                        }
                        return Err(AttrsError { line: k + 1 });
                    },
                }
            }
            k += 1;
        }
        assert(lines.take(k as int) =~= lines);
        Ok(map)
    }

    /// The place of the first entry with the name `name`, if there is one.
    pub fn find(&self, name: &[u8]) -> (r: Option<usize>)
        ensures
            match r {
                Some(i) => i < self@.len() && self@[i as int].name == name@ && attributes_for(
                    self@,
                    name@,
                ) == self@[i as int].attributes,
                None => attributes_for(self@, name@) == Seq::<AttributeView>::empty(),
            },
    {
        let ghost all = self@;
        let mut i: usize = 0;
        assert(all.skip(0) =~= all);
        while i < self.entries.len()
            invariant
                i <= self.entries@.len(),
                all == self@,
                attributes_for(all, name@) == attributes_for(all.skip(i as int), name@),
            decreases self.entries@.len() - i,
        {
            assert(all.skip(i as int)[0] == all[i as int]);
            assert(all.skip(i as int).drop_first() =~= all.skip(i + 1));
            if bytes_equal(self.entries[i].name.as_slice(), name) {
                return Some(i);
            }
            i += 1;
        }
        None
    }
}

} // verus!
