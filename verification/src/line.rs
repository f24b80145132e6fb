//! One line of collapsed stack samples: a call stack, a sample count and, for a
//! differential profile, a second count.

use crate::text::{
    byte_is_space, bytes_lt, compare_bytes, copy_range, is_space, lemma_bytes_lt_asymmetric,
    lemma_bytes_lt_irreflexive, lemma_bytes_lt_total, lemma_bytes_lt_transitive, parse_u64,
    spec_parse_u64, split_on, Rank,
};
use vstd::prelude::*;
use vstd::slice::slice_subrange;
use vstd::string::StringSliceAdditionalSpecFns;

verus! {

/// Where a frame comes from, as the tag at the end of its label tells.
#[derive(Clone, Copy, Debug, PartialEq, Eq, Structural)]
pub enum Annotation {
    Plain,
    Kernel,
    Inlined,
    Jit,
    Waker,
}

impl Annotation {
    /// The place of the annotation among frames of one name.
    pub open spec fn rank(self) -> nat {
        match self {
            Annotation::Plain => 0,
            Annotation::Kernel => 1,
            Annotation::Inlined => 2,
            Annotation::Jit => 3,
            Annotation::Waker => 4,
        }
    }

    pub fn index(self) -> (r: u8)
        ensures
            r == self.rank(),
    {
        match self {
            Annotation::Plain => 0,
            Annotation::Kernel => 1,
            Annotation::Inlined => 2,
            Annotation::Jit => 3,
            Annotation::Waker => 4,
        }
    }

    /// The letter that stands for the annotation inside the tag of a label.
    pub open spec fn letter(self) -> u8 {
        match self {
            Annotation::Plain => 0x20,
            Annotation::Kernel => 0x6b,
            Annotation::Inlined => 0x69,
            Annotation::Jit => 0x6a,
            Annotation::Waker => 0x77,
        }
    }
}

/// A frame as the call tree tells frames apart: its name without the tag, and
/// the annotation that the tag gave.
pub struct FrameKey {
    pub name: Seq<u8>,
    pub annotation: Annotation,
}

/// One frame of a call stack.
pub struct Frame {
    pub name: Vec<u8>,
    pub annotation: Annotation,
}

impl View for Frame {
    type V = FrameKey;

    open spec fn view(&self) -> FrameKey {
        FrameKey { name: self.name@, annotation: self.annotation }
    }
}

/// Order of the frames below one parent: alphabetical by name, then by annotation.
pub open spec fn key_lt(a: FrameKey, b: FrameKey) -> bool {
    bytes_lt(a.name, b.name) || (a.name == b.name && a.annotation.rank() < b.annotation.rank())
}

pub open spec fn key_rank(a: FrameKey, b: FrameKey) -> Rank {
    if key_lt(a, b) {
        Rank::Before
    } else if a == b {
        Rank::Same
    } else {
        Rank::After
    }
}

pub proof fn lemma_key_lt_asymmetric(a: FrameKey, b: FrameKey)
    requires
        key_lt(a, b),
    ensures
        !key_lt(b, a),
        a != b,
{
    if bytes_lt(a.name, b.name) {
        lemma_bytes_lt_asymmetric(a.name, b.name);
    } else {
        lemma_bytes_lt_irreflexive(a.name);
    }
}

pub proof fn lemma_key_lt_transitive(a: FrameKey, b: FrameKey, c: FrameKey)
    requires
        key_lt(a, b),
        key_lt(b, c),
    ensures
        key_lt(a, c),
{
    if bytes_lt(a.name, b.name) && bytes_lt(b.name, c.name) {
        lemma_bytes_lt_transitive(a.name, b.name, c.name);
    }
}

/// Of two different frames one comes before the other.
pub proof fn lemma_key_lt_total(a: FrameKey, b: FrameKey)
    ensures
        key_lt(a, b) || a == b || key_lt(b, a),
{
    lemma_bytes_lt_total(a.name, b.name);
    if a.name == b.name && a.annotation.rank() == b.annotation.rank() {
        assert(a.annotation == b.annotation);
    }
}

/// Compares two frames in the order of `key_lt`.
pub fn compare_frames(a_name: &[u8], a_tag: Annotation, b_name: &[u8], b_tag: Annotation) -> (r:
    Rank)
    ensures
        r == key_rank(
            FrameKey { name: a_name@, annotation: a_tag },
            FrameKey { name: b_name@, annotation: b_tag },
        ),
{
    let ghost a = FrameKey { name: a_name@, annotation: a_tag };
    let ghost b = FrameKey { name: b_name@, annotation: b_tag };
    match compare_bytes(a_name, b_name) {
        Rank::Before => Rank::Before,
        Rank::After => {
            proof {
                lemma_bytes_lt_irreflexive(a_name@);
            }
            Rank::After
        },
        Rank::Same => {
            proof {
                lemma_bytes_lt_irreflexive(a_name@);
            }
            let x = a_tag.index();
            let y = b_tag.index();
            if x < y {
                Rank::Before
            } else if x == y {
                assert(a_tag == b_tag);
                assert(a == b);
                Rank::Same
            } else {
                Rank::After
            }
        },
    }
}

/// A parsed line: the stack from the outermost frame inwards, the sample
/// count, and for a differential profile the second count less the first.
pub struct StackLine {
    pub frames: Vec<Frame>,
    pub count: u64,
    pub delta: Option<i64>,
}

pub struct LineView {
    pub frames: Seq<FrameKey>,
    pub count: nat,
    pub delta: Option<int>,
}

pub open spec fn frames_view(frames: Seq<Frame>) -> Seq<FrameKey> {
    Seq::new(frames.len(), |i: int| frames[i]@)
}

impl View for StackLine {
    type V = LineView;

    open spec fn view(&self) -> LineView {
        LineView {
            frames: frames_view(self.frames@),
            count: self.count as nat,
            delta: match self.delta {
                Some(d) => Some(d as int),
                None => None,
            },
        }
    }
}

impl LineView {
    /// The second count of a differential line; the count itself otherwise.
    pub open spec fn secondary(self) -> int {
        match self.delta {
            Some(d) => self.count + d,
            None => self.count as int,
        }
    }

    /// What the call tree accepts: a stack, a positive count that fits in 64
    /// bits, and a second count that is not negative and fits as well.
    pub open spec fn valid(self) -> bool {
        &&& self.frames.len() > 0
        &&& 0 < self.count <= u64::MAX
        &&& 0 <= self.secondary() <= u64::MAX
    }
}

/// Why a line is no sample line.
#[derive(Clone, Copy, Debug, PartialEq, Eq, Structural)]
pub enum LineError {
    /// The line holds a single word, and it is no number.
    MissingCount,
    /// The last word is no decimal number of 64 bits, or the two counts lie
    /// too far apart for their difference to be told.
    InvalidCount,
    /// The line holds a count and no stack before it.
    EmptyStack,
    /// The count is zero.
    ZeroCount,
}

impl LineError {
    /// What the error says, in words.
    pub open spec fn spec_message(self) -> Seq<u8> {
        match self {
            LineError::MissingCount => "the line has no count".spec_bytes(),
            LineError::InvalidCount => "the count is not a number in range".spec_bytes(),
            LineError::EmptyStack => "the line has no stack".spec_bytes(),
            LineError::ZeroCount => "the count is zero".spec_bytes(),
        }
    }

    /// What the error says, in words.
    pub fn message(self) -> (s: &'static str)
        ensures
            s.spec_bytes() == self.spec_message(),
    {
        match self {
            LineError::MissingCount => "the line has no count",
            LineError::InvalidCount => "the count is not a number in range",
            LineError::EmptyStack => "the line has no stack",
            LineError::ZeroCount => "the count is zero",
        }
    }
}

/// `s` without the white space at its end.
pub open spec fn trim_end(s: Seq<u8>) -> Seq<u8>
    decreases s.len(),
{
    if s.len() > 0 && is_space(s.last()) {
        trim_end(s.drop_last())
    } else {
        s
    }
}

/// `s` without the white space at its start.
pub open spec fn trim_start(s: Seq<u8>) -> Seq<u8>
    decreases s.len(),
{
    if s.len() > 0 && is_space(s.first()) {
        trim_start(s.drop_first())
    } else {
        s
    }
}

pub open spec fn trim(s: Seq<u8>) -> Seq<u8> {
    trim_end(trim_start(s))
}

/// The last word of `s`: its longest ending without white space.
pub open spec fn last_word(s: Seq<u8>) -> Seq<u8>
    decreases s.len(),
{
    if s.len() > 0 && !is_space(s.last()) {
        last_word(s.drop_last()).push(s.last())
    } else {
        Seq::empty()
    }
}

/// What stands before the last word of `s`, without the white space between the two.
pub open spec fn before_last_word(s: Seq<u8>) -> Seq<u8> {
    trim_end(s.take(s.len() - last_word(s).len()))
}

/// The tag that ends a label: `_[k]`, `_[i]`, `_[j]` or `_[w]`.
pub open spec fn label_tag(s: Seq<u8>) -> Annotation {
    let n = s.len() as int;
    if n >= 4 && s[n - 4] == 0x5f && s[n - 3] == 0x5b && s[n - 1] == 0x5d {
        if s[n - 2] == 0x6b {
            Annotation::Kernel
        } else if s[n - 2] == 0x69 {
            Annotation::Inlined
        } else if s[n - 2] == 0x6a {
            Annotation::Jit
        } else if s[n - 2] == 0x77 {
            Annotation::Waker
        } else {
            Annotation::Plain
        }
    } else {
        Annotation::Plain
    }
}

/// The frame that a label names: the tag, where there is one, is taken off the name.
pub open spec fn spec_frame(label: Seq<u8>) -> FrameKey {
    let tag = label_tag(label);
    FrameKey {
        name: if tag == Annotation::Plain {
            label
        } else {
            label.take(label.len() - 4)
        },
        annotation: tag,
    }
}

/// The labels of a stack: the text between its semicolons.
pub open spec fn split_labels(s: Seq<u8>) -> Seq<Seq<u8>> {
    split_on(s, 0x3b)
}

pub open spec fn frames_of(stack: Seq<u8>) -> Seq<FrameKey> {
    let labels = split_labels(stack);
    Seq::new(labels.len(), |i: int| spec_frame(labels[i]))
}

/// The line with the stack `stack` and the counts `count` and, if any, `second`.
pub open spec fn spec_sample(stack: Seq<u8>, count: u64, second: Option<u64>) -> Result<
    Option<LineView>,
    LineError,
> {
    if count == 0 {
        Err(LineError::ZeroCount)
    } else {
        match second {
            None => Ok(Some(LineView { frames: frames_of(stack), count: count as nat, delta: None })),
            Some(m) => if i64::MIN <= m - count <= i64::MAX {
                Ok(
                    Some(
                        LineView {
                            frames: frames_of(stack),
                            count: count as nat,
                            delta: Some(m - count),
                        },
                    ),
                )
            } else {
                Err(LineError::InvalidCount)
            },
        }
    }
}

/// What a line of text means: nothing if it is blank; else a stack and one
/// count, or a stack and two counts where the word before the last is a
/// number too and a stack is left before it.
pub open spec fn spec_parse_line(s: Seq<u8>) -> Result<Option<LineView>, LineError> {
    let t = trim(s);
    if t.len() == 0 {
        Ok(None)
    } else {
        let rest = before_last_word(t);
        match spec_parse_u64(last_word(t)) {
            None => Err(
                if rest.len() == 0 {
                    LineError::MissingCount
                } else {
                    LineError::InvalidCount
                },
            ),
            Some(n) => if rest.len() == 0 {
                Err(LineError::EmptyStack)
            } else {
                let stack = before_last_word(rest);
                match spec_parse_u64(last_word(rest)) {
                    Some(m) if stack.len() > 0 => spec_sample(stack, m, Some(n)),
                    _ => spec_sample(rest, n, None),
                }
            },
        }
    }
}

/// The model of what `parse_line` returns.
pub open spec fn parsed_view(r: Result<Option<StackLine>, LineError>) -> Result<
    Option<LineView>,
    LineError,
> {
    match r {
        Ok(Some(l)) => Ok(Some(l@)),
        Ok(None) => Ok(None),
        Err(e) => Err(e),
    }
}

/// The start of `s[from..to]` once the white space at its start is gone.
pub fn trim_start_index(s: &[u8], from: usize, to: usize) -> (b: usize)
    requires
        from <= to <= s.len(),
    ensures
        from <= b <= to,
        s@.subrange(b as int, to as int) == trim_start(s@.subrange(from as int, to as int)),
{
    let mut b = from;
    while b < to && byte_is_space(s[b])
        invariant
            from <= b <= to,
            to <= s.len(),
            trim_start(s@.subrange(b as int, to as int)) == trim_start(
                s@.subrange(from as int, to as int),
            ),
        decreases to - b,
    {
        assert(s@.subrange(b as int, to as int).drop_first() =~= s@.subrange(b + 1, to as int));
        b += 1;
    }
    b
}

/// The end of `s[from..to]` once the white space at its end is gone.
pub fn trim_end_index(s: &[u8], from: usize, to: usize) -> (e: usize)
    requires
        from <= to <= s.len(),
    ensures
        from <= e <= to,
        s@.subrange(from as int, e as int) == trim_end(s@.subrange(from as int, to as int)),
{
    let mut e = to;
    while e > from && byte_is_space(s[e - 1])
        invariant
            from <= e <= to,
            to <= s.len(),
            trim_end(s@.subrange(from as int, e as int)) == trim_end(
                s@.subrange(from as int, to as int),
            ),
        decreases e,
    {
        assert(s@.subrange(from as int, e as int).drop_last() =~= s@.subrange(from as int, e - 1));
        e -= 1;
    }
    e
}

/// The start of the last word of `s[from..to]`.
pub fn word_start(s: &[u8], from: usize, to: usize) -> (w: usize)
    requires
        from <= to <= s.len(),
    ensures
        from <= w <= to,
        s@.subrange(w as int, to as int) == last_word(s@.subrange(from as int, to as int)),
{
    let mut w = to;
    while w > from && !byte_is_space(s[w - 1])
        invariant
            from <= w <= to,
            to <= s.len(),
            last_word(s@.subrange(from as int, to as int)) == last_word(
                s@.subrange(from as int, w as int),
            ) + s@.subrange(w as int, to as int),
        decreases w,
    {
        let ghost head = s@.subrange(from as int, w as int);
        assert(head.drop_last() =~= s@.subrange(from as int, w - 1));
        assert(last_word(head.drop_last()).push(head.last()) + s@.subrange(w as int, to as int)
            =~= last_word(head.drop_last()) + s@.subrange(w - 1, to as int));
        w -= 1;
    }
    assert(Seq::<u8>::empty() + s@.subrange(w as int, to as int) =~= s@.subrange(
        w as int,
        to as int,
    ));
    w
}

/// Reads the label `s[from..to]`.
pub fn parse_frame(s: &[u8], from: usize, to: usize) -> (f: Frame)
    requires
        from <= to <= s.len(),
    ensures
        f@ == spec_frame(s@.subrange(from as int, to as int)),
{
    let ghost label = s@.subrange(from as int, to as int);
    let mut tag = Annotation::Plain;
    if to - from >= 4 && s[to - 4] == 0x5f && s[to - 3] == 0x5b && s[to - 1] == 0x5d {
        let c = s[to - 2];
        if c == 0x6b {
            tag = Annotation::Kernel;
        } else if c == 0x69 {
            tag = Annotation::Inlined;
        } else if c == 0x6a {
            tag = Annotation::Jit;
        } else if c == 0x77 {
            tag = Annotation::Waker;
        }
    }
    assert(tag == label_tag(label));
    let end = match tag {
        Annotation::Plain => to,
        _ => to - 4,
    };
    let name = copy_range(s, from, end);
    assert(name@ =~= spec_frame(label).name);
    Frame { name, annotation: tag }
}

/// Reads the stack `s[from..to]`, one frame for each label between semicolons.
pub fn parse_frames(s: &[u8], from: usize, to: usize) -> (frames: Vec<Frame>)
    requires
        from <= to <= s.len(),
    ensures
        frames_view(frames@) == frames_of(s@.subrange(from as int, to as int)),
        frames@.len() > 0,
{
    let mut frames: Vec<Frame> = Vec::new();
    let mut start = from;
    let mut i = from;
    let ghost mut done: Seq<Seq<u8>> = Seq::empty();
    proof {
        assert(s@.subrange(from as int, from as int) =~= Seq::<u8>::empty());
        assert(seq![Seq::<u8>::empty()] =~= done.push(Seq::<u8>::empty()));
    }
    while i < to
        invariant
            from <= start <= i <= to,
            to <= s.len(),
            split_labels(s@.subrange(from as int, i as int)) == done.push(
                s@.subrange(start as int, i as int),
            ),
            frames@.len() == done.len(),
            forall|k: int| 0 <= k < done.len() ==> (#[trigger] frames@[k])@ == spec_frame(done[k]),
        decreases to - i,
    {
        let ghost before = s@.subrange(from as int, i as int);
        let ghost after = s@.subrange(from as int, i + 1);
        assert(after.drop_last() =~= before);
        if s[i] == 0x3b {
            let f = parse_frame(s, start, i);
            frames.push(f);
            proof {
                done = done.push(s@.subrange(start as int, i as int));
                assert(s@.subrange(i + 1, i + 1) =~= Seq::<u8>::empty());
            }
            start = i + 1;
        } else {
            proof {
                let parts = split_labels(before);
                assert(parts.drop_last() =~= done);
                assert(parts.last().push(s@[i as int]) =~= s@.subrange(start as int, i + 1));
            }
        }
        i += 1;
    }
    let f = parse_frame(s, start, to);
    frames.push(f);
    proof {
        let labels = split_labels(s@.subrange(from as int, to as int));
        assert(labels == done.push(s@.subrange(start as int, to as int)));
        assert(frames_view(frames@) =~= frames_of(s@.subrange(from as int, to as int)));
    }
    frames
}

/// Puts the stack `s[from..to]` and its counts together, as `spec_sample` says.
fn make_sample(s: &[u8], from: usize, to: usize, count: u64, second: Option<u64>) -> (r: Result<
    Option<StackLine>,
    LineError,
>)
    requires
        from <= to <= s.len(),
    ensures
        parsed_view(r) == spec_sample(s@.subrange(from as int, to as int), count, second),
{
    if count == 0 {
        return Err(LineError::ZeroCount);
    }
    let delta: Option<i64> = match second {
        None => None,
        Some(m) => {
            if m >= count {
                if m - count > 0x7fff_ffff_ffff_ffff {
                    return Err(LineError::InvalidCount);
                }
                Some((m - count) as i64)
            } else {
                if count - m > 0x8000_0000_0000_0000 {
                    return Err(LineError::InvalidCount);
                }
                if count - m == 0x8000_0000_0000_0000 {
                    Some(i64::MIN)
                } else {
                    Some(-((count - m) as i64))
                }
            }
        },
    };
    let frames = parse_frames(s, from, to);
    Ok(Some(StackLine { frames, count, delta }))
}

/// Reads one line of collapsed stack samples.
///
/// A blank line gives `Ok(None)`. Otherwise the line is a stack and, after
/// white space, one count or two; a stack is labels between semicolons.
pub fn parse_line(s: &[u8]) -> (r: Result<Option<StackLine>, LineError>)
    ensures
        parsed_view(r) == spec_parse_line(s@),
        r matches Ok(Some(l)) ==> l@.valid(),
{
    let n = s.len();
    assert(s@.subrange(0, n as int) =~= s@);
    let b = trim_start_index(s, 0, n);
    let e = trim_end_index(s, b, n);
    let ghost t = s@.subrange(b as int, e as int);
    assert(t == trim(s@));
    if b == e {
        return Ok(None);
    }
    let w1 = word_start(s, b, e);
    let e1 = trim_end_index(s, b, w1);
    let ghost rest = s@.subrange(b as int, e1 as int);
    proof {
        assert(s@.subrange(w1 as int, e as int).len() == e - w1);
        assert(t.take(t.len() - last_word(t).len()) =~= s@.subrange(b as int, w1 as int));
        assert(rest == before_last_word(t));
    }
    let first = parse_u64(slice_subrange(s, w1, e));
    match first {
        None => {
            if e1 == b {
                Err(LineError::MissingCount)
            } else {
                Err(LineError::InvalidCount)
            }
        },
        Some(n1) => {
            if e1 == b {
                return Err(LineError::EmptyStack);
            }
            let w2 = word_start(s, b, e1);
            let e2 = trim_end_index(s, b, w2);
            proof {
                assert(s@.subrange(w2 as int, e1 as int).len() == e1 - w2);
                assert(rest.take(rest.len() - last_word(rest).len()) =~= s@.subrange(
                    b as int,
                    w2 as int,
                ));
                assert(s@.subrange(b as int, e2 as int) == before_last_word(rest));
            }
            let second = parse_u64(slice_subrange(s, w2, e1));
            let r = match second {
                Some(n2) => {
                    if e2 > b {
                        make_sample(s, b, e2, n2, Some(n1))
                    } else {
                        make_sample(s, b, e1, n1, None)
                    }
                },
                None => make_sample(s, b, e1, n1, None),
            };
            r
        },
    }
}

} // verus!
