//! Bytes as text: white space, alphabetical order, and numbers in decimal and
//! hexadecimal notation.

use vstd::prelude::*;

verus! {

/// The ASCII white space characters: space, tab, line feed, form feed, carriage return.
pub open spec fn is_space(b: u8) -> bool {
    b == 0x20 || b == 0x09 || b == 0x0a || b == 0x0c || b == 0x0d
}

pub open spec fn is_digit(b: u8) -> bool {
    0x30 <= b <= 0x39
}

pub fn byte_is_space(b: u8) -> (r: bool)
    ensures
        r == is_space(b),
{
    b == 0x20 || b == 0x09 || b == 0x0a || b == 0x0c || b == 0x0d
}

pub fn byte_is_digit(b: u8) -> (r: bool)
    ensures
        r == is_digit(b),
{
    0x30 <= b && b <= 0x39
}

/// `a` and `b` agree on their first `i` bytes, and there `a` ends while `b`
/// goes on, or `a` has the smaller byte.
pub open spec fn precedes_at(a: Seq<u8>, b: Seq<u8>, i: int) -> bool {
    &&& 0 <= i <= a.len()
    &&& i < b.len()
    &&& forall|j: int| 0 <= j < i ==> a[j] == b[j]
    &&& i < a.len() ==> a[i] < b[i]
}

/// Strict alphabetical order of byte strings: byte by byte, a proper prefix first.
pub open spec fn bytes_lt(a: Seq<u8>, b: Seq<u8>) -> bool {
    exists|i: int| #[trigger] precedes_at(a, b, i)
}

/// How one value stands to another in a strict total order.
#[derive(Clone, Copy, Debug, PartialEq, Eq, Structural)]
pub enum Rank {
    Before,
    Same,
    After,
}

pub open spec fn bytes_rank(a: Seq<u8>, b: Seq<u8>) -> Rank {
    if bytes_lt(a, b) {
        Rank::Before
    } else if a == b {
        Rank::Same
    } else {
        Rank::After
    }
}

pub proof fn lemma_bytes_lt_irreflexive(a: Seq<u8>)
    ensures
        !bytes_lt(a, a),
{
}

pub proof fn lemma_bytes_lt_asymmetric(a: Seq<u8>, b: Seq<u8>)
    requires
        bytes_lt(a, b),
    ensures
        !bytes_lt(b, a),
        a != b,
{
    let i = choose|i: int| #[trigger] precedes_at(a, b, i);
    if bytes_lt(b, a) {
        let k = choose|k: int| #[trigger] precedes_at(b, a, k);
        if k < i {
            assert(a[k] == b[k]);
        } else if i < k {
            assert(b[i] == a[i]);
        }
    }
}

pub proof fn lemma_bytes_lt_transitive(a: Seq<u8>, b: Seq<u8>, c: Seq<u8>)
    requires
        bytes_lt(a, b),
        bytes_lt(b, c),
    ensures
        bytes_lt(a, c),
{
    let i = choose|i: int| #[trigger] precedes_at(a, b, i);
    let k = choose|k: int| #[trigger] precedes_at(b, c, k);
    if i <= k {
        assert(precedes_at(a, c, i));
    } else {
        assert(precedes_at(a, c, k));
    }
}

/// Of two different byte strings one comes before the other.
pub proof fn lemma_bytes_lt_total(a: Seq<u8>, b: Seq<u8>)
    ensures
        bytes_lt(a, b) || a == b || bytes_lt(b, a),
    decreases a.len() + b.len(),
{
    if a.len() == 0 {
        if b.len() > 0 {
            assert(precedes_at(a, b, 0));
        } else {
            assert(a =~= b);
        }
    } else if b.len() == 0 {
        assert(precedes_at(b, a, 0));
    } else {
        let a1 = a.drop_last();
        let b1 = b.drop_last();
        lemma_bytes_lt_total(a1, b);
        lemma_bytes_lt_total(a, b1);
        lemma_bytes_lt_total(a1, b1);
        if bytes_lt(a1, b1) {
            let i = choose|i: int| #[trigger] precedes_at(a1, b1, i);
            if i < a1.len() {
                assert(precedes_at(a, b, i));
            } else if a[i] < b[i] {
                assert(precedes_at(a, b, i));
            } else if a[i] > b[i] {
                assert(precedes_at(b, a, i));
            } else if a.len() < b.len() {
                assert(precedes_at(a, b, a.len() as int));
            } else {
                assert(false);
            }
        } else if bytes_lt(b1, a1) {
            let i = choose|i: int| #[trigger] precedes_at(b1, a1, i);
            if i < b1.len() {
                assert(precedes_at(b, a, i));
            } else if b[i] < a[i] {
                assert(precedes_at(b, a, i));
            } else if b[i] > a[i] {
                assert(precedes_at(a, b, i));
            } else if b.len() < a.len() {
                assert(precedes_at(b, a, b.len() as int));
            } else {
                assert(false);
            }
        } else {
            assert(a1 == b1);
            let n = a1.len() as int;
            if a[n] < b[n] {
                assert(precedes_at(a, b, n));
            } else if b[n] < a[n] {
                assert(precedes_at(b, a, n));
            } else {
                assert(a =~= b);
            }
        }
    }
}

/// Compares two byte strings alphabetically.
pub fn compare_bytes(a: &[u8], b: &[u8]) -> (r: Rank)
    ensures
        r == bytes_rank(a@, b@),
{
    let mut i: usize = 0;
    while i < a.len() && i < b.len() && a[i] == b[i]
        invariant
            i <= a.len(),
            i <= b.len(),
            forall|j: int| 0 <= j < i ==> a@[j] == b@[j],
        decreases a.len() - i,
    {
        i += 1;
    }
    if i == a.len() {
        if i == b.len() {
            assert(a@ =~= b@);
            proof {
                lemma_bytes_lt_irreflexive(a@);
            }
            Rank::Same
        } else {
            assert(precedes_at(a@, b@, i as int));
            Rank::Before
        }
    } else if i == b.len() {
        assert(precedes_at(b@, a@, i as int));
        proof {
            lemma_bytes_lt_asymmetric(b@, a@);
        }
        Rank::After
    } else if a[i] < b[i] {
        assert(precedes_at(a@, b@, i as int));
        Rank::Before
    } else {
        assert(precedes_at(b@, a@, i as int));
        proof {
            lemma_bytes_lt_asymmetric(b@, a@);
        }
        Rank::After
    }
}

/// Whether two byte strings are the same.
pub fn bytes_equal(a: &[u8], b: &[u8]) -> (r: bool)
    ensures
        r == (a@ == b@),
{
    if a.len() != b.len() {
        return false;
    }
    let mut i: usize = 0;
    while i < a.len()
        invariant
            i <= a.len(),
            a.len() == b.len(),
            forall|j: int| 0 <= j < i ==> a@[j] == b@[j],
        decreases a.len() - i,
    {
        if a[i] != b[i] {
            return false;
        }
        i += 1;
    }
    assert(a@ =~= b@);
    true
}

/// A copy of the bytes from `start` up to `end`.
pub fn copy_range(s: &[u8], start: usize, end: usize) -> (r: Vec<u8>)
    requires
        start <= end <= s.len(),
    ensures
        r@ == s@.subrange(start as int, end as int),
{
    let mut r: Vec<u8> = Vec::new();
    let mut i: usize = start;
    while i < end
        invariant
            start <= i <= end,
            end <= s.len(),
            r@ == s@.subrange(start as int, i as int),
        decreases end - i,
    {
        r.push(s[i]);
        assert(s@.subrange(start as int, i as int).push(s@[i as int]) =~= s@.subrange(
            start as int,
            i + 1,
        ));
        i += 1;
    }
    r
}

/// Appends `s` to `out`.
pub fn push_all(out: &mut Vec<u8>, s: &[u8])
    ensures
        final(out)@ == old(out)@ + s@,
{
    let mut i: usize = 0;
    while i < s.len()
        invariant
            i <= s.len(),
            out@ == old(out)@ + s@.take(i as int),
        decreases s.len() - i,
    {
        out.push(s[i]);
        assert(s@.take(i as int).push(s@[i as int]) =~= s@.take(i + 1));
        assert(out@ =~= old(out)@ + s@.take(i + 1));
        i += 1;
    }
    assert(s@.take(s.len() as int) =~= s@);
}

/// The number that a string of decimal digits writes.
pub open spec fn decimal_value(s: Seq<u8>) -> nat
    decreases s.len(),
{
    if s.len() == 0 {
        0
    } else {
        decimal_value(s.drop_last()) * 10 + (s.last() - 0x30) as nat
    }
}

/// One or more decimal digits and nothing else.
pub open spec fn is_decimal(s: Seq<u8>) -> bool {
    s.len() > 0 && forall|i: int| 0 <= i < s.len() ==> is_digit(#[trigger] s[i])
}

/// What `parse_u64` makes of a token.
pub open spec fn spec_parse_u64(s: Seq<u8>) -> Option<u64> {
    if is_decimal(s) && decimal_value(s) <= u64::MAX {
        Some(decimal_value(s) as u64)
    } else {
        None
    }
}

proof fn lemma_decimal_value_grows(s: Seq<u8>, i: int)
    requires
        0 <= i <= s.len(),
        forall|j: int| 0 <= j < s.len() ==> is_digit(#[trigger] s[j]),
    ensures
        decimal_value(s.take(i)) <= decimal_value(s),
    decreases s.len() - i,
{
    if i == s.len() {
        assert(s.take(i) =~= s);
    } else {
        lemma_decimal_value_grows(s, i + 1);
        assert(s.take(i + 1).drop_last() =~= s.take(i));
    }
}

/// Reads a non-negative decimal number that fits in 64 bits.
pub fn parse_u64(s: &[u8]) -> (r: Option<u64>)
    ensures
        r == spec_parse_u64(s@),
{
    if s.len() == 0 {
        return None;
    }
    let mut value: u64 = 0;
    let mut i: usize = 0;
    while i < s.len()
        invariant
            i <= s.len(),
            forall|j: int| 0 <= j < i ==> is_digit(#[trigger] s@[j]),
            value == decimal_value(s@.take(i as int)),
        decreases s.len() - i,
    {
        let b = s[i];
        if !byte_is_digit(b) {
            return None;
        }
        let digit: u64 = (b - 0x30) as u64;
        proof {
            assert(s@.take(i + 1).drop_last() =~= s@.take(i as int));
        }
        if value > (u64::MAX - digit) / 10 {
            proof {
                if is_decimal(s@) {
                    lemma_decimal_value_grows(s@, i + 1);
                }
            }
            return None;
        }
        value = value * 10 + digit;
        i += 1;
    }
    assert(s@.take(i as int) =~= s@);
    Some(value)
}

/// The decimal digits of a number, without leading zeros.
pub open spec fn decimal_digits(n: nat) -> Seq<u8>
    decreases n,
{
    if n < 10 {
        seq![(0x30 + n) as u8]
    } else {
        decimal_digits(n / 10).push((0x30 + n % 10) as u8)
    }
}

/// Reading the digits of a number gives the number back.
pub proof fn lemma_decimal_round_trip(n: nat)
    ensures
        is_decimal(decimal_digits(n)),
        decimal_value(decimal_digits(n)) == n,
    decreases n,
{
    if n < 10 {
        let s = decimal_digits(n);
        assert(s.drop_last() =~= Seq::<u8>::empty());
        assert(decimal_value(s.drop_last()) == 0);
    } else {
        lemma_decimal_round_trip(n / 10);
        let s = decimal_digits(n);
        assert(s.drop_last() =~= decimal_digits(n / 10));
    }
}

/// Appends the decimal digits of `n` to `out`.
pub fn push_decimal(out: &mut Vec<u8>, n: u128)
    ensures
        final(out)@ == old(out)@ + decimal_digits(n as nat),
    decreases n,
{
    if n >= 10 {
        push_decimal(out, n / 10);
    }
    out.push(0x30 + (n % 10) as u8);
    proof {
        if n < 10 {
            assert(out@ =~= old(out)@ + decimal_digits(n as nat));
        } else {
            assert(out@ =~= old(out)@ + decimal_digits(n as nat));
        }
    }
}


/// The parts of `s` between the bytes `sep`: one part more than there are such bytes.
pub open spec fn split_on(s: Seq<u8>, sep: u8) -> Seq<Seq<u8>>
    decreases s.len(),
{
    if s.len() == 0 {
        seq![Seq::empty()]
    } else if s.last() == sep {
        split_on(s.drop_last(), sep).push(Seq::empty())
    } else {
        let parts = split_on(s.drop_last(), sep);
        parts.drop_last().push(parts.last().push(s.last()))
    }
}

/// There is at least one part, and no part holds the separator.
pub proof fn lemma_split_parts(s: Seq<u8>, sep: u8)
    ensures
        split_on(s, sep).len() >= 1,
        forall|k: int| 0 <= k < split_on(s, sep).len() ==> !(#[trigger] split_on(s, sep)[k]).contains(sep),
    decreases s.len(),
{
    if s.len() > 0 {
        lemma_split_parts(s.drop_last(), sep);
        let parts = split_on(s.drop_last(), sep);
        if s.last() != sep {
            let grown = parts.last().push(s.last());
            assert forall|i: int| 0 <= i < grown.len() implies grown[i] != sep by {
                if i < parts.last().len() {
                    assert(parts.last().contains(parts.last()[i]));
                }
            }
        }
    }
}

/// Text without the separator, put after `a`, goes on the last part of `a`.
pub proof fn lemma_split_append(a: Seq<u8>, b: Seq<u8>, sep: u8)
    requires
        !b.contains(sep),
    ensures
        split_on(a + b, sep) == split_on(a, sep).drop_last().push(split_on(a, sep).last() + b),
    decreases b.len(),
{
    lemma_split_parts(a, sep);
    let parts = split_on(a, sep);
    if b.len() == 0 {
        assert(a + b =~= a);
        assert(parts.last() + b =~= parts.last());
        assert(parts.drop_last().push(parts.last()) =~= parts);
    } else {
        let b1 = b.drop_last();
        assert(b[b.len() - 1] == b.last());
        assert(b.contains(b.last()));
        assert forall|i: int| 0 <= i < b1.len() implies b1[i] != sep by {
            assert(b.contains(b[i]));
        }
        lemma_split_append(a, b1, sep);
        assert((a + b).drop_last() =~= a + b1);
        assert((a + b).last() == b.last());
        let before = split_on(a + b1, sep);
        assert(before.drop_last() =~= parts.drop_last());
        assert((parts.last() + b1).push(b.last()) =~= parts.last() + b);
    }
}

/// Text without the separator is one part.
pub proof fn lemma_split_plain(b: Seq<u8>, sep: u8)
    requires
        !b.contains(sep),
    ensures
        split_on(b, sep) == seq![b],
{
    let e = Seq::<u8>::empty();
    lemma_split_append(e, b, sep);
    assert(e + b =~= b);
    assert(split_on(e, sep).drop_last().push(split_on(e, sep).last() + b) =~= seq![b]);
}

/// A piece of a text: the bytes from `start` up to `end`.
#[derive(Clone, Copy, Debug, PartialEq, Eq, Structural)]
pub struct Span {
    pub start: usize,
    pub end: usize,
}

/// The spans lie in `s[from..to]` and hold the parts, one each and in order.
pub open spec fn spans_hold(
    s: Seq<u8>,
    from: int,
    to: int,
    spans: Seq<Span>,
    parts: Seq<Seq<u8>>,
) -> bool {
    &&& spans.len() == parts.len()
    &&& forall|k: int|
        0 <= k < spans.len() ==> from <= (#[trigger] spans[k]).start <= spans[k].end <= to
            && s.subrange(spans[k].start as int, spans[k].end as int) == parts[k]
}

/// Where the parts of `s[from..to]` between the bytes `sep` lie.
pub fn split_spans(s: &[u8], from: usize, to: usize, sep: u8) -> (spans: Vec<Span>)
    requires
        from <= to <= s.len(),
    ensures
        spans_hold(s@, from as int, to as int, spans@, split_on(s@.subrange(from as int, to as int), sep)),
        spans@.len() >= 1,
{
    let mut spans: Vec<Span> = Vec::new();
    let mut start = from;
    let mut i = from;
    let ghost mut done: Seq<Seq<u8>> = Seq::empty();
    proof {
        assert(s@.subrange(from as int, from as int) =~= Seq::<u8>::empty());
        assert(seq![Seq::<u8>::empty()] =~= done.push(Seq::<u8>::empty()));
    }
    while i < to
        invariant
            from <= start <= i <= to,
            to <= s.len(),
            split_on(s@.subrange(from as int, i as int), sep) == done.push(
                s@.subrange(start as int, i as int),
            ),
            spans_hold(s@, from as int, start as int, spans@, done),
        decreases to - i,
    {
        let ghost before = s@.subrange(from as int, i as int);
        let ghost after = s@.subrange(from as int, i + 1);
        assert(after.drop_last() =~= before);
        if s[i] == sep {
            spans.push(Span { start, end: i });
            proof {
                done = done.push(s@.subrange(start as int, i as int));
                assert(s@.subrange(i + 1, i + 1) =~= Seq::<u8>::empty());
            }
            start = i + 1;
        } else {
            proof {
                let parts = split_on(before, sep);
                assert(parts.drop_last() =~= done);
                assert(parts.last().push(s@[i as int]) =~= s@.subrange(start as int, i + 1));
            }
        }
        i += 1;
    }
    spans.push(Span { start, end: to });
    spans
}

/// The place of the last byte `b` in `s`, or -1 where `s` has none.
pub open spec fn last_place(s: Seq<u8>, b: u8) -> int
    decreases s.len(),
{
    if s.len() == 0 {
        -1
    } else if s.last() == b {
        s.len() - 1
    } else {
        last_place(s.drop_last(), b)
    }
}

/// The place of the last byte `b` in `s[from..to]`, if there is one.
pub fn find_last(s: &[u8], from: usize, to: usize, b: u8) -> (r: Option<usize>)
    requires
        from <= to <= s.len(),
    ensures
        match r {
            Some(i) => from <= i < to && i - from == last_place(
                s@.subrange(from as int, to as int),
                b,
            ),
            None => last_place(s@.subrange(from as int, to as int), b) == -1,
        },
{
    let mut i = to;
    while i > from
        invariant
            from <= i <= to,
            to <= s.len(),
            last_place(s@.subrange(from as int, to as int), b) == last_place(
                s@.subrange(from as int, i as int),
                b,
            ),
        decreases i,
    {
        assert(s@.subrange(from as int, i as int).drop_last() =~= s@.subrange(from as int, i - 1));
        if s[i - 1] == b {
            return Some(i - 1);
        }
        i -= 1;
    }
    None
}

/// The last `b` of a text that ends in `[b] + tail`, where `tail` holds no `b`.
pub proof fn lemma_last_place_found(head: Seq<u8>, tail: Seq<u8>, b: u8)
    requires
        !tail.contains(b),
    ensures
        last_place(head.push(b) + tail, b) == head.len(),
    decreases tail.len(),
{
    let s = head.push(b) + tail;
    if tail.len() == 0 {
        assert(s =~= head.push(b));
    } else {
        let t1 = tail.drop_last();
        assert(tail[tail.len() - 1] == tail.last());
        assert(tail.contains(tail.last()));
        assert forall|i: int| 0 <= i < t1.len() implies t1[i] != b by {
            assert(tail.contains(tail[i]));
        }
        lemma_last_place_found(head, t1, b);
        assert(s.drop_last() =~= head.push(b) + t1);
    }
}

} // verus!
