//! What a set of sample lines says of a call path: how many samples pass
//! through it, end in it, and lie to its left. These sums are the model that
//! the call tree and the layout are held to; none of them depends on the
//! order of the lines.

use crate::line::{key_lt, FrameKey, LineView};
use vstd::prelude::*;

verus! {

/// `p` is the start of `s`.
pub open spec fn is_prefix(p: Seq<FrameKey>, s: Seq<FrameKey>) -> bool {
    p.len() <= s.len() && s.take(p.len() as int) == p
}

/// The sum of `f` over the lines.
pub open spec fn weigh(lines: Seq<LineView>, f: spec_fn(LineView) -> int) -> int
    decreases lines.len(),
{
    if lines.len() == 0 {
        0
    } else {
        weigh(lines.drop_last(), f) + f(lines.last())
    }
}

/// The count of a line whose stack starts with `p`.
pub open spec fn through(p: Seq<FrameKey>) -> spec_fn(LineView) -> int {
    |l: LineView|
        if is_prefix(p, l.frames) {
            l.count as int
        } else {
            0
        }
}

/// The second count of a line whose stack starts with `p`.
pub open spec fn through_second(p: Seq<FrameKey>) -> spec_fn(LineView) -> int {
    |l: LineView|
        if is_prefix(p, l.frames) {
            l.secondary()
        } else {
            0
        }
}

/// The count of a line whose stack is `p`.
pub open spec fn ending(p: Seq<FrameKey>) -> spec_fn(LineView) -> int {
    |l: LineView|
        if l.frames == p {
            l.count as int
        } else {
            0
        }
}

/// The count of a line whose stack starts with `p` and goes on with a frame before `k`.
pub open spec fn turning_left(p: Seq<FrameKey>, k: FrameKey) -> spec_fn(LineView) -> int {
    |l: LineView|
        if l.frames.len() > p.len() && is_prefix(p, l.frames) && key_lt(
            l.frames[p.len() as int],
            k,
        ) {
            l.count as int
        } else {
            0
        }
}

/// The count of every line.
pub open spec fn every() -> spec_fn(LineView) -> int {
    |l: LineView| l.count as int
}

/// The samples of all lines together.
pub open spec fn sample_sum(lines: Seq<LineView>) -> int {
    weigh(lines, every())
}

/// The aggregate count of the path `p`: the samples of the lines that pass through it.
pub open spec fn total_at(lines: Seq<LineView>, p: Seq<FrameKey>) -> int {
    weigh(lines, through(p))
}

/// The aggregate of the second counts at `p`.
pub open spec fn secondary_at(lines: Seq<LineView>, p: Seq<FrameKey>) -> int {
    weigh(lines, through_second(p))
}

/// The self count of the path `p`: the samples of the lines that end there.
pub open spec fn self_at(lines: Seq<LineView>, p: Seq<FrameKey>) -> int {
    weigh(lines, ending(p))
}

/// The samples below `p` that belong to children before the frame `k`.
pub open spec fn before_at(lines: Seq<LineView>, p: Seq<FrameKey>, k: FrameKey) -> int {
    weigh(lines, turning_left(p, k))
}

/// The samples that lie to the left of the path `p` in the graph: at each of
/// its frames, those of the siblings that come before that frame.
pub open spec fn offset_at(lines: Seq<LineView>, p: Seq<FrameKey>) -> int
    decreases p.len(),
{
    if p.len() == 0 {
        0
    } else {
        offset_at(lines, p.drop_last()) + before_at(lines, p.drop_last(), p.last())
    }
}

/// Every line is one that the call tree accepts.
pub open spec fn all_valid(lines: Seq<LineView>) -> bool {
    forall|n: int| 0 <= n < lines.len() ==> (#[trigger] lines[n]).valid()
}

/// All lines carry a second count, or none does.
pub open spec fn uniform(lines: Seq<LineView>) -> bool {
    forall|n: int|
        0 <= n < lines.len() ==> ((#[trigger] lines[n]).delta is Some) == (lines[0].delta is Some)
}

pub proof fn lemma_weigh_push(lines: Seq<LineView>, l: LineView, f: spec_fn(LineView) -> int)
    ensures
        weigh(lines.push(l), f) == weigh(lines, f) + f(l),
{
    assert(lines.push(l).drop_last() =~= lines);
}

pub proof fn lemma_weigh_remove(lines: Seq<LineView>, i: int, f: spec_fn(LineView) -> int)
    requires
        0 <= i < lines.len(),
    ensures
        weigh(lines, f) == weigh(lines.remove(i), f) + f(lines[i]),
    decreases lines.len(),
{
    if i == lines.len() - 1 {
        assert(lines.remove(i) =~= lines.drop_last());
    } else {
        lemma_weigh_remove(lines.drop_last(), i, f);
        assert(lines.remove(i).drop_last() =~= lines.drop_last().remove(i));
    }
}

/// A sum over the lines is the same for every order of the lines.
pub proof fn lemma_weigh_permutation(
    a: Seq<LineView>,
    b: Seq<LineView>,
    f: spec_fn(LineView) -> int,
)
    requires
        a.to_multiset() == b.to_multiset(),
    ensures
        weigh(a, f) == weigh(b, f),
    decreases a.len(),
{
    a.to_multiset_ensures();
    b.to_multiset_ensures();
    if a.len() == 0 {
        assert(b.len() == 0);
    } else {
        let x = a.last();
        let a1 = a.drop_last();
        assert(a[a.len() - 1] == x);
        assert(a.contains(x));
        assert(a.to_multiset().count(x) > 0);
        assert(b.to_multiset().count(x) > 0);
        assert(b.contains(x));
        let i = choose|i: int| 0 <= i < b.len() && b[i] == x;
        let b1 = b.remove(i);
        assert(a1 =~= a.remove(a.len() - 1));
        assert(a1.to_multiset() =~= b1.to_multiset());
        lemma_weigh_permutation(a1, b1, f);
        lemma_weigh_remove(b, i, f);
    }
}

/// A sum of terms that are not negative and not above those of another sum
/// is not above that sum.
pub proof fn lemma_weigh_bounded(
    lines: Seq<LineView>,
    f: spec_fn(LineView) -> int,
    g: spec_fn(LineView) -> int,
)
    requires
        forall|n: int| 0 <= n < lines.len() ==> 0 <= #[trigger] f(lines[n]) <= g(lines[n]),
    ensures
        0 <= weigh(lines, f) <= weigh(lines, g),
    decreases lines.len(),
{
    if lines.len() > 0 {
        let rest = lines.drop_last();
        assert forall|n: int| 0 <= n < rest.len() implies 0 <= #[trigger] f(rest[n]) <= g(
            rest[n],
        ) by {
            assert(rest[n] == lines[n]);
        }
        lemma_weigh_bounded(rest, f, g);
        assert(0 <= f(lines[lines.len() - 1]) <= g(lines[lines.len() - 1]));
    }
}

/// A sum whose terms are all zero is zero.
pub proof fn lemma_weigh_zero(lines: Seq<LineView>, f: spec_fn(LineView) -> int)
    requires
        forall|n: int| 0 <= n < lines.len() ==> #[trigger] f(lines[n]) == 0,
    ensures
        weigh(lines, f) == 0,
    decreases lines.len(),
{
    if lines.len() > 0 {
        let rest = lines.drop_last();
        assert forall|n: int| 0 <= n < rest.len() implies #[trigger] f(rest[n]) == 0 by {
            assert(rest[n] == lines[n]);
        }
        lemma_weigh_zero(rest, f);
        assert(f(lines[lines.len() - 1]) == 0);
    }
}

/// A sum of terms that are not negative is at least each of its terms.
pub proof fn lemma_weigh_term(lines: Seq<LineView>, f: spec_fn(LineView) -> int, n: int)
    requires
        0 <= n < lines.len(),
        forall|m: int| 0 <= m < lines.len() ==> 0 <= #[trigger] f(lines[m]),
    ensures
        f(lines[n]) <= weigh(lines, f),
    decreases lines.len(),
{
    let rest = lines.drop_last();
    assert forall|m: int| 0 <= m < rest.len() implies 0 <= #[trigger] f(rest[m]) by {
        assert(rest[m] == lines[m]);
    }
    lemma_weigh_bounded(rest, f, f);
    assert(0 <= f(lines[lines.len() - 1]));
    if n < lines.len() - 1 {
        lemma_weigh_term(rest, f, n);
        assert(rest[n] == lines[n]);
    }
}

/// The aggregate count of the empty path is the sum of the counts of all lines.
pub proof fn lemma_root_total(lines: Seq<LineView>)
    ensures
        total_at(lines, Seq::empty()) == sample_sum(lines),
    decreases lines.len(),
{
    if lines.len() > 0 {
        lemma_root_total(lines.drop_last());
        let l = lines.last();
        assert(l.frames.take(0) =~= Seq::<FrameKey>::empty());
    }
}

/// No path has more samples than the empty path, nor fewer than none.
pub proof fn lemma_total_bounded(lines: Seq<LineView>, p: Seq<FrameKey>)
    requires
        all_valid(lines),
    ensures
        0 <= total_at(lines, p) <= total_at(lines, Seq::empty()),
        0 <= secondary_at(lines, p) <= secondary_at(lines, Seq::empty()),
        0 <= self_at(lines, p) <= total_at(lines, p),
{
    let e = Seq::<FrameKey>::empty();
    assert forall|n: int| 0 <= n < lines.len() implies 0 <= #[trigger] through(p)(lines[n])
        <= through(e)(lines[n]) by {
        assert(lines[n].frames.take(0) =~= e);
    }
    lemma_weigh_bounded(lines, through(p), through(e));
    assert forall|n: int| 0 <= n < lines.len() implies 0 <= #[trigger] through_second(p)(
        lines[n],
    ) <= through_second(e)(lines[n]) by {
        assert(lines[n].frames.take(0) =~= e);
        assert(lines[n].valid());
    }
    lemma_weigh_bounded(lines, through_second(p), through_second(e));
    assert forall|n: int| 0 <= n < lines.len() implies 0 <= #[trigger] ending(p)(lines[n])
        <= through(p)(lines[n]) by {
        if lines[n].frames == p {
            assert(p.take(p.len() as int) =~= p);
        }
    }
    lemma_weigh_bounded(lines, ending(p), through(p));
}

/// A longer path has no more samples than the path it starts with.
pub proof fn lemma_total_narrows(lines: Seq<LineView>, p: Seq<FrameKey>, q: Seq<FrameKey>)
    requires
        is_prefix(p, q),
    ensures
        0 <= total_at(lines, q) <= total_at(lines, p),
{
    assert forall|n: int| 0 <= n < lines.len() implies 0 <= #[trigger] through(q)(lines[n])
        <= through(p)(lines[n]) by {
        let s = lines[n].frames;
        if is_prefix(q, s) {
            assert(s.take(p.len() as int) =~= q.take(p.len() as int));
        }
    }
    lemma_weigh_bounded(lines, through(q), through(p));
}

/// A path that starts no line has no samples.
pub proof fn lemma_unused_path(lines: Seq<LineView>, p: Seq<FrameKey>)
    requires
        forall|n: int| 0 <= n < lines.len() ==> !is_prefix(p, #[trigger] lines[n].frames),
    ensures
        total_at(lines, p) == 0,
        secondary_at(lines, p) == 0,
        self_at(lines, p) == 0,
{
    assert forall|n: int| 0 <= n < lines.len() implies #[trigger] through(p)(lines[n]) == 0 by {
        assert(!is_prefix(p, lines[n].frames));
    }
    lemma_weigh_zero(lines, through(p));
    assert forall|n: int| 0 <= n < lines.len() implies #[trigger] through_second(p)(lines[n])
        == 0 by {
        assert(!is_prefix(p, lines[n].frames));
    }
    lemma_weigh_zero(lines, through_second(p));
    assert forall|n: int| 0 <= n < lines.len() implies #[trigger] ending(p)(lines[n]) == 0 by {
        assert(!is_prefix(p, lines[n].frames));
        if lines[n].frames == p {
            assert(p.take(p.len() as int) =~= p);
        }
    }
    lemma_weigh_zero(lines, ending(p));
}

/// A path with samples starts some line.
pub proof fn lemma_used_path(lines: Seq<LineView>, p: Seq<FrameKey>) -> (n: int)
    requires
        total_at(lines, p) > 0,
    ensures
        0 <= n < lines.len(),
        is_prefix(p, lines[n].frames),
    decreases lines.len(),
{
    if is_prefix(p, lines.last().frames) {
        lines.len() - 1
    } else {
        let n = lemma_used_path(lines.drop_last(), p);
        assert(lines.drop_last()[n] == lines[n]);
        n
    }
}

/// The samples of a path, and those that end in it or lie to its left, are
/// the same for every order of the lines.
pub proof fn lemma_order_independent(a: Seq<LineView>, b: Seq<LineView>, p: Seq<FrameKey>)
    requires
        a.to_multiset() == b.to_multiset(),
    ensures
        total_at(a, p) == total_at(b, p),
        secondary_at(a, p) == secondary_at(b, p),
        self_at(a, p) == self_at(b, p),
        offset_at(a, p) == offset_at(b, p),
        sample_sum(a) == sample_sum(b),
    decreases p.len(),
{
    lemma_weigh_permutation(a, b, through(p));
    lemma_weigh_permutation(a, b, through_second(p));
    lemma_weigh_permutation(a, b, ending(p));
    lemma_weigh_permutation(a, b, every());
    if p.len() > 0 {
        lemma_order_independent(a, b, p.drop_last());
        lemma_weigh_permutation(a, b, turning_left(p.drop_last(), p.last()));
    }
}

/// Lines that come from several sources count the same whichever source is read first.
pub proof fn lemma_sources_commute(a: Seq<LineView>, b: Seq<LineView>)
    ensures
        (a + b).to_multiset() == (b + a).to_multiset(),
{
    vstd::seq_lib::lemma_multiset_commutative(a, b);
    vstd::seq_lib::lemma_multiset_commutative(b, a);
}


/// The count of a line whose stack starts with `p` and goes on with one of
/// the first `t` frames of `ks`.
pub open spec fn turning_into(p: Seq<FrameKey>, ks: Seq<FrameKey>, t: int) -> spec_fn(
    LineView,
) -> int {
    |l: LineView|
        if l.frames.len() > p.len() && is_prefix(p, l.frames) && exists|j: int|
            0 <= j < t && j < ks.len() && #[trigger] ks[j] == l.frames[p.len() as int] {
            l.count as int
        } else {
            0
        }
}

/// The aggregate counts of the children `ks[0]` to `ks[t - 1]` of the path `p`, together.
pub open spec fn children_total(
    lines: Seq<LineView>,
    p: Seq<FrameKey>,
    ks: Seq<FrameKey>,
    t: int,
) -> int
    decreases t,
{
    if t <= 0 {
        0
    } else {
        children_total(lines, p, ks, t - 1) + total_at(lines, p.push(ks[t - 1]))
    }
}

/// The frames of `ks` stand in strict order.
pub open spec fn keys_sorted(ks: Seq<FrameKey>) -> bool {
    forall|i: int, j: int| 0 <= i < j < ks.len() ==> key_lt(#[trigger] ks[i], #[trigger] ks[j])
}

/// Where a line goes on below `p`, its next frame is one of `ks`.
pub open spec fn keys_cover(lines: Seq<LineView>, p: Seq<FrameKey>, ks: Seq<FrameKey>) -> bool {
    forall|n: int|
        0 <= n < lines.len() && (#[trigger] lines[n]).frames.len() > p.len() && is_prefix(
            p,
            lines[n].frames,
        ) ==> exists|j: int| 0 <= j < ks.len() && #[trigger] ks[j] == lines[n].frames[p.len() as int]
}

/// Two sums whose terms agree line by line agree.
pub proof fn lemma_weigh_same(
    lines: Seq<LineView>,
    f: spec_fn(LineView) -> int,
    g: spec_fn(LineView) -> int,
)
    requires
        forall|n: int| 0 <= n < lines.len() ==> #[trigger] f(lines[n]) == g(lines[n]),
    ensures
        weigh(lines, f) == weigh(lines, g),
    decreases lines.len(),
{
    if lines.len() > 0 {
        let rest = lines.drop_last();
        assert forall|n: int| 0 <= n < rest.len() implies #[trigger] f(rest[n]) == g(rest[n]) by {
            assert(rest[n] == lines[n]);
        }
        lemma_weigh_same(rest, f, g);
        assert(f(lines[lines.len() - 1]) == g(lines[lines.len() - 1]));
    }
}

/// A sum whose terms are, line by line, the terms of two other sums added
/// up is those two sums added up.
pub proof fn lemma_weigh_split(
    lines: Seq<LineView>,
    f: spec_fn(LineView) -> int,
    g: spec_fn(LineView) -> int,
    h: spec_fn(LineView) -> int,
)
    requires
        forall|n: int| 0 <= n < lines.len() ==> #[trigger] h(lines[n]) == f(lines[n]) + g(lines[n]),
    ensures
        weigh(lines, h) == weigh(lines, f) + weigh(lines, g),
    decreases lines.len(),
{
    if lines.len() > 0 {
        let rest = lines.drop_last();
        assert forall|n: int| 0 <= n < rest.len() implies #[trigger] h(rest[n]) == f(rest[n]) + g(
            rest[n],
        ) by {
            assert(rest[n] == lines[n]);
        }
        lemma_weigh_split(rest, f, g, h);
        assert(h(lines[lines.len() - 1]) == f(lines[lines.len() - 1]) + g(lines[lines.len() - 1]));
    }
}

/// The children `ks[0]` to `ks[t - 1]` of `p` hold the samples of the lines
/// that go on below `p` with one of their frames.
pub proof fn lemma_children_total(
    lines: Seq<LineView>,
    p: Seq<FrameKey>,
    ks: Seq<FrameKey>,
    t: int,
)
    requires
        keys_sorted(ks),
        0 <= t <= ks.len(),
    ensures
        children_total(lines, p, ks, t) == weigh(lines, turning_into(p, ks, t)),
    decreases t,
{
    if t == 0 {
        lemma_weigh_zero(lines, turning_into(p, ks, 0));
    } else {
        lemma_children_total(lines, p, ks, t - 1);
        let k = ks[t - 1];
        let q = p.push(k);
        assert forall|n: int| 0 <= n < lines.len() implies #[trigger] turning_into(p, ks, t)(
            lines[n],
        ) == turning_into(p, ks, t - 1)(lines[n]) + through(q)(lines[n]) by {
            let s = lines[n].frames;
            if is_prefix(q, s) {
                assert(s.take(p.len() as int) =~= q.take(p.len() as int));
                assert(q.take(p.len() as int) =~= p);
                assert(s[p.len() as int] == s.take(q.len() as int)[p.len() as int]);
                assert(ks[t - 1] == s[p.len() as int]);
                if exists|j: int|
                    0 <= j < t - 1 && j < ks.len() && #[trigger] ks[j] == s[p.len() as int] {
                    let j = choose|j: int|
                        0 <= j < t - 1 && j < ks.len() && #[trigger] ks[j] == s[p.len() as int];
                    assert(key_lt(ks[j], ks[t - 1]));
                    crate::line::lemma_key_lt_asymmetric(ks[j], ks[t - 1]);
                }
            } else if s.len() > p.len() && is_prefix(p, s) {
                if ks[t - 1] == s[p.len() as int] {
                    assert(s.take(q.len() as int) =~= q);
                }
            }
        }
        lemma_weigh_split(
            lines,
            turning_into(p, ks, t - 1),
            through(q),
            turning_into(p, ks, t),
        );
    }
}

/// The children of `p` before the `t`-th hold the samples that lie to the
/// left of the `t`-th child.
pub proof fn lemma_children_before(
    lines: Seq<LineView>,
    p: Seq<FrameKey>,
    ks: Seq<FrameKey>,
    t: int,
)
    requires
        keys_sorted(ks),
        keys_cover(lines, p, ks),
        0 <= t < ks.len(),
    ensures
        children_total(lines, p, ks, t) == before_at(lines, p, ks[t]),
{
    lemma_children_total(lines, p, ks, t);
    assert forall|n: int| 0 <= n < lines.len() implies #[trigger] turning_into(p, ks, t)(
        lines[n],
    ) == turning_left(p, ks[t])(lines[n]) by {
        let s = lines[n].frames;
        if s.len() > p.len() && is_prefix(p, s) {
            let f = s[p.len() as int];
            let j = choose|j: int| 0 <= j < ks.len() && #[trigger] ks[j] == f;
            if j < t {
                assert(key_lt(ks[j], ks[t]));
            } else if j > t {
                assert(key_lt(ks[t], ks[j]));
                crate::line::lemma_key_lt_asymmetric(ks[t], ks[j]);
            } else if key_lt(ks[t], ks[t]) {
                crate::line::lemma_key_lt_asymmetric(ks[t], ks[t]);
            }
            if exists|m: int| 0 <= m < t && m < ks.len() && #[trigger] ks[m] == f {
                let m = choose|m: int| 0 <= m < t && m < ks.len() && #[trigger] ks[m] == f;
                assert(key_lt(ks[m], ks[t]));
            }
        }
    }
    lemma_weigh_same(lines, turning_into(p, ks, t), turning_left(p, ks[t]));
}

/// The samples of a path are its own and those of its children.
pub proof fn lemma_children_all(lines: Seq<LineView>, p: Seq<FrameKey>, ks: Seq<FrameKey>)
    requires
        keys_sorted(ks),
        keys_cover(lines, p, ks),
    ensures
        total_at(lines, p) == self_at(lines, p) + children_total(lines, p, ks, ks.len() as int),
{
    let t = ks.len() as int;
    lemma_children_total(lines, p, ks, t);
    assert forall|n: int| 0 <= n < lines.len() implies #[trigger] through(p)(lines[n]) == ending(
        p,
    )(lines[n]) + turning_into(p, ks, t)(lines[n]) by {
        let s = lines[n].frames;
        if s == p {
            assert(p.take(p.len() as int) =~= p);
        } else if is_prefix(p, s) {
            if s.len() == p.len() {
                assert(s.take(p.len() as int) =~= s);
            }
            let j = choose|j: int| 0 <= j < ks.len() && #[trigger] ks[j] == s[p.len() as int];
            assert(0 <= j < t && j < ks.len() && ks[j] == s[p.len() as int]);
        }
    }
    lemma_weigh_split(lines, ending(p), turning_into(p, ks, t), through(p));
}


/// The count of a line that passes through `p` and then turns left of `k` or into `k`.
pub open spec fn turning_left_or_into(p: Seq<FrameKey>, k: FrameKey) -> spec_fn(LineView) -> int {
    |l: LineView| turning_left(p, k)(l) + through(p.push(k))(l)
}

/// A path lies inside the graph: the samples to its left and its own
/// samples are together no more than all samples.
pub proof fn lemma_extent(lines: Seq<LineView>, p: Seq<FrameKey>)
    ensures
        0 <= offset_at(lines, p),
        0 <= total_at(lines, p),
        offset_at(lines, p) + total_at(lines, p) <= total_at(lines, Seq::empty()),
    decreases p.len(),
{
    if p.len() == 0 {
        assert(p =~= Seq::<FrameKey>::empty());
        assert(p.take(p.len() as int) =~= p);
        lemma_total_narrows(lines, p, p);
    } else {
        let q = p.drop_last();
        let k = p.last();
        assert(q.push(k) =~= p);
        lemma_extent(lines, q);
        let both = turning_left_or_into(q, k);
        lemma_weigh_split(lines, turning_left(q, k), through(p), both);
        assert forall|n: int| 0 <= n < lines.len() implies 0 <= #[trigger] both(lines[n])
            <= through(q)(lines[n]) by {
            let s = lines[n].frames;
            if is_prefix(p, s) {
                assert(s.take(q.len() as int) =~= p.take(q.len() as int));
                assert(s[q.len() as int] == s.take(p.len() as int)[q.len() as int]);
                if key_lt(k, k) {
                    crate::line::lemma_key_lt_asymmetric(k, k);
                }
            }
        }
        lemma_weigh_bounded(lines, both, through(q));
        assert forall|n: int| 0 <= n < lines.len() implies 0 <= #[trigger] turning_left(q, k)(
            lines[n],
        ) <= both(lines[n]) by {}
        lemma_weigh_bounded(lines, turning_left(q, k), both);
        assert(p.take(p.len() as int) =~= p);
        lemma_total_narrows(lines, p, p);
    }
}


/// `p` and `q` agree on their first `i` frames, and there `p` ends while `q`
/// goes on, or `p` has the frame that comes first.
pub open spec fn path_precedes_at(p: Seq<FrameKey>, q: Seq<FrameKey>, i: int) -> bool {
    &&& 0 <= i <= p.len()
    &&& i < q.len()
    &&& forall|j: int| 0 <= j < i ==> p[j] == q[j]
    &&& i < p.len() ==> key_lt(p[i], q[i])
}

/// The order in which call paths stand in the graph, read from the bottom
/// left: a path comes before the paths that go on from it, and before the
/// paths that turn off from it to the right.
pub open spec fn path_lt(p: Seq<FrameKey>, q: Seq<FrameKey>) -> bool {
    exists|i: int| #[trigger] path_precedes_at(p, q, i)
}

pub proof fn lemma_path_lt_asymmetric(p: Seq<FrameKey>, q: Seq<FrameKey>)
    requires
        path_lt(p, q),
    ensures
        !path_lt(q, p),
        p != q,
{
    let i = choose|i: int| #[trigger] path_precedes_at(p, q, i);
    if i < p.len() {
        crate::line::lemma_key_lt_asymmetric(p[i], q[i]);
    }
    if path_lt(q, p) {
        let k = choose|k: int| #[trigger] path_precedes_at(q, p, k);
        if k < i {
            assert(p[k] == q[k]);
            if k < q.len() {
                crate::line::lemma_key_lt_asymmetric(q[k], p[k]);
            }
        } else if i < k {
            assert(q[i] == p[i]);
        } else {
            crate::line::lemma_key_lt_asymmetric(q[k], p[k]);
        }
    }
}

pub proof fn lemma_path_lt_transitive(p: Seq<FrameKey>, q: Seq<FrameKey>, r: Seq<FrameKey>)
    requires
        path_lt(p, q),
        path_lt(q, r),
    ensures
        path_lt(p, r),
{
    let i = choose|i: int| #[trigger] path_precedes_at(p, q, i);
    let k = choose|k: int| #[trigger] path_precedes_at(q, r, k);
    if i < k {
        assert(q[i] == r[i]);
        assert(path_precedes_at(p, r, i));
    } else if k < i {
        assert(p[k] == q[k]);
        assert(path_precedes_at(p, r, k));
    } else {
        if i < p.len() {
            crate::line::lemma_key_lt_transitive(p[i], q[i], r[i]);
        }
        assert(path_precedes_at(p, r, i));
    }
}

/// A path comes before the paths that go on from it.
pub proof fn lemma_path_lt_longer(p: Seq<FrameKey>, q: Seq<FrameKey>)
    requires
        is_prefix(p, q),
        p.len() < q.len(),
    ensures
        path_lt(p, q),
{
    assert forall|j: int| 0 <= j < p.len() implies p[j] == q[j] by {
        assert(q.take(p.len() as int)[j] == q[j]);
    }
    assert(path_precedes_at(p, q, p.len() as int));
}

/// Paths that go on from `s` with the frame `k` come before those that go
/// on from it with a frame after `k`.
pub proof fn lemma_path_lt_turn(
    s: Seq<FrameKey>,
    k: FrameKey,
    later: FrameKey,
    p: Seq<FrameKey>,
    q: Seq<FrameKey>,
)
    requires
        key_lt(k, later),
        is_prefix(s.push(k), p),
        is_prefix(s.push(later), q),
    ensures
        path_lt(p, q),
{
    let n = s.len() as int;
    assert forall|j: int| 0 <= j < n implies p[j] == q[j] by {
        assert(p.take(n + 1)[j] == p[j]);
        assert(q.take(n + 1)[j] == q[j]);
    }
    assert(p.take(n + 1)[n] == p[n]);
    assert(q.take(n + 1)[n] == q[n]);
    assert(path_precedes_at(p, q, n));
}

} // verus!
