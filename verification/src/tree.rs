//! The call tree: all sample lines merged by call path.
//!
//! The nodes live in one vector. A node names its parent and its children by
//! their places in that vector; node 0 stands for the whole profile and has no
//! frame. The children of a node are kept in the order of `key_lt`, so that
//! walking them is walking them alphabetically.

use crate::line::{
    compare_frames, frames_view, key_lt, lemma_key_lt_asymmetric, lemma_key_lt_transitive,
    Annotation, Frame, FrameKey, LineError, LineView, StackLine,
};
use crate::profile::{
    all_valid, before_at, children_total, ending, is_prefix, keys_cover, keys_sorted,
    lemma_children_all, lemma_children_before, lemma_order_independent, lemma_total_bounded,
    lemma_unused_path, lemma_used_path, lemma_weigh_push, secondary_at, self_at, through,
    through_second, total_at, uniform,
};
use crate::text::{copy_range, Rank};
use vstd::prelude::*;

verus! {

/// A node of the call tree.
pub struct Node {
    /// The frame's name, without its tag.
    pub name: Vec<u8>,
    pub annotation: Annotation,
    /// The place of the parent; the root names itself.
    pub parent: usize,
    /// The places of the children, in the order of their frames.
    pub children: Vec<usize>,
    /// The samples of all lines that pass through this node.
    pub total: u64,
    /// The samples of the lines that end in this node.
    pub self_count: u64,
    /// The second counts of all lines that pass through this node.
    pub secondary: u64,
}

impl Node {
    pub open spec fn key(&self) -> FrameKey {
        FrameKey { name: self.name@, annotation: self.annotation }
    }
}

/// The place of the `j`-th child of node `i`.
pub open spec fn kid(nodes: Seq<Node>, i: int, j: int) -> int {
    nodes[i].children@[j] as int
}

/// The place of the parent of node `i`.
pub open spec fn up(nodes: Seq<Node>, i: int) -> int {
    nodes[i].parent as int
}

/// The call path of node `i`: the frames from below the root down to the node.
pub open spec fn path_of(nodes: Seq<Node>, i: int) -> Seq<FrameKey>
    decreases i,
{
    if 0 < i < nodes.len() && nodes[i].parent < i {
        path_of(nodes, nodes[i].parent as int).push(nodes[i].key())
    } else {
        Seq::empty()
    }
}

/// Node `i` stands among the children of its parent.
pub open spec fn listed(nodes: Seq<Node>, i: int) -> bool {
    exists|j: int|
        0 <= j < nodes[up(nodes, i)].children@.len() && #[trigger] kid(nodes, up(nodes, i), j)
            == i
}

/// Node `i` has a child with the frame `k`.
pub open spec fn has_kid_with(nodes: Seq<Node>, i: int, k: FrameKey) -> bool {
    exists|j: int|
        0 <= j < nodes[i].children@.len() && nodes[#[trigger] kid(nodes, i, j)].key() == k
}

/// The nodes form a tree below node 0, with the children of each node in
/// strict order and no call path twice.
pub open spec fn shaped(nodes: Seq<Node>) -> bool {
    &&& nodes.len() >= 1
    &&& forall|i: int| 0 < i < nodes.len() ==> #[trigger] up(nodes, i) < i
    &&& forall|i: int, j: int|
        0 <= i < nodes.len() && 0 <= j < nodes[i].children@.len() ==> i < #[trigger] kid(
            nodes,
            i,
            j,
        ) < nodes.len() && up(nodes, kid(nodes, i, j)) == i
    &&& forall|i: int| 0 < i < nodes.len() ==> #[trigger] listed(nodes, i)
    &&& forall|i: int, j: int, k: int|
        0 <= i < nodes.len() && 0 <= j < k < nodes[i].children@.len() ==> key_lt(
            nodes[#[trigger] kid(nodes, i, j)].key(),
            nodes[#[trigger] kid(nodes, i, k)].key(),
        )
    &&& forall|i: int, j: int|
        0 <= i < nodes.len() && 0 <= j < nodes.len() && #[trigger] path_of(nodes, i)
            == #[trigger] path_of(nodes, j) ==> i == j
}

/// `p` is a start of `s` and shorter than `s`.
pub open spec fn strictly_before(p: Seq<FrameKey>, s: Seq<FrameKey>) -> bool {
    p.len() < s.len() && is_prefix(p, s)
}

/// Line `n` passes through node `i` and goes on below it.
pub open spec fn passes(nodes: Seq<Node>, lines: Seq<LineView>, n: int, i: int) -> bool {
    strictly_before(path_of(nodes, i), lines[n].frames)
}

/// Where a line goes on below a node, the node has a child for the next frame.
pub open spec fn covers(nodes: Seq<Node>, lines: Seq<LineView>) -> bool {
    forall|n: int, i: int|
        0 <= n < lines.len() && 0 <= i < nodes.len() && #[trigger] passes(nodes, lines, n, i)
            ==> has_kid_with(nodes, i, lines[n].frames[path_of(nodes, i).len() as int])
}

/// The counts of node `i` are those of its path in `lines`, and `count` and
/// `second` more where the path is a start of `walked`.
pub open spec fn counted(
    nodes: Seq<Node>,
    lines: Seq<LineView>,
    walked: Option<Seq<FrameKey>>,
    count: int,
    second: int,
    i: int,
) -> bool {
    let p = path_of(nodes, i);
    let on = walked matches Some(w) && is_prefix(p, w);
    &&& nodes[i].total == total_at(lines, p) + if on {
        count
    } else {
        0
    }
    &&& nodes[i].secondary == secondary_at(lines, p) + if on {
        second
    } else {
        0
    }
    &&& nodes[i].self_count == self_at(lines, p)
    &&& i > 0 ==> nodes[i].total > 0
}

/// Every node holds the counts of its path in `lines`.
pub open spec fn weighted(nodes: Seq<Node>, lines: Seq<LineView>) -> bool {
    forall|i: int| 0 <= i < nodes.len() ==> #[trigger] counted(nodes, lines, None, 0, 0, i)
}

/// The state while a line is merged: its first frames, `walked`, have been
/// followed from the root, and the nodes on that way hold the line's counts already.
pub open spec fn walking(
    nodes: Seq<Node>,
    lines: Seq<LineView>,
    walked: Seq<FrameKey>,
    count: int,
    second: int,
) -> bool {
    &&& shaped(nodes)
    &&& covers(nodes, lines)
    &&& forall|i: int|
        0 <= i < nodes.len() ==> #[trigger] counted(nodes, lines, Some(walked), count, second, i)
    &&& forall|i: int|
        0 <= i < nodes.len() && strictly_before(#[trigger] path_of(nodes, i), walked)
            ==> has_kid_with(nodes, i, walked[path_of(nodes, i).len() as int])
}

/// `b` is `a` but for the counts of node `i`.
pub open spec fn recounted(a: Seq<Node>, b: Seq<Node>, i: int) -> bool {
    &&& b.len() == a.len()
    &&& forall|k: int| 0 <= k < a.len() && k != i ==> #[trigger] b[k] == a[k]
    &&& b[i].parent == a[i].parent
    &&& b[i].name == a[i].name
    &&& b[i].annotation == a[i].annotation
    &&& b[i].children == a[i].children
}

/// `b` is `a` with one node more: a child of `cur` with the frame `k`, which
/// stands at `pos` among the children of `cur`.
pub open spec fn grown(
    a: Seq<Node>,
    b: Seq<Node>,
    cur: int,
    pos: int,
    k: FrameKey,
    count: int,
    second: int,
) -> bool {
    let fresh = a.len() as int;
    &&& a.len() <= usize::MAX
    &&& b.len() == a.len() + 1
    &&& forall|i: int| 0 <= i < a.len() && i != cur ==> #[trigger] b[i] == a[i]
    &&& b[cur].parent == a[cur].parent
    &&& b[cur].name == a[cur].name
    &&& b[cur].annotation == a[cur].annotation
    &&& b[cur].total == a[cur].total
    &&& b[cur].secondary == a[cur].secondary
    &&& b[cur].self_count == a[cur].self_count
    &&& b[cur].children@ == a[cur].children@.insert(pos, fresh as usize)
    &&& b[fresh].parent == cur
    &&& b[fresh].key() == k
    &&& b[fresh].children@.len() == 0
    &&& b[fresh].total == count
    &&& b[fresh].secondary == second
    &&& b[fresh].self_count == 0
}

/// The frame `k` belongs at `pos` among the children of `cur`, and is none of them.
pub open spec fn belongs_at(nodes: Seq<Node>, cur: int, pos: int, k: FrameKey) -> bool {
    &&& 0 <= pos <= nodes[cur].children@.len()
    &&& forall|j: int| 0 <= j < pos ==> key_lt(nodes[#[trigger] kid(nodes, cur, j)].key(), k)
    &&& forall|j: int|
        pos <= j < nodes[cur].children@.len() ==> key_lt(
            k,
            nodes[#[trigger] kid(nodes, cur, j)].key(),
        )
}

/// The path of a node does not depend on the nodes that stand after it, nor
/// on counts or children.
pub proof fn lemma_path_stable(a: Seq<Node>, b: Seq<Node>, i: int)
    requires
        0 <= i < a.len() <= b.len(),
        forall|k: int|
            0 <= k < a.len() ==> (#[trigger] b[k]).parent == a[k].parent && b[k].key()
                == a[k].key(),
    ensures
        path_of(a, i) == path_of(b, i),
    decreases i,
{
    assert(b[i].parent == a[i].parent && b[i].key() == a[i].key());
    if 0 < i && a[i].parent < i {
        lemma_path_stable(a, b, a[i].parent as int);
    }
}

proof fn lemma_prefix_step(p: Seq<FrameKey>, s: Seq<FrameKey>, d: int)
    requires
        0 <= d < s.len(),
    ensures
        is_prefix(p, s.take(d + 1)) <==> (p == s.take(d + 1) || is_prefix(p, s.take(d))),
        strictly_before(p, s.take(d + 1)) <==> is_prefix(p, s.take(d)),
        is_prefix(p, s.take(d)) ==> !(p == s.take(d + 1)),
{
    if p.len() <= d {
        assert(s.take(d + 1).take(p.len() as int) =~= s.take(d).take(p.len() as int));
    } else if p.len() == d + 1 {
        assert(s.take(d + 1).take(d + 1) =~= s.take(d + 1));
    }
}

proof fn lemma_no_kid_with(nodes: Seq<Node>, cur: int, pos: int, k: FrameKey)
    requires
        belongs_at(nodes, cur, pos, k),
    ensures
        !has_kid_with(nodes, cur, k),
{
    if has_kid_with(nodes, cur, k) {
        let j = choose|j: int|
            0 <= j < nodes[cur].children@.len() && nodes[#[trigger] kid(nodes, cur, j)].key() == k;
        if j < pos {
            lemma_key_lt_asymmetric(nodes[kid(nodes, cur, j)].key(), k);
        } else {
            lemma_key_lt_asymmetric(k, nodes[kid(nodes, cur, j)].key());
        }
    }
}

/// Changing the counts of a node leaves the shape of the tree, its paths and
/// what it covers as they were.
proof fn lemma_recounted(a: Seq<Node>, b: Seq<Node>, i: int, lines: Seq<LineView>)
    requires
        shaped(a),
        0 <= i < a.len(),
        recounted(a, b, i),
    ensures
        shaped(b),
        forall|k: int| 0 <= k < a.len() ==> #[trigger] path_of(b, k) == path_of(a, k),
        forall|k: int, f: FrameKey|
            0 <= k < a.len() ==> (#[trigger] has_kid_with(b, k, f) <==> has_kid_with(a, k, f)),
        covers(a, lines) ==> covers(b, lines),
{
    assert forall|k: int| 0 <= k < a.len() implies (#[trigger] b[k]).parent == a[k].parent
        && b[k].key() == a[k].key() && b[k].children == a[k].children by {
        if k != i {
            assert(b[k] == a[k]);
        }
    }
    assert forall|k: int| 0 <= k < a.len() implies #[trigger] path_of(b, k) == path_of(a, k) by {
        lemma_path_stable(a, b, k);
    }
    assert forall|k: int, j: int|
        0 <= k < a.len() && 0 <= j < a[k].children@.len() implies #[trigger] kid(b, k, j) == kid(
        a,
        k,
        j,
    ) by {
        assert(b[k].children == a[k].children);
    }
    assert forall|k: int| 0 < k < b.len() implies #[trigger] up(b, k) < k by {
        assert(up(a, k) < k);
    }
    assert forall|k: int, j: int| 0 <= k < b.len() && 0 <= j < b[k].children@.len() implies k
        < #[trigger] kid(b, k, j) < b.len() && up(b, kid(b, k, j)) == k by {
        assert(kid(b, k, j) == kid(a, k, j));
        assert(b[kid(a, k, j)].parent == a[kid(a, k, j)].parent);
    }
    assert forall|k: int| 0 < k < b.len() implies #[trigger] listed(b, k) by {
        assert(listed(a, k));
        assert(up(a, k) < k);
        let j = choose|j: int|
            0 <= j < a[up(a, k)].children@.len() && #[trigger] kid(a, up(a, k), j) == k;
        assert(kid(b, up(b, k), j) == k);
    }
    assert forall|k: int, j: int, m: int|
        0 <= k < b.len() && 0 <= j < m < b[k].children@.len() implies key_lt(
        b[#[trigger] kid(b, k, j)].key(),
        b[#[trigger] kid(b, k, m)].key(),
    ) by {
        assert(kid(b, k, j) == kid(a, k, j));
        assert(kid(b, k, m) == kid(a, k, m));
        assert(b[kid(a, k, j)].key() == a[kid(a, k, j)].key());
        assert(b[kid(a, k, m)].key() == a[kid(a, k, m)].key());
    }
    assert forall|k: int, j: int|
        0 <= k < b.len() && 0 <= j < b.len() && #[trigger] path_of(b, k) == #[trigger] path_of(
            b,
            j,
        ) implies k == j by {
        assert(path_of(a, k) == path_of(a, j));
    }
    assert forall|k: int, f: FrameKey| 0 <= k < a.len() implies (#[trigger] has_kid_with(b, k, f)
        <==> has_kid_with(a, k, f)) by {
        if has_kid_with(a, k, f) {
            let j = choose|j: int|
                0 <= j < a[k].children@.len() && a[#[trigger] kid(a, k, j)].key() == f;
            assert(kid(b, k, j) == kid(a, k, j));
            assert(b[kid(a, k, j)].key() == f);
        }
        if has_kid_with(b, k, f) {
            let j = choose|j: int|
                0 <= j < b[k].children@.len() && b[#[trigger] kid(b, k, j)].key() == f;
            assert(kid(b, k, j) == kid(a, k, j));
            assert(a[kid(a, k, j)].key() == f);
        }
    }
    if covers(a, lines) {
        assert forall|n: int, k: int|
            0 <= n < lines.len() && 0 <= k < b.len() && #[trigger] passes(
                b,
                lines,
                n,
                k,
            ) implies has_kid_with(b, k, lines[n].frames[path_of(b, k).len() as int]) by {
            assert(path_of(b, k) == path_of(a, k));
            assert(passes(a, lines, n, k));
        }
    }
}


/// The places of the children of `cur` once a new child stands at `pos`.
proof fn lemma_grown_kids(
    a: Seq<Node>,
    b: Seq<Node>,
    cur: int,
    pos: int,
    k: FrameKey,
    count: int,
    second: int,
)
    requires
        0 <= cur < a.len(),
        0 <= pos <= a[cur].children@.len(),
        grown(a, b, cur, pos, k, count, second),
    ensures
        b[cur].children@.len() == a[cur].children@.len() + 1,
        forall|j: int| 0 <= j < pos ==> #[trigger] kid(b, cur, j) == kid(a, cur, j),
        kid(b, cur, pos) == a.len(),
        forall|j: int|
            pos < j <= a[cur].children@.len() ==> #[trigger] kid(b, cur, j) == kid(a, cur, j - 1),
        forall|i: int, j: int|
            0 <= i < a.len() && i != cur && 0 <= j < a[i].children@.len() ==> #[trigger] kid(
                b,
                i,
                j,
            ) == kid(a, i, j),
        forall|i: int|
            0 <= i < a.len() ==> (#[trigger] b[i]).parent == a[i].parent && b[i].key()
                == a[i].key(),
{
    a[cur].children@.insert_ensures(pos, a.len() as usize);
    assert forall|j: int| pos < j <= a[cur].children@.len() implies #[trigger] kid(b, cur, j)
        == kid(a, cur, j - 1) by {
        assert(a[cur].children@.insert(pos, a.len() as usize)[(j - 1) + 1] == a[cur].children@[j
            - 1]);
    }
    assert forall|i: int, j: int|
        0 <= i < a.len() && i != cur && 0 <= j < a[i].children@.len() implies #[trigger] kid(
        b,
        i,
        j,
    ) == kid(a, i, j) by {
        assert(b[i] == a[i]);
    }
    assert forall|i: int| 0 <= i < a.len() implies (#[trigger] b[i]).parent == a[i].parent
        && b[i].key() == a[i].key() by {
        if i != cur {
            assert(b[i] == a[i]);
        }
    }
}

/// A new child at its place leaves a tree, with the old paths as they were.
proof fn lemma_grown(
    a: Seq<Node>,
    b: Seq<Node>,
    cur: int,
    pos: int,
    k: FrameKey,
    count: int,
    second: int,
)
    requires
        shaped(a),
        0 <= cur < a.len(),
        belongs_at(a, cur, pos, k),
        grown(a, b, cur, pos, k, count, second),
    ensures
        shaped(b),
        forall|i: int| 0 <= i < a.len() ==> #[trigger] path_of(b, i) == path_of(a, i),
        path_of(b, a.len() as int) == path_of(a, cur).push(k),
        forall|i: int, f: FrameKey|
            0 <= i < a.len() && has_kid_with(a, i, f) ==> #[trigger] has_kid_with(b, i, f),
        has_kid_with(b, cur, k),
{
    let fresh = a.len() as int;
    let n = a[cur].children@.len() as int;
    lemma_grown_kids(a, b, cur, pos, k, count, second);
    assert forall|i: int| 0 <= i < a.len() implies #[trigger] path_of(b, i) == path_of(a, i) by {
        lemma_path_stable(a, b, i);
    }
    assert(path_of(b, fresh) == path_of(b, cur).push(k));
    assert forall|i: int| 0 < i < b.len() implies #[trigger] up(b, i) < i by {
        if i < fresh {
            assert(up(a, i) < i);
        }
    }
    assert forall|i: int, j: int| 0 <= i < b.len() && 0 <= j < b[i].children@.len() implies i
        < #[trigger] kid(b, i, j) < b.len() && up(b, kid(b, i, j)) == i by {
        if i == cur {
            if j < pos {
                assert(kid(b, cur, j) == kid(a, cur, j));
                assert(up(a, kid(a, cur, j)) == cur);
            } else if j > pos {
                assert(kid(b, cur, j) == kid(a, cur, j - 1));
                assert(up(a, kid(a, cur, j - 1)) == cur);
            }
        } else {
            assert(kid(b, i, j) == kid(a, i, j));
            assert(up(a, kid(a, i, j)) == i);
        }
    }
    assert forall|i: int| 0 < i < b.len() implies #[trigger] listed(b, i) by {
        if i == fresh {
            assert(kid(b, up(b, i), pos) == i);
        } else {
            assert(listed(a, i));
            assert(up(a, i) < i);
            let q = up(a, i);
            let j = choose|j: int| 0 <= j < a[q].children@.len() && #[trigger] kid(a, q, j) == i;
            if q == cur {
                if j < pos {
                    assert(kid(b, cur, j) == i);
                } else {
                    assert(kid(b, cur, j + 1) == kid(a, cur, (j + 1) - 1));
                    assert(kid(b, up(b, i), j + 1) == i);
                }
            } else {
                assert(kid(b, q, j) == i);
            }
        }
    }
    assert forall|i: int, j: int, m: int|
        0 <= i < b.len() && 0 <= j < m < b[i].children@.len() implies key_lt(
        b[#[trigger] kid(b, i, j)].key(),
        b[#[trigger] kid(b, i, m)].key(),
    ) by {
        if i == cur {
            let x = if j < pos {
                kid(a, cur, j)
            } else {
                kid(a, cur, j - 1)
            };
            let y = if m < pos {
                kid(a, cur, m)
            } else {
                kid(a, cur, m - 1)
            };
            if j != pos {
                assert(kid(b, cur, j) == x);
                assert(b[x].key() == a[x].key());
            }
            if m != pos {
                assert(kid(b, cur, m) == y);
                assert(b[y].key() == a[y].key());
            }
            if j == pos {
                assert(key_lt(k, a[kid(a, cur, m - 1)].key()));
            } else if m == pos {
                assert(key_lt(a[kid(a, cur, j)].key(), k));
            } else if j < pos {
                if m < pos {
                    assert(key_lt(a[kid(a, cur, j)].key(), a[kid(a, cur, m)].key()));
                } else {
                    assert(key_lt(a[kid(a, cur, j)].key(), a[kid(a, cur, m - 1)].key()));
                }
            } else {
                assert(key_lt(a[kid(a, cur, j - 1)].key(), a[kid(a, cur, m - 1)].key()));
            }
        } else {
            assert(kid(b, i, j) == kid(a, i, j));
            assert(kid(b, i, m) == kid(a, i, m));
            assert(key_lt(a[kid(a, i, j)].key(), a[kid(a, i, m)].key()));
            assert(up(a, kid(a, i, j)) == i);
            assert(up(a, kid(a, i, m)) == i);
        }
    }
    lemma_no_kid_with(a, cur, pos, k);
    assert forall|i: int, j: int|
        0 <= i < b.len() && 0 <= j < b.len() && #[trigger] path_of(b, i) == #[trigger] path_of(
            b,
            j,
        ) implies i == j by {
        if i < fresh && j < fresh {
            assert(path_of(a, i) == path_of(a, j));
        } else if i != j {
            let o = if i == fresh {
                j
            } else {
                i
            };
            assert(path_of(a, o) == path_of(a, cur).push(k));
            assert(path_of(a, o).len() > 0);
            assert(0 < o);
            assert(up(a, o) < o);
            let q = up(a, o);
            assert(path_of(a, o) == path_of(a, q).push(a[o].key()));
            assert(path_of(a, q) =~= path_of(a, o).drop_last());
            assert(path_of(a, cur) =~= path_of(a, cur).push(k).drop_last());
            assert(path_of(a, q) == path_of(a, cur));
            assert(q == cur);
            assert(a[o].key() == path_of(a, o).last());
            assert(listed(a, o));
            let m = choose|m: int|
                0 <= m < a[up(a, o)].children@.len() && #[trigger] kid(a, up(a, o), m) == o;
            assert(a[kid(a, cur, m)].key() == k);
            assert(has_kid_with(a, cur, k));
        }
    }
    assert forall|i: int, f: FrameKey| 0 <= i < a.len() && has_kid_with(a, i, f) implies #[trigger] has_kid_with(
        b,
        i,
        f,
    ) by {
        let j = choose|j: int|
            0 <= j < a[i].children@.len() && a[#[trigger] kid(a, i, j)].key() == f;
        if i == cur {
            if j < pos {
                assert(kid(b, cur, j) == kid(a, cur, j));
                assert(b[kid(b, cur, j)].key() == f);
            } else {
                assert(kid(b, cur, j + 1) == kid(a, cur, (j + 1) - 1));
                assert(b[kid(b, cur, j + 1)].key() == f);
            }
        } else {
            assert(kid(b, i, j) == kid(a, i, j));
            assert(up(a, kid(a, i, j)) == i);
            assert(b[kid(b, i, j)].key() == f);
        }
    }
    assert(b[kid(b, cur, pos)].key() == k);
}

/// The walk starts at the root, which takes the counts of the new line.
proof fn lemma_walk_start(
    a: Seq<Node>,
    b: Seq<Node>,
    lines: Seq<LineView>,
    count: int,
    second: int,
)
    requires
        shaped(a),
        weighted(a, lines),
        covers(a, lines),
        recounted(a, b, 0),
        b[0].total == a[0].total + count,
        b[0].secondary == a[0].secondary + second,
        b[0].self_count == a[0].self_count,
    ensures
        walking(b, lines, Seq::empty(), count, second),
        path_of(b, 0) == Seq::<FrameKey>::empty(),
        forall|k: int| 0 <= k < a.len() ==> #[trigger] path_of(b, k) == path_of(a, k),
{
    lemma_recounted(a, b, 0, lines);
    let e = Seq::<FrameKey>::empty();
    assert(e.take(0) =~= e);
    assert forall|i: int| 0 <= i < b.len() implies #[trigger] counted(
        b,
        lines,
        Some(e),
        count,
        second,
        i,
    ) by {
        assert(counted(a, lines, None, 0, 0, i));
        assert(path_of(b, i) == path_of(a, i));
        if i > 0 {
            assert(b[i] == a[i]);
            assert(up(a, i) < i);
            assert(path_of(a, i).len() > 0);
        }
    }
}

/// One step of the walk into a child that is there already.
proof fn lemma_step_existing(
    a: Seq<Node>,
    b: Seq<Node>,
    lines: Seq<LineView>,
    w: Seq<FrameKey>,
    d: int,
    cur: int,
    j: int,
    count: int,
    second: int,
)
    requires
        0 <= d < w.len(),
        0 <= cur < a.len(),
        count > 0,
        walking(a, lines, w.take(d), count, second),
        path_of(a, cur) == w.take(d),
        0 <= j < a[cur].children@.len(),
        a[kid(a, cur, j)].key() == w[d],
        recounted(a, b, kid(a, cur, j)),
        b[kid(a, cur, j)].total == a[kid(a, cur, j)].total + count,
        b[kid(a, cur, j)].secondary == a[kid(a, cur, j)].secondary + second,
        b[kid(a, cur, j)].self_count == a[kid(a, cur, j)].self_count,
    ensures
        walking(b, lines, w.take(d + 1), count, second),
        path_of(b, kid(a, cur, j)) == w.take(d + 1),
        forall|k: int| 0 <= k < a.len() ==> #[trigger] path_of(b, k) == path_of(a, k),
{
    let next = kid(a, cur, j);
    assert(cur < next < a.len() && up(a, next) == cur);
    lemma_recounted(a, b, next, lines);
    assert(path_of(a, next) == path_of(a, cur).push(a[next].key()));
    assert(w.take(d).push(w[d]) =~= w.take(d + 1));
    assert(path_of(b, next) == path_of(a, next));
    assert forall|i: int| 0 <= i < b.len() implies #[trigger] counted(
        b,
        lines,
        Some(w.take(d + 1)),
        count,
        second,
        i,
    ) by {
        assert(counted(a, lines, Some(w.take(d)), count, second, i));
        assert(path_of(b, i) == path_of(a, i));
        lemma_prefix_step(path_of(a, i), w, d);
        if i != next {
            assert(b[i] == a[i]);
            assert(path_of(a, i) != path_of(a, next));
        }
    }
    assert forall|i: int|
        0 <= i < b.len() && strictly_before(#[trigger] path_of(b, i), w.take(d + 1)) implies has_kid_with(
        b,
        i,
        w.take(d + 1)[path_of(b, i).len() as int],
    ) by {
        let p = path_of(a, i);
        assert(path_of(b, i) == p);
        lemma_prefix_step(p, w, d);
        if p.len() < d {
            assert(strictly_before(p, w.take(d)));
            assert(has_kid_with(a, i, w.take(d)[p.len() as int]));
            assert(has_kid_with(b, i, w.take(d)[p.len() as int]));
        } else {
            assert(w.take(d).take(d) =~= w.take(d));
            assert(p == path_of(a, cur));
            assert(i == cur);
            assert(has_kid_with(a, cur, w[d]));
            assert(has_kid_with(b, cur, w[d]));
        }
    }
}

/// One step of the walk into a child that is made for it.
proof fn lemma_step_new(
    a: Seq<Node>,
    b: Seq<Node>,
    lines: Seq<LineView>,
    w: Seq<FrameKey>,
    d: int,
    cur: int,
    pos: int,
    count: int,
    second: int,
)
    requires
        0 <= d < w.len(),
        0 <= cur < a.len(),
        count > 0,
        walking(a, lines, w.take(d), count, second),
        path_of(a, cur) == w.take(d),
        belongs_at(a, cur, pos, w[d]),
        grown(a, b, cur, pos, w[d], count, second),
    ensures
        walking(b, lines, w.take(d + 1), count, second),
        path_of(b, a.len() as int) == w.take(d + 1),
        forall|k: int| 0 <= k < a.len() ==> #[trigger] path_of(b, k) == path_of(a, k),
{
    let fresh = a.len() as int;
    let k = w[d];
    lemma_grown(a, b, cur, pos, k, count, second);
    lemma_no_kid_with(a, cur, pos, k);
    assert(w.take(d).push(w[d]) =~= w.take(d + 1));
    let fp = w.take(d + 1);
    assert(path_of(b, fresh) == fp);
    assert forall|n: int| 0 <= n < lines.len() implies !is_prefix(fp, #[trigger] lines[n].frames) by {
        let s = lines[n].frames;
        if is_prefix(fp, s) {
            assert(s.take(d) =~= fp.take(d));
            assert(fp.take(d) =~= w.take(d));
            assert(passes(a, lines, n, cur));
            assert(s[d] == s.take(d + 1)[d]);
            assert(has_kid_with(a, cur, k));
        }
    }
    lemma_unused_path(lines, fp);
    assert forall|n: int, i: int|
        0 <= n < lines.len() && 0 <= i < b.len() && #[trigger] passes(b, lines, n, i) implies has_kid_with(
        b,
        i,
        lines[n].frames[path_of(b, i).len() as int],
    ) by {
        if i == fresh {
            let s = lines[n].frames;
            assert(s.take(fp.len() as int) == fp);
            assert(is_prefix(fp, lines[n].frames));
        } else {
            assert(path_of(b, i) == path_of(a, i));
            assert(passes(a, lines, n, i));
            assert(has_kid_with(a, i, lines[n].frames[path_of(a, i).len() as int]));
        }
    }
    assert forall|i: int| 0 <= i < b.len() implies #[trigger] counted(
        b,
        lines,
        Some(fp),
        count,
        second,
        i,
    ) by {
        if i == fresh {
            assert(fp.take(fp.len() as int) =~= fp);
        } else {
            assert(counted(a, lines, Some(w.take(d)), count, second, i));
            assert(path_of(b, i) == path_of(a, i));
            lemma_prefix_step(path_of(a, i), w, d);
            assert(path_of(b, i) != path_of(b, fresh));
            if i != cur {
                assert(b[i] == a[i]);
            }
        }
    }
    assert forall|i: int|
        0 <= i < b.len() && strictly_before(#[trigger] path_of(b, i), fp) implies has_kid_with(
        b,
        i,
        fp[path_of(b, i).len() as int],
    ) by {
        assert(i != fresh);
        let p = path_of(a, i);
        assert(path_of(b, i) == p);
        lemma_prefix_step(p, w, d);
        if p.len() < d {
            assert(strictly_before(p, w.take(d)));
            assert(has_kid_with(a, i, w.take(d)[p.len() as int]));
            assert(has_kid_with(b, i, w.take(d)[p.len() as int]));
        } else {
            assert(w.take(d).take(d) =~= w.take(d));
            assert(p == path_of(a, cur));
            assert(i == cur);
        }
    }
}

/// The walk ends in the node of the whole stack, which takes the line's
/// samples as its own; the tree then holds the counts of the lines with the
/// new line among them.
proof fn lemma_walk_end(a: Seq<Node>, b: Seq<Node>, lines: Seq<LineView>, line: LineView, cur: int)
    requires
        0 <= cur < a.len(),
        walking(a, lines, line.frames, line.count as int, line.secondary()),
        path_of(a, cur) == line.frames,
        recounted(a, b, cur),
        b[cur].total == a[cur].total,
        b[cur].secondary == a[cur].secondary,
        b[cur].self_count == a[cur].self_count + line.count,
    ensures
        shaped(b),
        weighted(b, lines.push(line)),
        covers(b, lines.push(line)),
        forall|k: int| 0 <= k < a.len() ==> #[trigger] path_of(b, k) == path_of(a, k),
{
    let after = lines.push(line);
    lemma_recounted(a, b, cur, lines);
    assert forall|i: int| 0 <= i < b.len() implies #[trigger] counted(b, after, None, 0, 0, i) by {
        let p = path_of(a, i);
        assert(path_of(b, i) == p);
        assert(counted(a, lines, Some(line.frames), line.count as int, line.secondary(), i));
        lemma_weigh_push(lines, line, through(p));
        lemma_weigh_push(lines, line, through_second(p));
        lemma_weigh_push(lines, line, ending(p));
        if i != cur {
            assert(b[i] == a[i]);
            assert(p != path_of(a, cur));
        }
    }
    assert forall|n: int, i: int|
        0 <= n < after.len() && 0 <= i < b.len() && #[trigger] passes(b, after, n, i) implies has_kid_with(
        b,
        i,
        after[n].frames[path_of(b, i).len() as int],
    ) by {
        assert(path_of(b, i) == path_of(a, i));
        if n < lines.len() {
            assert(after[n] == lines[n]);
            assert(passes(a, lines, n, i));
            assert(has_kid_with(a, i, lines[n].frames[path_of(a, i).len() as int]));
        } else {
            assert(after[n] == line);
            assert(strictly_before(path_of(a, i), line.frames));
            assert(has_kid_with(a, i, line.frames[path_of(a, i).len() as int]));
        }
    }
}


/// Why the call tree does not take a line.
#[derive(Clone, Copy, Debug, PartialEq, Eq, Structural)]
pub enum TreeError {
    /// The line itself is not valid: no stack, a count of zero, or a second
    /// count that is negative or too large.
    Line(LineError),
    /// The line has a second count and the lines before it have none, or the
    /// other way round.
    Inconsistent,
    /// With this line the samples of the profile no longer fit in 64 bits.
    Overflow,
}

/// Whether a tree that holds `lines` takes `line`, and if not, why.
pub open spec fn spec_check(lines: Seq<LineView>, line: LineView) -> Result<(), TreeError> {
    let e = Seq::<FrameKey>::empty();
    if line.frames.len() == 0 {
        Err(TreeError::Line(LineError::EmptyStack))
    } else if line.count == 0 {
        Err(TreeError::Line(LineError::ZeroCount))
    } else if !(0 <= line.secondary() <= u64::MAX) {
        Err(TreeError::Line(LineError::InvalidCount))
    } else if lines.len() > 0 && (lines[0].delta is Some) != (line.delta is Some) {
        Err(TreeError::Inconsistent)
    } else if total_at(lines, e) + line.count > u64::MAX || secondary_at(lines, e)
        + line.secondary() > u64::MAX {
        Err(TreeError::Overflow)
    } else {
        Ok(())
    }
}

/// The call tree of a profile.
pub struct CallTree {
    pub nodes: Vec<Node>,
    /// Whether the lines carry a second count; it says nothing while the tree is empty.
    pub differential: bool,
    /// The lines that have been merged into the tree.
    pub lines: Ghost<Seq<LineView>>,
}

impl CallTree {
    /// The lines that the tree holds, in the order in which they came.
    pub open spec fn lines(&self) -> Seq<LineView> {
        self.lines@
    }

    /// The tree is a tree, and each node holds the counts of its path in the lines.
    pub open spec fn wf(&self) -> bool {
        &&& shaped(self.nodes@)
        &&& all_valid(self.lines@)
        &&& uniform(self.lines@)
        &&& self.lines@.len() > 0 ==> self.differential == (self.lines@[0].delta is Some)
        &&& weighted(self.nodes@, self.lines@)
        &&& covers(self.nodes@, self.lines@)
    }

    /// The call path of node `i`.
    pub open spec fn path(&self, i: int) -> Seq<FrameKey> {
        path_of(self.nodes@, i)
    }

    /// A tree with no lines: the root alone.
    pub fn new() -> (t: CallTree)
        ensures
            t.wf(),
            t.lines() == Seq::<LineView>::empty(),
            t.nodes@.len() == 1,
    {
        let root = Node {
            name: Vec::new(),
            annotation: Annotation::Plain,
            parent: 0,
            children: Vec::new(),
            total: 0,
            self_count: 0,
            secondary: 0,
        };
        let mut nodes: Vec<Node> = Vec::new();
        nodes.push(root);
        let t = CallTree { nodes, differential: false, lines: Ghost(Seq::empty()) };
        proof {
            let e = Seq::<FrameKey>::empty();
            assert(path_of(t.nodes@, 0) == e);
            assert(counted(t.nodes@, t.lines@, None, 0, 0, 0));
        }
        t
    }

    /// Where the frame stands among the children of `cur`, and whether it is one of them.
    fn locate(&self, cur: usize, name: &[u8], tag: Annotation) -> (r: (usize, bool))
        requires
            shaped(self.nodes@),
            cur < self.nodes@.len(),
        ensures
            r.0 <= self.nodes@[cur as int].children@.len(),
            r.1 ==> r.0 < self.nodes@[cur as int].children@.len() && self.nodes@[kid(
                self.nodes@,
                cur as int,
                r.0 as int,
            )].key() == (FrameKey { name: name@, annotation: tag }),
            !r.1 ==> belongs_at(
                self.nodes@,
                cur as int,
                r.0 as int,
                FrameKey { name: name@, annotation: tag },
            ),
    {
        let ghost k = FrameKey { name: name@, annotation: tag };
        let ghost nodes = self.nodes@;
        let n = self.nodes[cur].children.len();
        let mut j: usize = 0;
        while j < n
            invariant
                shaped(self.nodes@),
                nodes == self.nodes@,
                cur < nodes.len(),
                n == nodes[cur as int].children@.len(),
                j <= n,
                k == (FrameKey { name: name@, annotation: tag }),
                forall|m: int| 0 <= m < j ==> key_lt(nodes[#[trigger] kid(nodes, cur as int, m)].key(), k),
            decreases n - j,
        {
            let c = self.nodes[cur].children[j];
            assert(c as int == kid(nodes, cur as int, j as int));
            let child = &self.nodes[c];
            match compare_frames(child.name.as_slice(), child.annotation, name, tag) {
                Rank::Before => {
                    j += 1;
                },
                Rank::Same => {
                    return (j, true);
                },
                Rank::After => {
                    proof {
                        let ck = nodes[c as int].key();
                        crate::line::lemma_key_lt_total(ck, k);
                        assert(key_lt(k, ck));
                        assert forall|m: int| j <= m < n implies key_lt(
                            k,
                            nodes[#[trigger] kid(nodes, cur as int, m)].key(),
                        ) by {
                            if m > j {
                                assert(key_lt(
                                    nodes[kid(nodes, cur as int, j as int)].key(),
                                    nodes[kid(nodes, cur as int, m)].key(),
                                ));
                                lemma_key_lt_transitive(
                                    k,
                                    ck,
                                    nodes[kid(nodes, cur as int, m)].key(),
                                );
                            }
                        }
                    }
                    return (j, false);
                },
            }
        }
        (j, false)
    }

    /// Merges one line into the tree.
    ///
    /// The line's counts are added to every node on its stack, from the root
    /// down; nodes that are missing are made. The node of the whole stack
    /// takes the samples as its own. A line that the tree does not take
    /// leaves the tree as it was. A line that it takes leaves every node at
    /// its place, with its call path.
    pub fn add_line(&mut self, line: &StackLine) -> (r: Result<(), TreeError>)
        requires
            old(self).wf(),
        ensures
            final(self).wf(),
            r == spec_check(old(self).lines(), line@),
            r is Ok ==> final(self).lines() == old(self).lines().push(line@),
            r is Err ==> *final(self) == *old(self),
            old(self).nodes@.len() <= final(self).nodes@.len(),
            forall|i: int|
                0 <= i < old(self).nodes@.len() ==> #[trigger] final(self).path(i) == old(
                    self,
                ).path(i),
    {
        let ghost lines = self.lines@;
        let ghost w = line@.frames;
        let ghost e = Seq::<FrameKey>::empty();
        let n = line.frames.len();
        if n == 0 {
            return Err(TreeError::Line(LineError::EmptyStack));
        }
        let count = line.count;
        if count == 0 {
            return Err(TreeError::Line(LineError::ZeroCount));
        }
        let second: u64 = match line.delta {
            None => count,
            Some(d) => {
                if d >= 0 {
                    if count > u64::MAX - (d as u64) {
                        return Err(TreeError::Line(LineError::InvalidCount));
                    }
                    count + (d as u64)
                } else {
                    let m: u64 = if d == i64::MIN {
                        0x8000_0000_0000_0000
                    } else {
                        (-d) as u64
                    };
                    if m > count {
                        return Err(TreeError::Line(LineError::InvalidCount));
                    }
                    count - m
                }
            },
        };
        assert(second == line@.secondary());
        proof {
            assert(path_of(self.nodes@, 0) == e);
            assert(counted(self.nodes@, lines, None, 0, 0, 0));
            lemma_total_bounded(lines, e);
            if lines.len() > 0 {
                assert(lines[0].valid());
                assert(lines[0].frames.take(0) =~= e);
                crate::profile::lemma_weigh_term(lines, through(e), 0);
            }
        }
        if self.nodes[0].total > 0 && self.differential != line.delta.is_some() {
            return Err(TreeError::Inconsistent);
        }
        if self.nodes[0].total > u64::MAX - count || self.nodes[0].secondary > u64::MAX - second {
            return Err(TreeError::Overflow);
        }
        let ghost a0 = self.nodes@;
        self.nodes[0].total = self.nodes[0].total + count;
        self.nodes[0].secondary = self.nodes[0].secondary + second;
        proof {
            lemma_walk_start(a0, self.nodes@, lines, count as int, second as int);
            assert(w.take(0) =~= e);
        }
        let mut cur: usize = 0;
        let mut d: usize = 0;
        while d < n
            invariant
                n == line.frames.len(),
                w == line@.frames,
                w.len() == n,
                d <= n,
                cur < self.nodes@.len(),
                count > 0,
                a0.len() <= self.nodes@.len(),
                forall|i: int|
                    0 <= i < a0.len() ==> #[trigger] path_of(self.nodes@, i) == path_of(a0, i),
                walking(self.nodes@, lines, w.take(d as int), count as int, second as int),
                path_of(self.nodes@, cur as int) == w.take(d as int),
                self.lines@ == lines,
                self.differential == old(self).differential,
                all_valid(lines),
                total_at(lines, Seq::<FrameKey>::empty()) + count <= u64::MAX,
                secondary_at(lines, Seq::<FrameKey>::empty()) + second <= u64::MAX,
            decreases n - d,
        {
            let frame = &line.frames[d];
            assert(frame@ == w[d as int]);
            let (pos, found) = self.locate(cur, frame.name.as_slice(), frame.annotation);
            let ghost a = self.nodes@;
            let next: usize;
            if found {
                next = self.nodes[cur].children[pos];
                proof {
                    assert(next as int == kid(a, cur as int, pos as int));
                    assert(counted(a, lines, Some(w.take(d as int)), count as int, second as int, next as int));
                    assert(path_of(a, next as int) == path_of(a, cur as int).push(a[next as int].key()));
                    lemma_total_bounded(lines, path_of(a, next as int));
                }
                self.nodes[next].total = self.nodes[next].total + count;
                self.nodes[next].secondary = self.nodes[next].secondary + second;
                proof {
                    lemma_step_existing(
                        a,
                        self.nodes@,
                        lines,
                        w,
                        d as int,
                        cur as int,
                        pos as int,
                        count as int,
                        second as int,
                    );
                    assert forall|i: int| 0 <= i < a0.len() implies #[trigger] path_of(
                        self.nodes@,
                        i,
                    ) == path_of(a0, i) by {
                        assert(path_of(a, i) == path_of(a0, i));
                    }
                }
            } else {
                next = self.nodes.len();
                let name = copy_range(frame.name.as_slice(), 0, frame.name.len());
                assert(name@ =~= frame.name@);
                let node = Node {
                    name,
                    annotation: frame.annotation,
                    parent: cur,
                    children: Vec::new(),
                    total: count,
                    self_count: 0,
                    secondary: second,
                };
                self.nodes.push(node);
                self.nodes[cur].children.insert(pos, next);
                proof {
                    lemma_step_new(
                        a,
                        self.nodes@,
                        lines,
                        w,
                        d as int,
                        cur as int,
                        pos as int,
                        count as int,
                        second as int,
                    );
                    assert forall|i: int| 0 <= i < a0.len() implies #[trigger] path_of(
                        self.nodes@,
                        i,
                    ) == path_of(a0, i) by {
                        assert(path_of(a, i) == path_of(a0, i));
                    }
                }
            }
            cur = next;
            d += 1;
        }
        let ghost a = self.nodes@;
        proof {
            assert(w.take(n as int) =~= w);
            assert(counted(a, lines, Some(w), count as int, second as int, cur as int));
            lemma_total_bounded(lines, w);
        }
        self.nodes[cur].self_count = self.nodes[cur].self_count + count;
        self.lines = Ghost(lines.push(line@));
        self.differential = line.delta.is_some();
        proof {
            lemma_walk_end(a, self.nodes@, lines, line@, cur as int);
            assert forall|i: int| 0 <= i < a0.len() implies #[trigger] path_of(self.nodes@, i)
                == path_of(a0, i) by {
                assert(path_of(a, i) == path_of(a0, i));
            }
            let after = lines.push(line@);
            assert forall|m: int| 0 <= m < after.len() implies (#[trigger] after[m]).valid() by {
                if m < lines.len() {
                    assert(after[m] == lines[m]);
                }
            }
            assert forall|m: int| 0 <= m < after.len() implies ((#[trigger] after[m]).delta is Some)
                == (after[0].delta is Some) by {
                if m < lines.len() {
                    assert(after[m] == lines[m]);
                    assert(after[0] == lines[0]);
                }
                if lines.len() > 0 {
                    assert(after[0] == lines[0]);
                }
            }
        }
        Ok(())
    }
}


/// The frames of the children of node `i`, in their order.
pub open spec fn kid_keys(nodes: Seq<Node>, i: int) -> Seq<FrameKey> {
    Seq::new(nodes[i].children@.len(), |j: int| nodes[kid(nodes, i, j)].key())
}

/// The aggregate counts of the first `t` children of node `i`, together.
pub open spec fn kids_total(nodes: Seq<Node>, i: int, t: int) -> int
    decreases t,
{
    if t <= 0 {
        0
    } else {
        kids_total(nodes, i, t - 1) + nodes[kid(nodes, i, t - 1)].total
    }
}

proof fn lemma_kid_keys(nodes: Seq<Node>, lines: Seq<LineView>, i: int)
    requires
        shaped(nodes),
        covers(nodes, lines),
        0 <= i < nodes.len(),
    ensures
        keys_sorted(kid_keys(nodes, i)),
        keys_cover(lines, path_of(nodes, i), kid_keys(nodes, i)),
        forall|j: int|
            0 <= j < nodes[i].children@.len() ==> #[trigger] path_of(nodes, kid(nodes, i, j))
                == path_of(nodes, i).push(kid_keys(nodes, i)[j]),
{
    let ks = kid_keys(nodes, i);
    let p = path_of(nodes, i);
    assert forall|x: int, y: int| 0 <= x < y < ks.len() implies key_lt(
        #[trigger] ks[x],
        #[trigger] ks[y],
    ) by {
        assert(key_lt(nodes[kid(nodes, i, x)].key(), nodes[kid(nodes, i, y)].key()));
    }
    assert forall|n: int|
        0 <= n < lines.len() && (#[trigger] lines[n]).frames.len() > p.len() && is_prefix(
            p,
            lines[n].frames,
        ) implies exists|j: int|
        0 <= j < ks.len() && #[trigger] ks[j] == lines[n].frames[p.len() as int] by {
        assert(passes(nodes, lines, n, i));
        let f = lines[n].frames[p.len() as int];
        assert(has_kid_with(nodes, i, f));
        let j = choose|j: int|
            0 <= j < nodes[i].children@.len() && nodes[#[trigger] kid(nodes, i, j)].key() == f;
        assert(ks[j] == f);
    }
    assert forall|j: int| 0 <= j < nodes[i].children@.len() implies #[trigger] path_of(
        nodes,
        kid(nodes, i, j),
    ) == path_of(nodes, i).push(kid_keys(nodes, i)[j]) by {
        let c = kid(nodes, i, j);
        assert(i < c < nodes.len() && up(nodes, c) == i);
    }
}

proof fn lemma_kids_total(nodes: Seq<Node>, lines: Seq<LineView>, i: int, t: int)
    requires
        shaped(nodes),
        covers(nodes, lines),
        weighted(nodes, lines),
        0 <= i < nodes.len(),
        0 <= t <= nodes[i].children@.len(),
    ensures
        kids_total(nodes, i, t) == children_total(
            lines,
            path_of(nodes, i),
            kid_keys(nodes, i),
            t,
        ),
    decreases t,
{
    if t > 0 {
        lemma_kids_total(nodes, lines, i, t - 1);
        lemma_kid_keys(nodes, lines, i);
        let c = kid(nodes, i, t - 1);
        assert(i < c < nodes.len());
        assert(counted(nodes, lines, None, 0, 0, c));
    }
}

/// Every node on the way from the root to a node is a node of the tree.
pub proof fn lemma_ancestor(nodes: Seq<Node>, x: int, m: int) -> (y: int)
    requires
        shaped(nodes),
        0 <= x < nodes.len(),
        0 <= m <= path_of(nodes, x).len(),
    ensures
        0 <= y <= x,
        path_of(nodes, y) == path_of(nodes, x).take(m),
    decreases x,
{
    let p = path_of(nodes, x);
    if m == p.len() {
        assert(p.take(m) =~= p);
        x
    } else {
        assert(x > 0);
        assert(up(nodes, x) < x);
        let q = up(nodes, x);
        assert(p == path_of(nodes, q).push(nodes[x].key()));
        let y = lemma_ancestor(nodes, q, m);
        assert(path_of(nodes, q).take(m) =~= p.take(m));
        y
    }
}

/// The counts that a node holds.
pub struct Counts {
    pub total: int,
    pub self_count: int,
    pub secondary: int,
}

/// The merged tree of `lines` as a map: the call paths that the lines pass
/// through, and the empty path, each with its counts.
pub open spec fn spec_tree(lines: Seq<LineView>) -> Map<Seq<FrameKey>, Counts> {
    Map::new(
        |p: Seq<FrameKey>| p.len() == 0 || total_at(lines, p) > 0,
        |p: Seq<FrameKey>|
            Counts {
                total: total_at(lines, p),
                self_count: self_at(lines, p),
                secondary: secondary_at(lines, p),
            },
    )
}

/// Some node of the tree has the call path `p`.
pub open spec fn has_path(nodes: Seq<Node>, p: Seq<FrameKey>) -> bool {
    exists|i: int| 0 <= i < nodes.len() && #[trigger] path_of(nodes, i) == p
}

/// The node with the call path `p`.
pub open spec fn node_at(nodes: Seq<Node>, p: Seq<FrameKey>) -> int {
    choose|i: int| 0 <= i < nodes.len() && #[trigger] path_of(nodes, i) == p
}

impl View for CallTree {
    type V = Map<Seq<FrameKey>, Counts>;

    /// The tree as a map from the call paths of its nodes to their counts.
    open spec fn view(&self) -> Map<Seq<FrameKey>, Counts> {
        Map::new(
            |p: Seq<FrameKey>| has_path(self.nodes@, p),
            |p: Seq<FrameKey>|
                Counts {
                    total: self.nodes@[node_at(self.nodes@, p)].total as int,
                    self_count: self.nodes@[node_at(self.nodes@, p)].self_count as int,
                    secondary: self.nodes@[node_at(self.nodes@, p)].secondary as int,
                },
        )
    }
}

/// Every call path that the lines pass through has its node.
proof fn lemma_path_present(nodes: Seq<Node>, lines: Seq<LineView>, n: int, m: int) -> (i: int)
    requires
        shaped(nodes),
        covers(nodes, lines),
        0 <= n < lines.len(),
        0 <= m <= lines[n].frames.len(),
    ensures
        0 <= i < nodes.len(),
        path_of(nodes, i) == lines[n].frames.take(m),
    decreases m,
{
    let s = lines[n].frames;
    if m == 0 {
        assert(s.take(0) =~= Seq::<FrameKey>::empty());
        0
    } else {
        let q = lemma_path_present(nodes, lines, n, m - 1);
        assert(s.take(s.take(m - 1).len() as int) =~= s.take(m - 1));
        assert(passes(nodes, lines, n, q));
        assert(has_kid_with(nodes, q, s[m - 1]));
        let j = choose|j: int|
            0 <= j < nodes[q].children@.len() && nodes[#[trigger] kid(nodes, q, j)].key() == s[m
                - 1];
        let c = kid(nodes, q, j);
        assert(q < c < nodes.len() && up(nodes, c) == q);
        assert(s.take(m - 1).push(s[m - 1]) =~= s.take(m));
        c
    }
}

impl CallTree {
    /// The tree is the merged tree of its lines: it has a node for the empty
    /// path and for each path that a line passes through, and no other, and
    /// each node holds the counts of its path.
    pub proof fn lemma_view(&self)
        requires
            self.wf(),
        ensures
            self@ == spec_tree(self.lines()),
    {
        let nodes = self.nodes@;
        let lines = self.lines@;
        assert forall|p: Seq<FrameKey>| has_path(nodes, p) <==> (p.len() == 0 || total_at(lines, p)
            > 0) by {
            if has_path(nodes, p) {
                let i = node_at(nodes, p);
                assert(counted(nodes, lines, None, 0, 0, i));
                if i == 0 {
                    assert(p.len() == 0);
                }
            }
            if p.len() == 0 {
                assert(path_of(nodes, 0) =~= p);
            } else if total_at(lines, p) > 0 {
                let n = lemma_used_path(lines, p);
                let i = lemma_path_present(nodes, lines, n, p.len() as int);
            }
        }
        assert forall|p: Seq<FrameKey>| has_path(nodes, p) implies #[trigger] self@[p]
            == spec_tree(lines)[p] by {
            let i = node_at(nodes, p);
            assert(counted(nodes, lines, None, 0, 0, i));
        }
        assert(self@ =~= spec_tree(lines));
    }

    /// The root holds the samples of all lines.
    pub proof fn lemma_root_holds_all(&self)
        requires
            self.wf(),
        ensures
            self.nodes@[0].total == crate::profile::sample_sum(self.lines()),
    {
        assert(path_of(self.nodes@, 0) == Seq::<FrameKey>::empty());
        assert(counted(self.nodes@, self.lines@, None, 0, 0, 0));
        crate::profile::lemma_root_total(self.lines@);
    }

    /// The aggregate count of a node is its self count and the aggregate
    /// counts of its children.
    pub proof fn lemma_node_total(&self, i: int)
        requires
            self.wf(),
            0 <= i < self.nodes@.len(),
        ensures
            self.nodes@[i].total == self.nodes@[i].self_count + kids_total(
                self.nodes@,
                i,
                self.nodes@[i].children@.len() as int,
            ),
    {
        let nodes = self.nodes@;
        let lines = self.lines@;
        lemma_kid_keys(nodes, lines, i);
        lemma_kids_total(nodes, lines, i, nodes[i].children@.len() as int);
        lemma_children_all(lines, path_of(nodes, i), kid_keys(nodes, i));
        assert(counted(nodes, lines, None, 0, 0, i));
    }

    /// The children before the `t`-th child of a node hold the samples that
    /// lie between the left edge of the node and that child.
    pub proof fn lemma_kids_before(&self, i: int, t: int)
        requires
            self.wf(),
            0 <= i < self.nodes@.len(),
            0 <= t < self.nodes@[i].children@.len(),
        ensures
            kids_total(self.nodes@, i, t) == before_at(
                self.lines(),
                self.path(i),
                self.nodes@[kid(self.nodes@, i, t)].key(),
            ),
            self.path(kid(self.nodes@, i, t)) == self.path(i).push(
                self.nodes@[kid(self.nodes@, i, t)].key(),
            ),
    {
        let nodes = self.nodes@;
        let lines = self.lines@;
        lemma_kid_keys(nodes, lines, i);
        lemma_kids_total(nodes, lines, i, t);
        lemma_children_before(lines, path_of(nodes, i), kid_keys(nodes, i), t);
        assert(path_of(nodes, kid(nodes, i, t)) == path_of(nodes, i).push(kid_keys(nodes, i)[t]));
    }
}

/// Two trees that hold the same lines, in whatever order, are the same
/// tree: they have the same call paths, with the same counts.
pub proof fn lemma_trees_agree(a: &CallTree, b: &CallTree)
    requires
        a.wf(),
        b.wf(),
        a.lines().to_multiset() == b.lines().to_multiset(),
    ensures
        a@ == b@,
{
    a.lemma_view();
    b.lemma_view();
    lemma_tree_order_independent(a.lines(), b.lines());
}

/// The merged tree is the same for every order of the lines, and so for
/// every way of reading them from several sources.
pub proof fn lemma_tree_order_independent(a: Seq<LineView>, b: Seq<LineView>)
    requires
        a.to_multiset() == b.to_multiset(),
    ensures
        spec_tree(a) == spec_tree(b),
{
    assert forall|p: Seq<FrameKey>|
        total_at(a, p) == total_at(b, p) && self_at(a, p) == self_at(b, p) && secondary_at(a, p)
            == secondary_at(b, p) by {
        lemma_order_independent(a, b, p);
    }
    assert(spec_tree(a) =~= spec_tree(b));
}


/// The models of the lines, in their order.
pub open spec fn lines_view(lines: Seq<StackLine>) -> Seq<LineView> {
    Seq::new(lines.len(), |i: int| lines[i]@)
}

/// A line that the tree did not take: its place among the lines, from 0, and the reason.
#[derive(Clone, Copy, Debug, PartialEq, Eq, Structural)]
pub struct Rejected {
    pub index: usize,
    pub reason: TreeError,
}

/// The first line that a tree built from `lines` does not take: its place and the reason.
pub open spec fn first_rejected(lines: Seq<LineView>) -> Option<(int, TreeError)>
    decreases lines.len(),
{
    if lines.len() == 0 {
        None
    } else {
        match first_rejected(lines.drop_last()) {
            Some(e) => Some(e),
            None => match spec_check(lines.drop_last(), lines.last()) {
                Err(e) => Some((lines.len() - 1, e)),
                Ok(_) => None,
            },
        }
    }
}

proof fn lemma_rejected_stays(lines: Seq<LineView>, j: int)
    requires
        0 <= j <= lines.len(),
        first_rejected(lines.take(j)) is Some,
    ensures
        first_rejected(lines) == first_rejected(lines.take(j)),
    decreases lines.len() - j,
{
    if j == lines.len() {
        assert(lines.take(j) =~= lines);
    } else {
        assert(lines.take(j + 1).drop_last() =~= lines.take(j));
        lemma_rejected_stays(lines, j + 1);
    }
}

/// Merges the lines, in their order, into one call tree. It stops at the
/// first line that the tree does not take.
pub fn build(lines: &[StackLine]) -> (r: Result<CallTree, Rejected>)
    ensures
        match r {
            Ok(t) => first_rejected(lines_view(lines@)) is None && t.wf() && t.lines()
                == lines_view(lines@),
            Err(e) => first_rejected(lines_view(lines@)) == Some((e.index as int, e.reason)),
        },
{
    let ghost lv = lines_view(lines@);
    let mut tree = CallTree::new();
    let mut i: usize = 0;
    assert(lv.take(0) =~= Seq::<LineView>::empty());
    while i < lines.len()
        invariant
            i <= lines.len(),
            lv == lines_view(lines@),
            tree.wf(),
            tree.lines() == lv.take(i as int),
            first_rejected(lv.take(i as int)) is None,
        decreases lines.len() - i,
    {
        proof {
            assert(lv.take(i + 1).drop_last() =~= lv.take(i as int));
            assert(lv.take(i + 1).last() == lines@[i as int]@);
            assert(lv.take(i as int).push(lines@[i as int]@) =~= lv.take(i + 1));
        }
        match tree.add_line(&lines[i]) {
            Ok(_) => {},
            Err(reason) => {
                proof {
                    lemma_rejected_stays(lv, i + 1);
                }
                return Err(Rejected { index: i, reason });
            },
        }
        i += 1;
    }
    assert(lv.take(i as int) =~= lv);
    Ok(tree)
}

impl CallTree {
    /// The change of node `i` between the two profiles: its second count less its count.
    pub open spec fn spec_delta(&self, i: int) -> int {
        self.nodes@[i].secondary - self.nodes@[i].total
    }

    pub fn delta(&self, i: usize) -> (d: i128)
        requires
            i < self.nodes@.len(),
        ensures
            d == self.spec_delta(i as int),
    {
        (self.nodes[i].secondary as i128) - (self.nodes[i].total as i128)
    }

    /// `m` is the size of the largest change of a node, whatever its direction.
    pub open spec fn is_largest_change(&self, m: u64) -> bool {
        &&& forall|i: int| 0 <= i < self.nodes@.len() ==> -m <= #[trigger] self.spec_delta(i) <= m
        &&& exists|i: int|
            0 <= i < self.nodes@.len() && (#[trigger] self.spec_delta(i) == m
                || self.spec_delta(i) == -m)
    }

    /// The size of the largest change of a node, whatever its direction.
    pub fn max_delta(&self) -> (m: u64)
        requires
            self.nodes@.len() > 0,
        ensures
            self.is_largest_change(m),
    {
        let mut m: u64 = 0;
        let mut i: usize = 0;
        let ghost mut at: int = 0;
        while i < self.nodes.len()
            invariant
                i <= self.nodes@.len(),
                self.nodes@.len() > 0,
                forall|k: int| 0 <= k < i ==> -m <= #[trigger] self.spec_delta(k) <= m,
                i == 0 ==> m == 0,
                i > 0 ==> 0 <= at < i && (self.spec_delta(at) == m || self.spec_delta(at) == -m),
            decreases self.nodes@.len() - i,
        {
            let d = self.delta(i);
            let size: u64 = if d >= 0 {
                d as u64
            } else {
                (-d) as u64
            };
            if size > m || i == 0 {
                m = size;
                proof {
                    at = i as int;
                }
            }
            i += 1;
        }
        m
    }

    /// The child of `parent` with the given frame, if there is one.
    pub fn find_child(&self, parent: usize, name: &[u8], tag: Annotation) -> (r: Option<usize>)
        requires
            shaped(self.nodes@),
            parent < self.nodes@.len(),
        ensures
            match r {
                Some(c) => parent < c < self.nodes@.len() && self.nodes@[c as int].parent
                    == parent && self.nodes@[c as int].key() == (FrameKey {
                    name: name@,
                    annotation: tag,
                }),
                None => !has_kid_with(
                    self.nodes@,
                    parent as int,
                    FrameKey { name: name@, annotation: tag },
                ),
            },
    {
        let (pos, found) = self.locate(parent, name, tag);
        if found {
            let c = self.nodes[parent].children[pos];
            assert(c as int == kid(self.nodes@, parent as int, pos as int));
            Some(c)
        } else {
            proof {
                lemma_no_kid_with(
                    self.nodes@,
                    parent as int,
                    pos as int,
                    FrameKey { name: name@, annotation: tag },
                );
            }
            None
        }
    }

    /// The node with the call path `path`, if the tree has one.
    pub fn lookup(&self, path: &[Frame]) -> (r: Option<usize>)
        requires
            shaped(self.nodes@),
        ensures
            match r {
                Some(i) => i < self.nodes@.len() && self.path(i as int) == frames_view(path@),
                None => !has_path(self.nodes@, frames_view(path@)),
            },
    {
        let ghost w = frames_view(path@);
        let ghost nodes = self.nodes@;
        let mut cur: usize = 0;
        let mut d: usize = 0;
        assert(w.take(0) =~= path_of(nodes, 0));
        while d < path.len()
            invariant
                d <= path.len(),
                w == frames_view(path@),
                nodes == self.nodes@,
                shaped(nodes),
                cur < nodes.len(),
                path_of(nodes, cur as int) == w.take(d as int),
            decreases path.len() - d,
        {
            let frame = &path[d];
            assert(frame@ == w[d as int]);
            match self.find_child(cur, frame.name.as_slice(), frame.annotation) {
                Some(c) => {
                    assert(up(nodes, c as int) == cur);
                    assert(w.take(d as int).push(w[d as int]) =~= w.take(d + 1));
                    cur = c;
                },
                None => {
                    proof {
                        if has_path(nodes, w) {
                            let x = node_at(nodes, w);
                            let y = lemma_ancestor(nodes, x, d + 1);
                            assert(path_of(nodes, y).len() == d + 1);
                            assert(y > 0);
                            assert(up(nodes, y) < y);
                            let q = up(nodes, y);
                            assert(path_of(nodes, y) == path_of(nodes, q).push(nodes[y].key()));
                            assert(path_of(nodes, q) =~= w.take(d + 1).drop_last());
                            assert(w.take(d + 1).drop_last() =~= w.take(d as int));
                            assert(q == cur);
                            assert(nodes[y].key() == w.take(d + 1).last());
                            assert(listed(nodes, y));
                            let j = choose|j: int|
                                0 <= j < nodes[up(nodes, y)].children@.len() && #[trigger] kid(
                                    nodes,
                                    up(nodes, y),
                                    j,
                                ) == y;
                            assert(nodes[kid(nodes, cur as int, j)].key() == w[d as int]);
                            assert(has_kid_with(nodes, cur as int, w[d as int]));
                        }
                    }
                    return None;
                },
            }
            d += 1;
        }
        assert(w.take(d as int) =~= w);
        Some(cur)
    }
}


impl CallTree {
    /// The profile is differential: it has lines, and they carry a second count.
    pub open spec fn spec_differential(&self) -> bool {
        self.lines@.len() > 0 && self.lines@[0].delta is Some
    }

    /// Whether the profile is differential.
    pub fn is_differential(&self) -> (r: bool)
        requires
            self.wf(),
        ensures
            r == self.spec_differential(),
    {
        proof {
            let e = Seq::<FrameKey>::empty();
            let lines = self.lines@;
            assert(path_of(self.nodes@, 0) == e);
            assert(counted(self.nodes@, lines, None, 0, 0, 0));
            lemma_total_bounded(lines, e);
            if lines.len() > 0 {
                assert(lines[0].valid());
                assert(lines[0].frames.take(0) =~= e);
                crate::profile::lemma_weigh_term(lines, through(e), 0);
            }
        }
        self.nodes[0].total > 0 && self.differential
    }
}

} // verus!
