use crate::heap::Object;
use crate::model::{collected, edge, is_path, node, reaches, rooted, HeapModel};
use vstd::prelude::*;

verus! {

proof fn lemma_reaches_trans(g: Seq<Option<Object>>, a: int, b: int, c: int)
    requires
        reaches(g, a, b),
        reaches(g, b, c),
    ensures
        reaches(g, a, c),
{
    let p = choose|p: Seq<int>| #[trigger] is_path(g, p) && p[0] == a && p.last() == b;
    let q = choose|q: Seq<int>| #[trigger] is_path(g, q) && q[0] == b && q.last() == c;
    let r = p.drop_last().add(q);
    let n = p.len() - 1;
    assert forall|i: int| 0 <= i < r.len() - 1 implies #[trigger] edge(g, r[i], r[i + 1]) by {
        if i < n - 1 {
            assert(edge(g, p[i], p[i + 1]));
        } else if i == n - 1 {
            assert(edge(g, p[i], p[i + 1]));
            assert(r[i + 1] == q[0]);
        } else {
            assert(r[i] == q[i - n]);
            assert(r[i + 1] == q[(i - n) + 1]);
            assert(edge(g, q[i - n], q[(i - n) + 1]));
        }
    }
    if n == 0 {
        assert(r =~= q);
    }
    assert(is_path(g, r));
}

/// Every cell on a path from `a` is reached from `a`.
proof fn lemma_path_prefix(g: Seq<Option<Object>>, p: Seq<int>, i: int)
    requires
        is_path(g, p),
        0 <= i < p.len(),
    ensures
        reaches(g, p[0], p[i]),
{
    let q = p.subrange(0, i + 1);
    assert forall|j: int| 0 <= j < q.len() - 1 implies #[trigger] edge(g, q[j], q[j + 1]) by {
        assert(edge(g, p[j], p[j + 1]));
    }
    assert(is_path(g, q));
}

proof fn lemma_rooted_node(g: Seq<Option<Object>>, roots: Seq<usize>, b: int)
    requires
        rooted(g, roots, b),
    ensures
        node(g, b),
{
    let i = choose|i: int| 0 <= i < roots.len() && #[trigger] reaches(g, roots[i] as int, b);
    let p = choose|p: Seq<int>| #[trigger] is_path(g, p) && p[0] == roots[i] as int && p.last() == b;
    if p.len() > 1 {
        assert(edge(g, p[p.len() - 2], p[(p.len() - 2) + 1]));
    }
}

/// A cell that the roots reach is still in the heap list after a
/// collection, and unmarked.
pub proof fn lemma_reachable_survive(pre: HeapModel, roots: Seq<usize>, post: HeapModel, a: int)
    requires
        collected(pre, roots, post),
        rooted(pre.graph(), roots, a),
    ensures
        post.order.contains(a),
        !post.marked(a),
{
    assert(post.live(a));
}

/// A cell that the roots do not reach is gone from the heap list after a
/// collection.
pub proof fn lemma_unreachable_reclaimed(pre: HeapModel, roots: Seq<usize>, post: HeapModel, a: int)
    requires
        collected(pre, roots, post),
        !rooted(pre.graph(), roots, a),
    ensures
        !post.order.contains(a),
        !post.live(a),
{
    assert(!post.live(a));
}

/// The members of a cycle live or die together: where each of `a` and `b`
/// reaches the other, a collection keeps both or reclaims both.
pub proof fn lemma_cycle_together(pre: HeapModel, roots: Seq<usize>, post: HeapModel, a: int, b: int)
    requires
        collected(pre, roots, post),
        reaches(pre.graph(), a, b),
        reaches(pre.graph(), b, a),
    ensures
        post.live(a) <==> post.live(b),
{
    let g = pre.graph();
    if rooted(g, roots, a) {
        let i = choose|i: int| 0 <= i < roots.len() && #[trigger] reaches(g, roots[i] as int, a);
        lemma_reaches_trans(g, roots[i] as int, a, b);
        assert(rooted(g, roots, b));
    }
    if rooted(g, roots, b) {
        let i = choose|i: int| 0 <= i < roots.len() && #[trigger] reaches(g, roots[i] as int, b);
        lemma_reaches_trans(g, roots[i] as int, b, a);
        assert(rooted(g, roots, a));
    }
}

/// A second collection with the same roots keeps the same cells as the
/// first, and finds every survivor unmarked beforehand.
pub proof fn lemma_collect_twice(m0: HeapModel, roots: Seq<usize>, m1: HeapModel, m2: HeapModel)
    requires
        collected(m0, roots, m1),
        collected(m1, roots, m2),
    ensures
        m1.all_unmarked(),
        forall|a: int| #[trigger] m2.live(a) <==> m1.live(a),
{
    let g0 = m0.graph();
    let g1 = m1.graph();
    assert forall|a: int| node(g1, a) <==> #[trigger] m1.live(a) by {}
    assert forall|a: int, b: int| #[trigger] edge(g1, a, b) implies edge(g0, a, b) by {
        assert(m1.live(a) && m1.live(b));
        lemma_rooted_node(g0, roots, a);
        lemma_rooted_node(g0, roots, b);
        assert(g1[a - 1] == Some(m1.cell(a).object));
    }
    assert forall|a: int| #[trigger] m2.live(a) <==> m1.live(a) by {
        if rooted(g1, roots, a) {
            let i = choose|i: int| 0 <= i < roots.len() && #[trigger] reaches(g1, roots[i] as int, a);
            let p = choose|p: Seq<int>| #[trigger] is_path(g1, p) && p[0] == roots[i] as int && p.last() == a;
            assert forall|j: int| 0 <= j < p.len() - 1 implies #[trigger] edge(g0, p[j], p[j + 1]) by {
                assert(edge(g1, p[j], p[j + 1]));
            }
            assert(m1.live(p[0]));
            lemma_rooted_node(g0, roots, p[0]);
            assert(is_path(g0, p));
            assert(reaches(g0, roots[i] as int, a));
            assert(rooted(g0, roots, a));
        }
        if m1.live(a) {
            assert(rooted(g0, roots, a));
            let i = choose|i: int| 0 <= i < roots.len() && #[trigger] reaches(g0, roots[i] as int, a);
            let p = choose|p: Seq<int>| #[trigger] is_path(g0, p) && p[0] == roots[i] as int && p.last() == a;
            assert forall|j: int| 0 <= j < p.len() implies #[trigger] m1.live(p[j]) by {
                lemma_path_prefix(g0, p, j);
                assert(rooted(g0, roots, p[j]));
            }
            assert forall|j: int| 0 <= j < p.len() - 1 implies #[trigger] edge(g1, p[j], p[j + 1]) by {
                assert(edge(g0, p[j], p[j + 1]));
                assert(m1.live(p[j]));
                assert(m1.live(p[j + 1]));
                assert(g1[p[j] - 1] == Some(m1.cell(p[j]).object));
            }
            assert(m1.live(p[0]));
            assert(is_path(g1, p));
            assert(reaches(g1, roots[i] as int, a));
            assert(rooted(g1, roots, a));
        }
    }
}

} // verus!
