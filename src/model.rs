use crate::heap::Object;
use vstd::prelude::*;

verus! {

/// What a cell is, apart from its link in the heap list.
pub struct CellModel {
    pub marked: bool,
    pub object: Object,
}

/// The heap as a mathematical value.
///
/// The cell at address `a` sits in `slots[a - 1]`; a `None` slot has been
/// reclaimed. `order` lists the addresses of the heap list from its head.
pub struct HeapModel {
    pub slots: Seq<Option<CellModel>>,
    pub order: Seq<int>,
}


/// `a` is the address of a cell that the object graph `g` holds.
pub open spec fn node(g: Seq<Option<Object>>, a: int) -> bool {
    1 <= a <= g.len() && g[a - 1] is Some
}

/// The cell at `a` is a pair with an edge to the cell at `b`.
pub open spec fn edge(g: Seq<Option<Object>>, a: int, b: int) -> bool {
    &&& node(g, a)
    &&& node(g, b)
    &&& match g[a - 1]->Some_0 {
        Object::Pair(x, y) => b == x@ || b == y@,
        Object::Integer(_) => false,
    }
}

/// `p` is a walk through the object graph along its edges.
pub open spec fn is_path(g: Seq<Option<Object>>, p: Seq<int>) -> bool {
    &&& p.len() > 0
    &&& node(g, p[0])
    &&& forall|i: int| 0 <= i < p.len() - 1 ==> #[trigger] edge(g, p[i], p[i + 1])
}

/// `b` is reached from `a` by zero or more edges.
pub open spec fn reaches(g: Seq<Option<Object>>, a: int, b: int) -> bool {
    exists|p: Seq<int>| #[trigger] is_path(g, p) && p[0] == a && p.last() == b
}

/// `b` is reached from one of the roots.
pub open spec fn rooted(g: Seq<Option<Object>>, roots: Seq<usize>, b: int) -> bool {
    exists|i: int| 0 <= i < roots.len() && #[trigger] reaches(g, roots[i] as int, b)
}

/// The number of live cells whose mark is not set.
pub open spec fn unmarked_count(s: Seq<Option<CellModel>>) -> nat
    decreases s.len(),
{
    if s.len() == 0 {
        0
    } else {
        unmarked_count(s.drop_last()) + match s.last() {
            Some(c) => if c.marked {
                0nat
            } else {
                1nat
            },
            None => 0nat,
        }
    }
}

impl HeapModel {
    pub open spec fn live(self, a: int) -> bool {
        1 <= a <= self.slots.len() && self.slots[a - 1] is Some
    }

    pub open spec fn cell(self, a: int) -> CellModel {
        self.slots[a - 1]->Some_0
    }

    pub open spec fn marked(self, a: int) -> bool {
        self.live(a) && self.cell(a).marked
    }

    pub open spec fn all_unmarked(self) -> bool {
        forall|a: int| !#[trigger] self.marked(a)
    }

    /// The object graph: the value of every live cell.
    pub open spec fn graph(self) -> Seq<Option<Object>> {
        Seq::new(
            self.slots.len(),
            |i: int|
                match self.slots[i] {
                    Some(c) => Some(c.object),
                    None => None,
                },
        )
    }

    /// The heap list is simple and holds exactly the live cells.
    pub open spec fn list_intact(self) -> bool {
        &&& self.order.no_duplicates()
        &&& forall|a: int| self.live(a) <==> #[trigger] self.order.contains(a)
    }

    /// The addresses of the marked cells.
    pub open spec fn marked_set(self) -> Set<int> {
        Set::new(|a: int| self.marked(a))
    }
}


pub(crate) proof fn lemma_reaches_self(g: Seq<Option<Object>>, a: int)
    requires
        node(g, a),
    ensures
        reaches(g, a, a),
{
    let p = seq![a];
    assert(is_path(g, p));
}

pub(crate) proof fn lemma_reaches_prepend(g: Seq<Option<Object>>, a: int, b: int, c: int)
    requires
        edge(g, a, b),
        reaches(g, b, c),
    ensures
        reaches(g, a, c),
{
    let p = choose|p: Seq<int>| #[trigger] is_path(g, p) && p[0] == b && p.last() == c;
    let q = seq![a].add(p);
    assert forall|i: int| 0 <= i < q.len() - 1 implies #[trigger] edge(g, q[i], q[i + 1]) by {
        if i > 0 {
            assert(q[i] == p[i - 1]);
            assert(q[i + 1] == p[i]);
            assert(edge(g, p[i - 1], p[(i - 1) + 1]));
        }
    }
    assert(is_path(g, q));
}

/// Along a path that starts at a marked cell, a mark set closed under edges
/// reaches its end.
pub(crate) proof fn lemma_closed_path(m: HeapModel, g: Seq<Option<Object>>, p: Seq<int>)
    requires
        forall|b: int, c: int| m.marked(b) && #[trigger] edge(g, b, c) ==> m.marked(c),
        is_path(g, p),
        m.marked(p[0]),
    ensures
        m.marked(p.last()),
    decreases p.len(),
{
    if p.len() > 1 {
        let q = p.drop_last();
        assert forall|i: int| 0 <= i < q.len() - 1 implies #[trigger] edge(g, q[i], q[i + 1]) by {
            assert(edge(g, p[i], p[i + 1]));
        }
        lemma_closed_path(m, g, q);
        assert(edge(g, p[p.len() - 2], p[(p.len() - 2) + 1]));
    }
}

pub(crate) proof fn lemma_unmarked_count(s1: Seq<Option<CellModel>>, s2: Seq<Option<CellModel>>, k: int)
    requires
        s1.len() == s2.len(),
        forall|i: int| 0 <= i < s1.len() ==> (#[trigger] s1[i] is Some) == (s2[i] is Some),
        forall|i: int| 0 <= i < s1.len() && #[trigger] s1[i] is Some && s1[i]->Some_0.marked ==> s2[i]->Some_0.marked,
    ensures
        unmarked_count(s2) <= unmarked_count(s1),
        0 <= k < s1.len() && s1[k] is Some && !s1[k]->Some_0.marked && s2[k]->Some_0.marked
            ==> unmarked_count(s2) < unmarked_count(s1),
    decreases s1.len(),
{
    if s1.len() > 0 {
        let n = s1.len() - 1;
        assert(s1[n] is Some == s2[n] is Some);
        lemma_unmarked_count(s1.drop_last(), s2.drop_last(), k);
    }
}


/// The predicate "marked in `m`", as a value for `Seq::filter`.
pub open spec fn marked_in(m: HeapModel) -> spec_fn(int) -> bool {
    |a: int| m.marked(a)
}


/// A mark set that holds the live roots, is closed under edges and holds
/// only what the roots reach, is exactly what the roots reach.
pub(crate) proof fn lemma_marks_rooted(m: HeapModel, g: Seq<Option<Object>>, roots: Seq<usize>)
    requires
        forall|b: int|
            #[trigger] m.marked(b) ==> exists|i: int| 0 <= i < roots.len() && #[trigger] reaches(g, roots[i] as int, b),
        forall|b: int, c: int| m.marked(b) && #[trigger] edge(g, b, c) ==> m.marked(c),
        forall|i: int| 0 <= i < roots.len() && node(g, #[trigger] roots[i] as int) ==> m.marked(roots[i] as int),
    ensures
        forall|b: int| #[trigger] m.marked(b) <==> rooted(g, roots, b),
{
    assert forall|b: int| #[trigger] m.marked(b) <==> rooted(g, roots, b) by {
        if rooted(g, roots, b) {
            let i = choose|i: int| 0 <= i < roots.len() && #[trigger] reaches(g, roots[i] as int, b);
            let p = choose|p: Seq<int>| #[trigger] is_path(g, p) && p[0] == roots[i] as int && p.last() == b;
            assert(m.marked(roots[i] as int));
            lemma_closed_path(m, g, p);
        }
    }
}

/// What one collection leaves: the heap list intact and holding, in their
/// former order, exactly the cells that the roots reach, all unmarked and
/// with their values unchanged.
pub open spec fn collected(pre: HeapModel, roots: Seq<usize>, post: HeapModel) -> bool {
    let g = pre.graph();
    &&& post.list_intact()
    &&& post.slots.len() == pre.slots.len()
    &&& forall|a: int| #[trigger] post.live(a) <==> rooted(g, roots, a)
    &&& post.order == pre.order.filter(|a: int| rooted(g, roots, a))
    &&& post.all_unmarked()
    &&& forall|a: int| #[trigger] post.live(a) ==> post.cell(a).object == pre.cell(a).object
}

} // verus!
