use crate::just_non_null::JustNonNull;
use crate::model::{
    collected, edge, lemma_marks_rooted, lemma_reaches_prepend, lemma_reaches_self,
    lemma_unmarked_count, marked_in, node, reaches, rooted, unmarked_count, CellModel, HeapModel,
};
use vstd::prelude::*;

verus! {

/// The value held by a heap cell.
#[derive(Clone, Copy)]
pub enum Object {
    /// A leaf with an integer payload and no outgoing edges.
    Integer(i64),
    /// Two outgoing edges, first and second, to other cells (or the same one).
    Pair(JustNonNull<TrackedObject>, JustNonNull<TrackedObject>),
}

/// One allocated heap cell: its mark flag, its value and its link in the
/// list of all cells.
#[derive(Clone, Copy)]
pub struct TrackedObject {
    marked: bool,
    object: Object,
    next: Option<JustNonNull<TrackedObject>>,
}

/// The heap: an arena of cells, threaded into a singly-linked list from
/// `head` through each cell's `next`. Reclaimed slots are never reused.
pub struct Heap {
    cells: Vec<Option<TrackedObject>>,
    head: Option<JustNonNull<TrackedObject>>,
    order: Ghost<Seq<int>>,
}

impl View for TrackedObject {
    type V = CellModel;

    closed spec fn view(&self) -> CellModel {
        CellModel { marked: self.marked, object: self.object }
    }
}

pub open spec fn slot_model(c: Option<TrackedObject>) -> Option<CellModel> {
    match c {
        Some(t) => Some(t@),
        None => None,
    }
}

pub open spec fn link(h: Option<JustNonNull<TrackedObject>>) -> Option<int> {
    match h {
        Some(p) => Some(p@),
        None => None,
    }
}

impl View for Heap {
    type V = HeapModel;

    closed spec fn view(&self) -> HeapModel {
        HeapModel { slots: self.cells@.map_values(|c: Option<TrackedObject>| slot_model(c)), order: self.order@ }
    }
}

impl Heap {
    /// The links agree with the ghost order of the list, and the list holds
    /// every live cell once.
    pub closed spec fn wf(&self) -> bool {
        let s = self.cells@;
        let o = self.order@;
        &&& o.no_duplicates()
        &&& forall|j: int| 0 <= j < o.len() ==> 1 <= #[trigger] o[j] <= s.len() && s[o[j] - 1] is Some
        &&& forall|i: int| 0 <= i < s.len() && #[trigger] s[i] is Some ==> o.contains(i + 1)
        &&& link(self.head) == (if o.len() == 0 {
            None
        } else {
            Some(o[0])
        })
        &&& forall|j: int|
            0 <= j < o.len() ==> link(#[trigger] s[o[j] - 1]->Some_0.next) == (if j + 1 < o.len() {
                Some(o[j + 1])
            } else {
                None
            })
    }

    pub proof fn lemma_wf_list_intact(&self)
        requires
            self.wf(),
        ensures
            self@.list_intact(),
    {
        let m = self@;
        assert forall|a: int| m.live(a) <==> #[trigger] m.order.contains(a) by {
            if m.order.contains(a) {
                let j = choose|j: int| 0 <= j < m.order.len() && m.order[j] == a;
                assert(1 <= self.order@[j] <= self.cells@.len());
            }
            if m.live(a) {
                assert(self.cells@[a - 1] is Some);
            }
        }
    }

    /// An empty heap.
    pub fn new() -> (r: Heap)
        ensures
            r.wf(),
            r@.slots.len() == 0,
            r@.order.len() == 0,
    {
        let r = Heap { cells: Vec::new(), head: None, order: Ghost(Seq::empty()) };
        assert(r@.slots =~= Seq::empty());
        r
    }

    /// The number of cells ever allocated, reclaimed ones included.
    pub fn num_slots(&self) -> (r: usize)
        ensures
            r == self@.slots.len(),
    {
        self.cells.len()
    }

    /// Whether `h` denotes a cell that has not been reclaimed.
    pub fn is_live(&self, h: JustNonNull<TrackedObject>) -> (r: bool)
        ensures
            r == self@.live(h@),
    {
        let a = h.as_ptr();
        a <= self.cells.len() && self.cells[a - 1].is_some()
    }

    /// Whether `h` denotes a live cell whose mark is set.
    pub fn is_marked(&self, h: JustNonNull<TrackedObject>) -> (r: bool)
        ensures
            r == self@.marked(h@),
    {
        let a = h.as_ptr();
        if a > self.cells.len() {
            return false;
        }
        match &self.cells[a - 1] {
            Some(c) => c.marked,
            None => false,
        }
    }
}

impl TrackedObject {
    /// Allocates a cell holding `object`, unmarked, and prepends it to the
    /// heap list. Returns a handle to it.
    pub fn new(heap: &mut Heap, object: Object) -> (r: JustNonNull<TrackedObject>)
        requires
            old(heap).wf(),
            old(heap)@.slots.len() < usize::MAX,
        ensures
            final(heap).wf(),
            r@ == old(heap)@.slots.len() + 1,
            final(heap)@.slots == old(heap)@.slots.push(Some(CellModel { marked: false, object })),
            final(heap)@.order == seq![r@].add(old(heap)@.order),
    {
        let addr: usize = heap.cells.len() + 1;
        let h = JustNonNull::from_mut(addr);
        let cell = TrackedObject { marked: false, object, next: heap.head };
        heap.cells.push(Some(cell));
        heap.head = Some(h);
        let ghost old_order = heap.order@;
        heap.order = Ghost(seq![addr as int].add(old_order));
        proof {
            let o = heap.order@;
            let s = heap.cells@;
            assert(o[0] == addr as int);
            assert forall|j: int| 1 <= j < o.len() implies o[j] == old_order[j - 1] by {}
            assert forall|j: int| 0 <= j < o.len() implies 1 <= #[trigger] o[j] <= s.len() && s[o[j] - 1] is Some by {
                if j > 0 {
                    assert(o[j] == old_order[j - 1]);
                }
            }
            assert forall|i: int| 0 <= i < s.len() && #[trigger] s[i] is Some implies o.contains(i + 1) by {
                if i + 1 == addr {
                    assert(o[0] == i + 1);
                } else {
                    let j = choose|j: int| 0 <= j < old_order.len() && old_order[j] == i + 1;
                    assert(o[j + 1] == i + 1);
                }
            }
            assert forall|j: int|
                0 <= j < o.len() implies link(#[trigger] s[o[j] - 1]->Some_0.next) == (if j + 1 < o.len() {
                    Some(o[j + 1])
                } else {
                    None
                }) by {
                if j > 0 {
                    assert(o[j] == old_order[j - 1]);
                    assert(old_order[j - 1] < addr);
                }
            }
            assert(o.no_duplicates()) by {
                assert forall|x: int, y: int| 0 <= x < o.len() && 0 <= y < o.len() && x != y implies o[x] != o[y] by {
                    if x > 0 && y > 0 {
                        assert(o[x] == old_order[x - 1]);
                        assert(o[y] == old_order[y - 1]);
                    } else if x > 0 {
                        assert(old_order[x - 1] < addr);
                    } else if y > 0 {
                        assert(old_order[y - 1] < addr);
                    }
                }
            }
            assert(heap@.slots =~= old(heap)@.slots.push(Some(CellModel { marked: false, object })));
        }
        h
    }
}

/// Marks the cell at `addr` and, depth first, every cell reached from it
/// that is not marked yet. A marked cell ends the walk, so cycles end too.
fn mark(heap: &mut Heap, addr: usize)
    requires
        old(heap).wf(),
    ensures
        final(heap).wf(),
        final(heap)@.order == old(heap)@.order,
        final(heap)@.graph() == old(heap)@.graph(),
        forall|b: int| old(heap)@.marked(b) ==> #[trigger] final(heap)@.marked(b),
        node(old(heap)@.graph(), addr as int) ==> final(heap)@.marked(addr as int),
        forall|b: int|
            #[trigger] final(heap)@.marked(b) && !old(heap)@.marked(b) ==> reaches(old(heap)@.graph(), addr as int, b),
        forall|b: int, c: int|
            final(heap)@.marked(b) && !old(heap)@.marked(b) && #[trigger] edge(old(heap)@.graph(), b, c)
                ==> final(heap)@.marked(c),
    decreases unmarked_count(old(heap)@.slots),
{
    let ghost g = heap@.graph();
    if addr == 0 || addr > heap.cells.len() {
        return;
    }
    let i: usize = addr - 1;
    let c = match heap.cells[i] {
        Some(c) => c,
        None => {
            return;
        },
    };
    if c.marked {
        return;
    }
    let ghost m0 = heap@;
    heap.cells[i] = Some(TrackedObject { marked: true, object: c.object, next: c.next });
    let ghost m1 = heap@;
    proof {
        assert(m1.slots =~= m0.slots.update(i as int, Some(CellModel { marked: true, object: c.object })));
        assert(m1.graph() =~= g);
        lemma_unmarked_count(m0.slots, m1.slots, i as int);
        lemma_reaches_self(g, addr as int);
    }
    match c.object {
        Object::Integer(_) => {},
        Object::Pair(x, y) => {
            mark(heap, x.as_ptr());
            let ghost m2 = heap@;
            proof {
                assert forall|j: int|
                    0 <= j < m1.slots.len() && #[trigger] m1.slots[j] is Some && m1.slots[j]->Some_0.marked
                        implies m2.slots[j]->Some_0.marked by {
                    assert(m1.marked(j + 1));
                    assert(m2.marked(j + 1));
                }
                lemma_unmarked_count(m1.slots, m2.slots, 0);
            }
            mark(heap, y.as_ptr());
            let ghost m3 = heap@;
            proof {
                assert forall|b: int| #[trigger] m3.marked(b) && !m0.marked(b) implies reaches(g, addr as int, b) by {
                    if b != addr {
                        if !m2.marked(b) {
                            lemma_reaches_prepend(g, addr as int, y@, b);
                        } else {
                            lemma_reaches_prepend(g, addr as int, x@, b);
                        }
                    }
                }
                assert forall|b: int, c: int|
                    m3.marked(b) && !m0.marked(b) && #[trigger] edge(g, b, c) implies m3.marked(c) by {
                    if b != addr && m2.marked(b) {
                        assert(m2.marked(c));
                    }
                }
            }
        },
    }
}

/// Reclaims every unmarked cell, unlinking it from the heap list, and clears
/// the mark of every cell that stays. A single pass: the cursor is the link
/// slot that precedes the current cell (the head, or the `next` of the last
/// cell kept), and an unlinked cell is replaced in that slot by its successor.
#[verifier::spinoff_prover]
#[verifier::rlimit(50)]
pub fn sweep(heap: &mut Heap)
    requires
        old(heap).wf(),
    ensures
        final(heap).wf(),
        final(heap)@.slots.len() == old(heap)@.slots.len(),
        final(heap)@.order == old(heap)@.order.filter(marked_in(old(heap)@)),
        final(heap)@.list_intact(),
        final(heap)@.order.len() == old(heap)@.marked_set().len(),
        forall|a: int| #[trigger] final(heap)@.live(a) <==> old(heap)@.marked(a),
        final(heap)@.all_unmarked(),
        forall|a: int| #[trigger] final(heap)@.live(a) ==> final(heap)@.cell(a).object == old(heap)@.cell(a).object,
{
    let ghost m0 = heap@;
    let ghost o0 = m0.order;
    let ghost n: int = o0.len() as int;
    let ghost pred = marked_in(m0);
    let ghost mut kept: Seq<int> = Seq::empty();
    let ghost mut k: int = 0;
    proof {
        heap.lemma_wf_list_intact();
        reveal(Seq::filter);
        assert(o0.subrange(0, 0).filter(pred) =~= Seq::<int>::empty());
        assert(heap@.order =~= kept.add(o0.subrange(0, n)));
    }
    let mut prev: Option<usize> = None;
    let mut cur: Option<JustNonNull<TrackedObject>> = heap.head;
    while cur.is_some()
        invariant
            heap.wf(),
            heap.cells@.len() == m0.slots.len(),
            0 <= k <= n,
            n == o0.len(),
            o0 == m0.order,
            pred == marked_in(m0),
            kept == o0.subrange(0, k).filter(pred),
            heap@.order == kept.add(o0.subrange(k, n)),
            prev is None <==> kept.len() == 0,
            prev matches Some(p) ==> p as int == kept.last(),
            link(cur) == (if k < n {
                Some(o0[k])
            } else {
                None
            }),
            forall|j: int| 0 <= j < kept.len() ==> !heap@.marked(#[trigger] kept[j]),
            forall|j: int| k <= j < n ==> heap@.slots[#[trigger] o0[j] - 1] == m0.slots[o0[j] - 1],
            forall|i: int|
                0 <= i < m0.slots.len() && #[trigger] heap@.slots[i] is Some ==> m0.slots[i] is Some
                    && heap@.slots[i]->Some_0.object == m0.slots[i]->Some_0.object,
        decreases n - k,
    {
        let h = cur.unwrap();
        let a: usize = h.as_ptr();
        let ghost m1 = heap@;
        let ghost o1 = m1.order;
        let ghost r: int = kept.len() as int;
        let ghost s1 = heap.cells@;
        proof {
            assert(o1[r] == o0[k]);
            assert forall|j: int| k <= j < n implies #[trigger] o0[j] == o1[r + (j - k)] by {}
            assert(1 <= o1[r] <= s1.len());
            assert(o1[r] == o0[k]);
            assert(1 <= a <= heap.cells@.len());
        }
        let c = match heap.cells[a - 1] {
            Some(c) => c,
            None => {
                proof {
                    assert(false);
                }
                return;
            },
        };
        if !c.marked {
            heap.cells[a - 1] = None;
            match prev {
                None => {
                    heap.head = c.next;
                },
                Some(p) => {
                    match heap.cells[p - 1] {
                        Some(pc) => {
                            heap.cells[p - 1] = Some(TrackedObject { marked: pc.marked, object: pc.object, next: c.next });
                        },
                        None => {},
                    }
                },
            }
            heap.order = Ghost(o1.remove(r));
            cur = c.next;
            proof {
                reveal(Seq::filter);
                assert(o0.subrange(0, k + 1).drop_last() =~= o0.subrange(0, k));
                assert(!pred(o0[k]));
                k = k + 1;
                assert(heap@.order =~= kept.add(o0.subrange(k, n)));
                let o2 = heap.order@;
                let s2 = heap.cells@;
                let x = o1[r];
                assert forall|j: int| 0 <= j < o2.len() implies #[trigger] o2[j] == (if j < r {
                    o1[j]
                } else {
                    o1[j + 1]
                }) by {}
                assert forall|j: int| 0 <= j < o1.len() && j != r implies #[trigger] o1[j] != x by {}
                if r > 0 {
                    assert(o1[r - 1] == kept.last());
                    assert(prev == Some((o1[r - 1]) as usize));
                }
                assert(o2.no_duplicates()) by {
                    assert forall|u: int, v: int| 0 <= u < o2.len() && 0 <= v < o2.len() && u != v implies o2[u] != o2[v] by {
                        let uu = if u < r { u } else { u + 1 };
                        let vv = if v < r { v } else { v + 1 };
                        assert(o2[u] == o1[uu]);
                        assert(o2[v] == o1[vv]);
                    }
                }
                assert forall|j: int| 0 <= j < o2.len() implies 1 <= #[trigger] o2[j] <= s2.len() && s2[o2[j] - 1] is Some by {
                    let jj = if j < r { j } else { j + 1 };
                    assert(o2[j] == o1[jj]);
                    assert(1 <= o1[jj] <= s1.len() && s1[o1[jj] - 1] is Some);
                }
                assert forall|i: int| 0 <= i < s2.len() && #[trigger] s2[i] is Some implies o2.contains(i + 1) by {
                    assert(s1[i] is Some);
                    assert(o1.contains(i + 1));
                    let jj = choose|jj: int| 0 <= jj < o1.len() && o1[jj] == i + 1;
                    assert(jj != r);
                    if jj < r {
                        assert(o2[jj] == i + 1);
                    } else {
                        assert(o2[jj - 1] == i + 1);
                    }
                }
                assert forall|j: int|
                    0 <= j < o2.len() implies link(#[trigger] s2[o2[j] - 1]->Some_0.next) == (if j + 1 < o2.len() {
                        Some(o2[j + 1])
                    } else {
                        None
                    }) by {
                    if j + 1 < r {
                        assert(o2[j] == o1[j]);
                        assert(o2[j + 1] == o1[j + 1]);
                        assert(link(s1[o1[j] - 1]->Some_0.next) == Some(o1[j + 1]));
                    } else if j + 1 == r {
                        assert(o2[j] == o1[j]);
                        assert(link(s1[o1[r] - 1]->Some_0.next) == (if r + 1 < o1.len() {
                            Some(o1[r + 1])
                        } else {
                            None
                        }));
                    } else {
                        assert(o2[j] == o1[j + 1]);
                        assert(link(s1[o1[j + 1] - 1]->Some_0.next) == (if j + 2 < o1.len() {
                            Some(o1[j + 2])
                        } else {
                            None
                        }));
                    }
                }
                assert(link(s1[x - 1]->Some_0.next) == (if r + 1 < o1.len() {
                    Some(o1[r + 1])
                } else {
                    None
                }));
                assert(heap.wf());
            }
        } else {
            heap.cells[a - 1] = Some(TrackedObject { marked: false, object: c.object, next: c.next });
            prev = Some(a);
            cur = c.next;
            proof {
                reveal(Seq::filter);
                assert(o0.subrange(0, k + 1).drop_last() =~= o0.subrange(0, k));
                assert(pred(o0[k]));
                kept = kept.push(o0[k]);
                k = k + 1;
                assert(heap@.order =~= kept.add(o0.subrange(k, n)));
            }
        }
    }
    proof {
        heap.lemma_wf_list_intact();
        let o = heap@.order;
        assert(k == n);
        assert(o0.subrange(0, n) =~= o0);
        assert(o =~= o0.filter(pred));
        assert forall|a: int| #[trigger] heap@.live(a) <==> m0.marked(a) by {
            if heap@.live(a) {
                assert(o.contains(a));
                let i = choose|i: int| 0 <= i < o.len() && o[i] == a;
                o0.lemma_filter_pred(pred, i);
            }
            if m0.marked(a) {
                assert(o0.contains(a));
                let i = choose|i: int| 0 <= i < o0.len() && o0[i] == a;
                o0.lemma_filter_contains(pred, i);
            }
        }
        o.unique_seq_to_set();
        assert(o.to_set() =~= m0.marked_set()) by {
            assert forall|a: int| o.to_set().contains(a) <==> m0.marked_set().contains(a) by {
                assert(o.contains(a) <==> heap@.live(a));
            }
        }
    }
}

/// Marks every cell reached from the roots; a null or stale root is skipped.
pub fn mark_all(heap: &mut Heap, roots: &[usize])
    requires
        old(heap).wf(),
        old(heap)@.all_unmarked(),
    ensures
        final(heap).wf(),
        final(heap)@.order == old(heap)@.order,
        final(heap)@.graph() == old(heap)@.graph(),
        forall|b: int| #[trigger] final(heap)@.marked(b) <==> rooted(old(heap)@.graph(), roots@, b),
{
    let ghost g = heap@.graph();
    let ghost m0 = heap@;
    let mut k: usize = 0;
    while k < roots.len()
        invariant
            heap.wf(),
            heap@.order == m0.order,
            heap@.graph() == g,
            k <= roots.len(),
            forall|b: int|
                #[trigger] heap@.marked(b) ==> exists|i: int| 0 <= i < k && #[trigger] reaches(g, roots@[i] as int, b),
            forall|b: int, c: int| heap@.marked(b) && #[trigger] edge(g, b, c) ==> heap@.marked(c),
            forall|i: int| 0 <= i < k && node(g, #[trigger] roots@[i] as int) ==> heap@.marked(roots@[i] as int),
        decreases roots.len() - k,
    {
        let ghost m1 = heap@;
        mark(heap, roots[k]);
        proof {
            let m2 = heap@;
            assert forall|b: int| #[trigger] m2.marked(b) implies exists|i: int|
                0 <= i < k + 1 && #[trigger] reaches(g, roots@[i] as int, b) by {
                if m1.marked(b) {
                    let i = choose|i: int| 0 <= i < k && #[trigger] reaches(g, roots@[i] as int, b);
                    assert(reaches(g, roots@[i] as int, b));
                } else {
                    assert(reaches(g, roots@[k as int] as int, b));
                }
            }
            assert forall|i: int| 0 <= i < k + 1 && node(g, #[trigger] roots@[i] as int) implies m2.marked(roots@[i] as int) by {
                if i < k {
                    assert(m1.marked(roots@[i] as int));
                }
            }
            assert forall|b: int, c: int| m2.marked(b) && #[trigger] edge(g, b, c) implies m2.marked(c) by {
                if m1.marked(b) {
                    assert(m1.marked(c));
                }
            }
        }
        k = k + 1;
    }
    proof {
        lemma_marks_rooted(heap@, g, roots@);
    }
}

/// Collects garbage: marks from the roots, then sweeps. Every cell that the
/// roots reach stays, unmarked; every other cell is reclaimed.
pub fn collect_garbage(roots: &[usize], heap: &mut Heap)
    requires
        old(heap).wf(),
        old(heap)@.all_unmarked(),
    ensures
        final(heap).wf(),
        collected(old(heap)@, roots@, final(heap)@),
{
    let ghost m0 = heap@;
    mark_all(heap, roots);
    let ghost m1 = heap@;
    sweep(heap);
    proof {
        let g = m0.graph();
        heap.lemma_wf_list_intact();
        assert(marked_in(m1) =~= (|a: int| rooted(g, roots@, a)));
        assert forall|a: int| #[trigger] heap@.live(a) implies heap@.cell(a).object == m0.cell(a).object by {
            assert(m1.marked(a));
            assert(m1.graph()[a - 1] == m0.graph()[a - 1]);
        }
    }
}

impl Heap {
    /// Replaces the value of the live cell `h`; its mark and link stay.
    pub fn set_object(&mut self, h: JustNonNull<TrackedObject>, object: Object)
        requires
            old(self).wf(),
            old(self)@.live(h@),
        ensures
            final(self).wf(),
            final(self)@.order == old(self)@.order,
            final(self)@.slots == old(self)@.slots.update(
                h@ - 1,
                Some(CellModel { marked: old(self)@.cell(h@).marked, object }),
            ),
    {
        let a = h.as_ptr();
        match self.cells[a - 1] {
            Some(c) => {
                self.cells[a - 1] = Some(TrackedObject { marked: c.marked, object, next: c.next });
            },
            None => {},
        }
        proof {
            assert(self@.slots =~= old(self)@.slots.update(
                h@ - 1,
                Some(CellModel { marked: old(self)@.cell(h@).marked, object }),
            ));
        }
    }

    /// The value of the live cell `h`.
    pub fn object(&self, h: JustNonNull<TrackedObject>) -> (r: Object)
        requires
            self@.live(h@),
        ensures
            r == self@.cell(h@).object,
    {
        let a = h.as_ptr();
        match &self.cells[a - 1] {
            Some(c) => c.object,
            None => Object::Integer(0),
        }
    }

    /// The addresses of the heap list, walked from the head along `next`.
    pub fn addresses(&self) -> (r: Vec<usize>)
        requires
            self.wf(),
        ensures
            r@.len() == self@.order.len(),
            forall|j: int| 0 <= j < r@.len() ==> r@[j] as int == #[trigger] self@.order[j],
    {
        let ghost o = self.order@;
        let mut r: Vec<usize> = Vec::new();
        let mut cur = self.head;
        while cur.is_some()
            invariant
                self.wf(),
                o == self.order@,
                r@.len() <= o.len(),
                forall|j: int| 0 <= j < r@.len() ==> r@[j] as int == #[trigger] o[j],
                link(cur) == (if r@.len() < o.len() {
                    Some(o[r@.len() as int])
                } else {
                    None
                }),
            decreases o.len() - r@.len(),
        {
            let h = cur.unwrap();
            let a = h.as_ptr();
            proof {
                assert(1 <= o[r@.len() as int] <= self.cells@.len());
            }
            match &self.cells[a - 1] {
                Some(c) => {
                    cur = c.next;
                },
                None => {
                    cur = None;
                },
            }
            r.push(a);
        }
        r
    }
}

} // verus!
