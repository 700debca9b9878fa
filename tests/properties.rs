use tracing_gc::Object::{Integer, Pair};
use tracing_gc::{collect_garbage, mark_all, sweep, Heap, InvariantNonNull, JustNonNull, TrackedObject};

#[test]
fn handle_from_null_is_none() {
    assert!(JustNonNull::<TrackedObject>::new(0).is_none());
    assert!(InvariantNonNull::<TrackedObject>::new(0).is_none());
}

#[test]
fn handle_keeps_its_address() {
    let h = JustNonNull::<TrackedObject>::new(5).unwrap();
    assert_eq!(h.as_ptr(), 5);
    let c = h.clone();
    assert_eq!(c.as_ptr(), 5);
    assert_eq!(JustNonNull::<TrackedObject>::from_mut(7).as_ptr(), 7);
    let i = InvariantNonNull::<i64>::new(9).unwrap();
    assert_eq!(i.as_ptr(), 9);
    assert_eq!(InvariantNonNull::<i64>::from_mut(3).as_ptr(), 3);
}

#[test]
fn allocation_prepends() {
    let mut heap = Heap::new();
    assert_eq!(heap.num_slots(), 0);
    assert!(heap.addresses().is_empty());
    let a = TrackedObject::new(&mut heap, Integer(1));
    let b = TrackedObject::new(&mut heap, Integer(2));
    let c = TrackedObject::new(&mut heap, Pair(a, b));
    assert_eq!(heap.num_slots(), 3);
    assert_eq!(heap.addresses(), vec![c.as_ptr(), b.as_ptr(), a.as_ptr()]);
    assert!(!heap.is_marked(a));
    assert!(matches!(heap.object(b), Integer(2)));
    match heap.object(c) {
        Pair(f, s) => {
            assert_eq!(f.as_ptr(), a.as_ptr());
            assert_eq!(s.as_ptr(), b.as_ptr());
        }
        Integer(_) => panic!("expected a pair"),
    }
}

#[test]
fn empty_heap_collects() {
    let mut heap = Heap::new();
    collect_garbage(&[], &mut heap);
    assert!(heap.addresses().is_empty());
}

#[test]
fn no_roots_reclaims_everything() {
    let mut heap = Heap::new();
    let a = TrackedObject::new(&mut heap, Integer(1));
    let b = TrackedObject::new(&mut heap, Pair(a, a));
    collect_garbage(&[], &mut heap);
    assert!(!heap.is_live(a));
    assert!(!heap.is_live(b));
    assert!(heap.addresses().is_empty());
}

#[test]
fn null_and_stale_roots_are_skipped() {
    let mut heap = Heap::new();
    let a = TrackedObject::new(&mut heap, Integer(1));
    let b = TrackedObject::new(&mut heap, Integer(2));
    collect_garbage(&[0, 99, b.as_ptr()], &mut heap);
    assert!(!heap.is_live(a));
    assert!(heap.is_live(b));
    // A root to a reclaimed cell is skipped as well.
    collect_garbage(&[a.as_ptr(), b.as_ptr()], &mut heap);
    assert!(!heap.is_live(a));
    assert_eq!(heap.addresses(), vec![b.as_ptr()]);
}

#[test]
fn shared_substructure_survives_once() {
    let mut heap = Heap::new();
    let leaf = TrackedObject::new(&mut heap, Integer(7));
    let left = TrackedObject::new(&mut heap, Pair(leaf, leaf));
    let right = TrackedObject::new(&mut heap, Pair(leaf, leaf));
    let top = TrackedObject::new(&mut heap, Pair(left, right));
    let lost = TrackedObject::new(&mut heap, Pair(leaf, top));
    collect_garbage(&[top.as_ptr()], &mut heap);
    assert!(!heap.is_live(lost));
    assert_eq!(
        heap.addresses(),
        vec![top.as_ptr(), right.as_ptr(), left.as_ptr(), leaf.as_ptr()]
    );
}

#[test]
fn mutual_cycle_reclaimed_without_root() {
    let mut heap = Heap::new();
    let x = TrackedObject::new(&mut heap, Integer(1));
    let p = TrackedObject::new(&mut heap, Pair(x, x));
    let q = TrackedObject::new(&mut heap, Pair(p, x));
    heap.set_object(p, Pair(q, x));
    let r = TrackedObject::new(&mut heap, Integer(2));
    collect_garbage(&[r.as_ptr()], &mut heap);
    assert!(!heap.is_live(p));
    assert!(!heap.is_live(q));
    assert!(!heap.is_live(x));
    assert_eq!(heap.addresses(), vec![r.as_ptr()]);
}

#[test]
fn mutual_cycle_kept_by_any_member() {
    for rooted_first in [true, false] {
        let mut heap = Heap::new();
        let x = TrackedObject::new(&mut heap, Integer(1));
        let p = TrackedObject::new(&mut heap, Pair(x, x));
        let q = TrackedObject::new(&mut heap, Pair(p, p));
        heap.set_object(p, Pair(q, x));
        let root = if rooted_first { p } else { q };
        collect_garbage(&[root.as_ptr()], &mut heap);
        assert!(heap.is_live(p));
        assert!(heap.is_live(q));
        assert!(heap.is_live(x));
        assert!(!heap.is_marked(p));
        assert!(!heap.is_marked(q));
    }
}

#[test]
fn self_cycle_kept_when_rooted() {
    let mut heap = Heap::new();
    let p = TrackedObject::new(&mut heap, Integer(0));
    heap.set_object(p, Pair(p, p));
    collect_garbage(&[p.as_ptr()], &mut heap);
    assert!(heap.is_live(p));
    assert_eq!(heap.addresses(), vec![p.as_ptr()]);
}

#[test]
fn collecting_twice_keeps_the_same_cells() {
    let mut heap = Heap::new();
    let a = TrackedObject::new(&mut heap, Integer(1));
    let b = TrackedObject::new(&mut heap, Integer(2));
    let c = TrackedObject::new(&mut heap, Pair(a, a));
    let d = TrackedObject::new(&mut heap, Integer(4));
    let roots = vec![c.as_ptr(), d.as_ptr()];
    collect_garbage(&roots, &mut heap);
    let first = heap.addresses();
    for h in [a, c, d] {
        assert!(!heap.is_marked(h));
    }
    collect_garbage(&roots, &mut heap);
    assert_eq!(heap.addresses(), first);
    assert_eq!(first, vec![d.as_ptr(), c.as_ptr(), a.as_ptr()]);
    assert!(!heap.is_live(b));
}

#[test]
fn mark_then_sweep_by_hand() {
    let mut heap = Heap::new();
    let a = TrackedObject::new(&mut heap, Integer(1));
    let b = TrackedObject::new(&mut heap, Integer(2));
    let c = TrackedObject::new(&mut heap, Integer(3));
    let d = TrackedObject::new(&mut heap, Pair(b, b));
    let e = TrackedObject::new(&mut heap, Integer(5));
    // List: e d c b a. Marked: d b. So the head, a run (c) and the tail go.
    mark_all(&mut heap, &[d.as_ptr()]);
    assert!(heap.is_marked(d));
    assert!(heap.is_marked(b));
    assert!(!heap.is_marked(a));
    assert!(!heap.is_marked(c));
    assert!(!heap.is_marked(e));
    sweep(&mut heap);
    assert_eq!(heap.addresses(), vec![d.as_ptr(), b.as_ptr()]);
    assert!(!heap.is_marked(d));
    assert!(!heap.is_marked(b));
    for h in [a, c, e] {
        assert!(!heap.is_live(h));
    }
    assert_eq!(heap.num_slots(), 5);
}

#[test]
fn values_survive_collection() {
    let mut heap = Heap::new();
    let a = TrackedObject::new(&mut heap, Integer(-17));
    let b = TrackedObject::new(&mut heap, Pair(a, a));
    collect_garbage(&[b.as_ptr()], &mut heap);
    assert!(matches!(heap.object(a), Integer(-17)));
    match heap.object(b) {
        Pair(f, s) => {
            assert_eq!(f.as_ptr(), a.as_ptr());
            assert_eq!(s.as_ptr(), a.as_ptr());
        }
        Integer(_) => panic!("expected a pair"),
    }
}

#[test]
fn handle_equality_is_identity() {
    let mut heap = Heap::new();
    let a = TrackedObject::new(&mut heap, Integer(1));
    let b = TrackedObject::new(&mut heap, Integer(1));
    assert!(a == a.clone());
    assert!(a != b);
    assert!(JustNonNull::<TrackedObject>::new(a.as_ptr()).unwrap() == a);
    assert!(InvariantNonNull::<i64>::new(4).unwrap() == InvariantNonNull::<i64>::from_mut(4));
}
