use tracing_gc::Object::{Integer, Pair};
use tracing_gc::{collect_garbage, Heap, TrackedObject};

#[test]
fn int_basic() {
    let mut heap = Heap::new();
    let x = TrackedObject::new(&mut heap, Integer(21));
    let y = TrackedObject::new(&mut heap, Integer(42));
    let stack = vec![y.as_ptr()];
    collect_garbage(&stack, &mut heap);
    assert!(!heap.is_live(x));
    assert!(heap.is_live(y));
    assert_eq!(heap.addresses(), vec![y.as_ptr()]);
}

#[test]
fn int_all_reachable() {
    let mut heap = Heap::new();
    let x = TrackedObject::new(&mut heap, Integer(21));
    let y = TrackedObject::new(&mut heap, Integer(42));
    let stack = vec![x.as_ptr(), y.as_ptr()];
    collect_garbage(&stack, &mut heap);
    assert!(heap.is_live(x));
    assert!(heap.is_live(y));
    assert_eq!(heap.addresses(), vec![y.as_ptr(), x.as_ptr()]);
}

#[test]
fn pair_all_reachable() {
    let mut heap = Heap::new();
    let x = TrackedObject::new(&mut heap, Integer(21));
    let y = TrackedObject::new(&mut heap, Integer(42));
    let pair = TrackedObject::new(&mut heap, Pair(x, y));
    let stack = vec![pair.as_ptr(), y.as_ptr()];
    collect_garbage(&stack, &mut heap);

    // Everything was reachable.
    assert!(heap.is_live(x));
    assert!(heap.is_live(y));
    assert!(heap.is_live(pair));
    assert_eq!(heap.addresses().len(), 3);
}

#[test]
fn chain_of_pairs_all_reachable() {
    let mut heap = Heap::new();
    let x = TrackedObject::new(&mut heap, Integer(23));
    let y = TrackedObject::new(&mut heap, Integer(42));
    let p1 = TrackedObject::new(&mut heap, Pair(x, y));
    let p2 = TrackedObject::new(&mut heap, Pair(p1, x));
    let p3 = TrackedObject::new(&mut heap, Pair(p2, y));
    let p4 = TrackedObject::new(&mut heap, Pair(p3, y));

    let stack = vec![p4.as_ptr()];
    collect_garbage(&stack, &mut heap);

    // Everything was reachable.
    for h in [x, y, p1, p2, p3, p4] {
        assert!(heap.is_live(h));
        assert!(!heap.is_marked(h));
    }
    assert_eq!(heap.addresses().len(), 6);
}

#[test]
fn cycle_collect() {
    let mut heap = Heap::new();
    let x = TrackedObject::new(&mut heap, Integer(42));
    let y = TrackedObject::new(&mut heap, Integer(21));
    let p1 = TrackedObject::new(&mut heap, Pair(x, y));

    // The only way to make a cycle is to mutate the pair after allocation.
    let Pair(_, second) = heap.object(p1) else {
        unreachable!("The pair didn't exist.")
    };
    heap.set_object(p1, Pair(p1, second));

    let stack = vec![x.as_ptr()];
    collect_garbage(&stack, &mut heap);

    // Only the integer we could directly reach stayed alive.
    assert!(heap.is_live(x));
    assert!(!heap.is_live(y));
    assert!(!heap.is_live(p1));
    assert_eq!(heap.addresses(), vec![x.as_ptr()]);
}
