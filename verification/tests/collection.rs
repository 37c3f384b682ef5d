use cgc::{Cgc, CgcCompat, Headers, Heap};

fn seven_tenths(allocated: usize) -> isize {
    (allocated as f64 * 0.7) as isize
}

/// Forces a collection and waits for its end.
fn collect<D: CgcCompat>(heap: &mut Heap<D>) {
    if let Ok(()) = heap.force_collection() {
        heap.collect_garbage(seven_tenths);
    } else {
        unreachable!();
    }
}

/// A heap that a collection has emptied.
fn start<D: CgcCompat>() -> Heap<D> {
    let mut heap = Heap::new();
    collect(&mut heap);
    assert_eq!(0, heap.allocated());
    heap
}

#[test]
fn simple() {
    let mut heap: Heap<i32> = start();

    {
        let still_alive = Cgc::new(&mut heap, 5);
        assert_eq!(40, heap.allocated());

        if let Ok(()) = heap.force_collection() {
            heap.collect_garbage(seven_tenths);
            assert_eq!(40, heap.allocated());
        } else {
            unreachable!();
        }
        still_alive.drop(&mut heap);
    }

    if let Ok(()) = heap.force_collection() {
        heap.collect_garbage(seven_tenths);
        assert_eq!(0, heap.allocated());
    } else {
        unreachable!();
    }
}

struct Thing(Option<Cgc<Thing>>);

impl CgcCompat for Thing {
    fn root(&mut self, table: &mut Headers) {
        self.0.root(table)
    }

    fn unroot(&mut self, table: &mut Headers) {
        self.0.unroot(table)
    }

    fn darken(&self, table: &mut Headers) {
        self.0.darken(table)
    }
}

#[test]
fn deeper() {
    let mut heap: Heap<Thing> = start();

    {
        let inner = Cgc::new(&mut heap, Thing(None));
        let still_alive = Cgc::new(&mut heap, Thing(Some(inner)));
        assert_eq!(112, heap.allocated());

        if let Ok(()) = heap.force_collection() {
            heap.collect_garbage(seven_tenths);
            assert_eq!(112, heap.allocated());
        } else {
            unreachable!();
        }
        still_alive.drop(&mut heap);
    }

    if let Ok(()) = heap.force_collection() {
        heap.collect_garbage(seven_tenths);
        assert_eq!(0, heap.allocated());
    } else {
        unreachable!();
    }
}

#[test]
fn a_collection_can_be_started_once() {
    let mut heap: Heap<i32> = Heap::new();
    assert!(!heap.collecting());
    assert_eq!(heap.force_collection(), Ok(()));
    assert!(heap.collecting());
    assert_eq!(heap.force_collection(), Err(()));
    heap.collect_garbage(seven_tenths);
    assert!(!heap.collecting());
    assert_eq!(heap.force_collection(), Ok(()));
    heap.end_collection();
    assert!(!heap.collecting());
}
