use cgc::{Cgc, CgcCompat, Color, Headers, Heap, Holds, Phase, INITIAL_HEAP_SIZE, NULL};

struct Node(Option<Cgc<Node>>, Option<Cgc<Node>>);

impl CgcCompat for Node {
    fn root(&mut self, table: &mut Headers) {
        self.0.root(table);
        self.1.root(table);
    }

    fn unroot(&mut self, table: &mut Headers) {
        self.0.unroot(table);
        self.1.unroot(table);
    }

    fn darken(&self, table: &mut Headers) {
        self.0.darken(table);
        self.1.darken(table);
    }
}

fn no_scale(_allocated: usize) -> isize {
    0
}

fn collect<D: CgcCompat>(heap: &mut Heap<D>) {
    assert_eq!(heap.force_collection(), Ok(()));
    heap.collect_garbage(no_scale);
}

/// Does the next step of a collection. Returns whether it has ended.
fn step<D: CgcCompat>(heap: &mut Heap<D>) -> bool {
    if heap.step() {
        return false;
    }
    heap.settle(no_scale(heap.allocated()));
    true
}

/// Does `first` steps of a collection. Returns whether it has ended.
fn steps<D: CgcCompat>(heap: &mut Heap<D>, first: usize) -> bool {
    for _ in 0..first {
        if step(heap) {
            return true;
        }
    }
    false
}

fn finish<D: CgcCompat>(heap: &mut Heap<D>) {
    while !step(heap) {}
}

/// A box that holds two boxes, one of which holds another, and some that nothing holds.
fn forest(heap: &mut Heap<Node>) -> Cgc<Node> {
    let leaf = Cgc::new(heap, Node(None, None));
    let lost = Cgc::new(heap, Node(None, None));
    let left = Cgc::new(heap, Node(None, Some(leaf)));
    let right = Cgc::new(heap, Node(None, None));
    let top = Cgc::new(heap, Node(Some(left), Some(right)));
    let also_lost = Cgc::new(heap, Node(Some(lost), None));
    also_lost.drop(heap);
    top
}

/// What one box of the forest takes.
fn node_size() -> usize {
    let mut heap: Heap<Node> = Heap::new();
    let handle = Cgc::new(&mut heap, Node(None, None));
    handle.drop(&mut heap);
    heap.allocated()
}

#[test]
fn a_box_takes_its_header_and_its_value() {
    assert_eq!(node_size(), 32 + 2 * 24);
}

#[test]
fn only_what_is_held_is_kept() {
    let mut heap: Heap<Node> = Heap::new();
    let top = forest(&mut heap);
    assert_eq!(heap.allocated(), 6 * node_size());
    collect(&mut heap);
    assert_eq!(heap.allocated(), 4 * node_size());
    let left = top.deref(&heap).0.as_ref().unwrap();
    assert!(left.deref(&heap).0.is_none());
    assert!(left.deref(&heap).1.as_ref().unwrap().deref(&heap).0.is_none());
    assert!(top.deref(&heap).1.is_some());
    top.drop(&mut heap);
    assert_eq!(heap.allocated(), 4 * node_size());
    collect(&mut heap);
    assert_eq!(heap.allocated(), 0);
}

#[test]
fn collecting_again_frees_nothing() {
    let mut heap: Heap<Node> = Heap::new();
    let top = forest(&mut heap);
    collect(&mut heap);
    let kept: Vec<bool> = (0..6).map(|p| heap.contains(p)).collect();
    collect(&mut heap);
    let still_kept: Vec<bool> = (0..6).map(|p| heap.contains(p)).collect();
    assert_eq!(kept, [true, false, true, true, true, false]);
    assert_eq!(kept, still_kept);
    assert_eq!(heap.allocated(), 4 * node_size());
    top.drop(&mut heap);
}

#[test]
fn the_colors_of_a_collection() {
    let mut heap: Heap<Node> = Heap::new();
    let top = forest(&mut heap);
    let color = |heap: &Heap<Node>, p: usize| heap.header(p).color;
    assert_eq!(color(&heap, 5), Color::Gray);
    heap.whiten();
    assert!(matches!(heap.phase(), Phase::Whiten { at: NULL }));
    for p in [0, 1, 2, 3, 5] {
        assert_eq!(color(&heap, p), Color::White);
    }
    assert_eq!(color(&heap, 4), Color::Gray);
    heap.detach();
    heap.blacken();
    for p in [0, 2, 3, 4] {
        assert_eq!(color(&heap, p), Color::Black);
    }
    assert_eq!(color(&heap, 1), Color::White);
    assert_eq!(color(&heap, 5), Color::White);
    heap.restore();
    assert_eq!(heap.allocated(), 6 * node_size());
    heap.sweep();
    assert_eq!(heap.allocated(), 4 * node_size());
    assert!(matches!(heap.phase(), Phase::Idle));
    top.drop(&mut heap);
}

#[test]
fn every_step_can_be_followed_by_making_a_box() {
    let mut first = 0;
    loop {
        let mut heap: Heap<Node> = Heap::new();
        let top = forest(&mut heap);
        let ended = steps(&mut heap, first);
        // What was in use is moved into a box that the collection may not have seen.
        let over = Cgc::new(&mut heap, Node(Some(top), None));
        if !ended {
            finish(&mut heap);
        }
        assert_eq!(heap.allocated(), 5 * node_size());
        let top = over.deref(&heap).0.as_ref().unwrap();
        let left = top.deref(&heap).0.as_ref().unwrap();
        assert!(left.deref(&heap).1.is_some());
        over.drop(&mut heap);
        collect(&mut heap);
        assert_eq!(heap.allocated(), 0);
        if ended {
            break;
        }
        first += 1;
    }
    assert!(first > 12);
}

#[test]
fn every_step_can_be_followed_by_taking_a_handle_out() {
    let mut first = 0;
    loop {
        let mut heap: Heap<Node> = Heap::new();
        let top = forest(&mut heap);
        let ended = steps(&mut heap, first);
        // The way to the leaf is lost, but the leaf itself is not.
        let leaf = leaf_of(&heap, &top);
        assert_eq!(leaf.header(&heap).roots, 0);
        let outside = leaf.clone(&mut heap);
        assert_eq!(outside.header(&heap).roots, 1);
        top.drop(&mut heap);
        if !ended {
            finish(&mut heap);
        }
        assert!(outside.deref(&heap).0.is_none());
        collect(&mut heap);
        assert_eq!(heap.allocated(), node_size());
        assert!(outside.deref(&heap).1.is_none());
        outside.drop(&mut heap);
        collect(&mut heap);
        assert_eq!(heap.allocated(), 0);
        if ended {
            break;
        }
        first += 1;
    }
}

/// The leaf of the forest.
fn leaf_of(heap: &Heap<Node>, top: &Cgc<Node>) -> Cgc<Node> {
    let left = top.deref(heap).0.as_ref().unwrap();
    left.deref(heap).1.as_ref().unwrap().alias()
}

#[test]
fn each_root_counts() {
    let mut heap: Heap<i32> = Heap::new();
    let one = Cgc::new(&mut heap, 7);
    let other = one.clone(&mut heap);
    assert_eq!(other.header(&heap).roots, 2);
    one.drop(&mut heap);
    collect(&mut heap);
    assert_eq!(heap.allocated(), 40);
    assert_eq!(*other.deref(&heap), 7);
    assert_eq!(other.header(&heap).roots, 1);
    other.drop(&mut heap);
    collect(&mut heap);
    assert_eq!(heap.allocated(), 0);
}

#[test]
fn an_alias_is_no_root() {
    let mut heap: Heap<i32> = Heap::new();
    let handle = Cgc::new(&mut heap, 7);
    let alias = handle.alias();
    assert_eq!(handle.header(&heap).roots, 1);
    assert_eq!(*alias.deref(&heap), 7);
    alias.drop(&mut heap);
    assert_eq!(handle.header(&heap).roots, 1);
    handle.drop(&mut heap);
    collect(&mut heap);
    assert_eq!(heap.allocated(), 0);
}

#[test]
fn a_value_in_a_box_keeps_its_boxes_without_a_root() {
    let mut heap: Heap<Node> = Heap::new();
    let leaf = Cgc::new(&mut heap, Node(None, None));
    let again = leaf.clone(&mut heap);
    let over = Cgc::new(&mut heap, Node(Some(leaf), None));
    assert_eq!(again.header(&heap).roots, 1);
    again.drop(&mut heap);
    assert_eq!(heap.header(0).roots, 0);
    collect(&mut heap);
    assert_eq!(heap.allocated(), 2 * node_size());
    over.drop(&mut heap);
}

#[test]
fn a_box_made_while_others_are_darkened_is_not_freed_by_that_collection() {
    let mut heap: Heap<i32> = Heap::new();
    let lost = Cgc::new(&mut heap, 1);
    lost.drop(&mut heap);
    heap.whiten();
    heap.detach();
    let made = Cgc::new(&mut heap, 2);
    made.drop(&mut heap);
    finish(&mut heap);
    assert_eq!(heap.allocated(), 40);
    collect(&mut heap);
    assert_eq!(heap.allocated(), 0);
}

#[test]
fn a_white_box_that_is_rooted_turns_gray() {
    let mut heap: Heap<Node> = Heap::new();
    let top = forest(&mut heap);
    heap.whiten();
    heap.detach();
    let leaf = leaf_of(&heap, &top);
    assert_eq!(leaf.header(&heap).color, Color::White);
    let outside = leaf.clone(&mut heap);
    assert_eq!(leaf.header(&heap).color, Color::Gray);
    let twice = leaf.clone(&mut heap);
    assert_eq!(leaf.header(&heap).roots, 2);
    finish(&mut heap);
    assert_eq!(leaf.header(&heap).color, Color::Black);
    twice.drop(&mut heap);
    outside.drop(&mut heap);
    top.drop(&mut heap);
}

#[test]
fn a_black_box_that_is_rooted_turns_gray() {
    let mut heap: Heap<Node> = Heap::new();
    let top = forest(&mut heap);
    heap.whiten();
    heap.detach();
    heap.blacken();
    let leaf = leaf_of(&heap, &top);
    assert_eq!(leaf.header(&heap).color, Color::Black);
    let outside = leaf.clone(&mut heap);
    assert_eq!(outside.header(&heap).color, Color::Gray);
    top.drop(&mut heap);
    finish(&mut heap);
    assert_eq!(heap.allocated(), 4 * node_size());
    assert_eq!(outside.header(&heap).color, Color::Gray);
    collect(&mut heap);
    assert_eq!(heap.allocated(), node_size());
    assert!(outside.deref(&heap).0.is_none());
    outside.drop(&mut heap);
}

/// All that the headers say, in the order of the boxes.
fn headers(heap: &Heap<Node>) -> Vec<Option<(usize, Color, usize, usize)>> {
    (0..6)
        .map(|p| {
            if heap.contains(p) {
                let header = heap.header(p);
                Some((header.size, header.color, header.roots, header.next))
            } else {
                None
            }
        })
        .collect()
}

#[test]
fn every_way_to_collect_leaves_the_same_heap() {
    let mut by_steps: Heap<Node> = Heap::new();
    let mut at_once: Heap<Node> = Heap::new();
    let mut and_end: Heap<Node> = Heap::new();
    let tops = [forest(&mut by_steps), forest(&mut at_once), forest(&mut and_end)];
    assert_eq!(and_end.force_collection(), Ok(()));
    finish(&mut by_steps);
    at_once.do_collect_garbage(no_scale);
    and_end.collect_garbage(no_scale);
    // The box with the root was met first and the boxes that it holds after it.
    let size = node_size();
    let expected = vec![
        Some((size, Color::Black, 0, 2)),
        None,
        Some((size, Color::Black, 0, 3)),
        Some((size, Color::Black, 0, 4)),
        Some((size, Color::Black, 1, NULL)),
        None,
    ];
    for heap in [&by_steps, &at_once, &and_end] {
        assert_eq!(headers(heap), expected);
        assert_eq!(heap.allocated(), 4 * size);
        assert_eq!(heap.heap_space(), 1024);
        assert!(!heap.collecting());
    }
    let [a, b, c] = tops;
    a.drop(&mut by_steps);
    b.drop(&mut at_once);
    c.drop(&mut and_end);
}

#[test]
fn boxes_that_are_met_before_what_holds_them_come_first() {
    let mut heap: Heap<Node> = Heap::new();
    let holder = Cgc::new(&mut heap, Node(None, None));
    let other = Cgc::new(&mut heap, Node(None, None));
    let last = Cgc::new(&mut heap, Node(Some(holder), None));
    collect(&mut heap);
    // The chain is turned round by a collection, so what is held now comes first.
    assert_eq!((heap.header(0).next, heap.header(1).next, heap.header(2).next), (1, 2, NULL));
    collect(&mut heap);
    // The first pass moves the rooted boxes 1 and 2, and the second one the box 0.
    assert_eq!((heap.header(0).next, heap.header(2).next, heap.header(1).next), (2, 1, NULL));
    last.drop(&mut heap);
    other.drop(&mut heap);
}

#[test]
fn collecting_again_grants_the_same() {
    let mut heap: Heap<i32> = Heap::new();
    let handles: Vec<Cgc<i32>> = (0..40).map(|i| Cgc::new(&mut heap, i)).collect();
    heap.end_collection();
    heap.do_collect_garbage(|allocated| (allocated as f64 * 0.7) as isize);
    let granted = (heap.allocated(), heap.heap_space());
    heap.do_collect_garbage(|allocated| (allocated as f64 * 0.7) as isize);
    assert_eq!((heap.allocated(), heap.heap_space()), granted);
    assert_eq!(granted, (1600, 1120));
    for handle in handles {
        handle.drop(&mut heap);
    }
}

#[test]
fn the_roots_count_the_handles() {
    let mut heap: Heap<Node> = Heap::new();
    let leaf = Cgc::new(&mut heap, Node(None, None));
    let mut clones: Vec<Cgc<Node>> = (0..5).map(|_| leaf.clone(&mut heap)).collect();
    let over = Cgc::new(&mut heap, Node(None, None));
    clones.pop().unwrap().drop(&mut heap);
    clones.pop().unwrap().drop(&mut heap);
    collect(&mut heap);
    assert_eq!(leaf.header(&heap).roots, 1 + 5 - 2);
    over.drop(&mut heap);
    assert_eq!(leaf.header(&heap).roots, 4);
    for clone in clones {
        clone.drop(&mut heap);
    }
    assert_eq!(leaf.header(&heap).roots, 1);
    leaf.drop(&mut heap);
}

#[test]
fn darkening_blackens_what_is_reached() {
    let mut heap: Heap<Node> = Heap::new();
    let top = forest(&mut heap);
    let mut table = Headers::new();
    for p in 0..6 {
        let mut header = heap.header(p);
        // One of the boxes has been met already.
        header.color = if p == 3 { Color::Gray } else { Color::White };
        table.push(header);
    }
    top.darken(&mut table);
    let mut visited = Vec::new();
    while let Some(p) = table.next_pending() {
        visited.push(p);
        heap.data(p).darken(&mut table);
    }
    assert_eq!(visited, [4, 2, 0]);
    let colors: Vec<Color> = (0..6).map(|p| table.at(p).color).collect();
    assert_eq!(
        colors,
        [Color::Black, Color::White, Color::Black, Color::Gray, Color::Black, Color::White]
    );
    top.drop(&mut heap);
}

#[test]
fn too_much_allocated_starts_a_collection() {
    let mut heap: Heap<i32> = Heap::new();
    assert_eq!(heap.heap_space(), INITIAL_HEAP_SIZE);
    let mut handles = Vec::new();
    for i in 0..25 {
        handles.push(Cgc::new(&mut heap, i));
        assert!(!heap.collecting());
    }
    assert_eq!(heap.heap_space(), 24);
    handles.push(Cgc::new(&mut heap, 25));
    assert!(heap.collecting());
    assert_eq!(heap.heap_space(), -16);
    assert_eq!(heap.force_collection(), Err(()));
    handles.push(Cgc::new(&mut heap, 26));
    assert_eq!(heap.heap_space(), -56);
    heap.collect_garbage(no_scale);
    assert!(!heap.collecting());
    assert_eq!(heap.allocated(), 27 * 40);
    assert_eq!(heap.heap_space(), 1024);
    for handle in handles {
        handle.drop(&mut heap);
    }
    collect(&mut heap);
    assert_eq!(heap.allocated(), 0);
}

#[test]
fn what_is_allocated_grants_more_heap_space() {
    let mut heap: Heap<i32> = Heap::new();
    let handles: Vec<Cgc<i32>> = (0..40).map(|i| Cgc::new(&mut heap, i)).collect();
    heap.end_collection();
    heap.do_collect_garbage(|allocated| (allocated as f64 * 0.7) as isize);
    assert_eq!(heap.allocated(), 1600);
    assert_eq!(heap.heap_space(), 1120);
    for handle in handles {
        handle.drop(&mut heap);
    }
    heap.do_collect_garbage(|allocated| (allocated as f64 * 0.7) as isize);
    assert_eq!(heap.allocated(), 0);
    assert_eq!(heap.heap_space(), 1024);
    heap.settle(1025);
    assert_eq!(heap.heap_space(), 1025);
    heap.settle(-3);
    assert_eq!(heap.heap_space(), 1024);
}

#[test]
fn the_place_of_a_freed_box_is_used_again() {
    let mut heap: Heap<i32> = Heap::new();
    let one = Cgc::new(&mut heap, 1);
    let two = Cgc::new(&mut heap, 2);
    assert!(heap.contains(0) && heap.contains(1) && !heap.contains(2));
    one.drop(&mut heap);
    collect(&mut heap);
    assert!(!heap.contains(0) && heap.contains(1));
    let three = Cgc::new(&mut heap, 3);
    assert!(heap.contains(0) && heap.contains(1) && !heap.contains(2));
    assert_eq!(*three.deref(&heap), 3);
    assert_eq!(*two.deref(&heap), 2);
    assert_eq!(*heap.data(0), 3);
    two.drop(&mut heap);
    three.drop(&mut heap);
}

#[test]
fn the_steps_of_a_collection() {
    let mut heap: Heap<i32> = Heap::new();
    let kept = Cgc::new(&mut heap, 1);
    let lost = Cgc::new(&mut heap, 2);
    assert_eq!((kept.address(), lost.address()), (0, 1));
    lost.drop(&mut heap);
    assert!(heap.step());
    assert!(matches!(heap.phase(), Phase::Whiten { at: 1 }));
    assert!(heap.step());
    assert!(matches!(heap.phase(), Phase::Whiten { at: 0 }));
    assert!(heap.step());
    assert!(matches!(heap.phase(), Phase::Whiten { at: NULL }));
    assert!(heap.step());
    assert!(matches!(heap.phase(), Phase::Blacken { head: 1, at: 1, saw_grays: false, .. }));
    assert!(heap.step());
    assert!(matches!(heap.phase(), Phase::Blacken { before: 1, at: 0, saw_grays: false, .. }));
    assert!(heap.step());
    assert!(matches!(
        heap.phase(),
        Phase::Blacken { head: 1, at: NULL, black_head: 0, black_tail: 0, saw_grays: true, .. }
    ));
    assert!(heap.step());
    assert!(matches!(heap.phase(), Phase::Blacken { at: 1, saw_grays: false, .. }));
    assert!(heap.step());
    assert!(heap.step());
    assert!(matches!(heap.phase(), Phase::Sweep { head: 1, freed: 0 }));
    assert!(heap.step());
    assert!(matches!(heap.phase(), Phase::Sweep { head: NULL, freed: 40 }));
    assert!(!heap.contains(1));
    assert_eq!(heap.allocated(), 80);
    assert!(!heap.step());
    assert!(matches!(heap.phase(), Phase::Idle));
    assert_eq!(heap.allocated(), 40);
    kept.drop(&mut heap);
}

#[test]
fn new_boxes_come_first() {
    let mut heap: Heap<i32> = Heap::new();
    let one = Cgc::new(&mut heap, 1);
    let two = Cgc::new(&mut heap, 2);
    assert_eq!(heap.header(0).next, NULL);
    assert_eq!(heap.header(1).next, 0);
    heap.begin();
    assert!(matches!(heap.phase(), Phase::Whiten { at: 1 }));
    finish(&mut heap);
    assert_eq!(heap.header(0).next, 1);
    assert_eq!(heap.header(1).next, NULL);
    one.drop(&mut heap);
    two.drop(&mut heap);
}

enum Value {
    Number(i32),
    Node(Node),
    Pair(Pair),
}

struct Pair(Cgc<i32>, Cgc<Node>);

impl CgcCompat for Pair {
    fn root(&mut self, table: &mut Headers) {
        self.0.root(table);
        self.1.root(table);
    }

    fn unroot(&mut self, table: &mut Headers) {
        self.0.unroot(table);
        self.1.unroot(table);
    }

    fn darken(&self, table: &mut Headers) {
        self.0.darken(table);
        self.1.darken(table);
    }
}

impl CgcCompat for Value {
    fn root(&mut self, table: &mut Headers) {
        match self {
            Value::Number(number) => number.root(table),
            Value::Node(node) => node.root(table),
            Value::Pair(pair) => pair.root(table),
        }
    }

    fn unroot(&mut self, table: &mut Headers) {
        match self {
            Value::Number(number) => number.unroot(table),
            Value::Node(node) => node.unroot(table),
            Value::Pair(pair) => pair.unroot(table),
        }
    }

    fn darken(&self, table: &mut Headers) {
        match self {
            Value::Number(number) => number.darken(table),
            Value::Node(node) => node.darken(table),
            Value::Pair(pair) => pair.darken(table),
        }
    }
}

impl Holds<i32> for Value {
    fn wrap(value: i32) -> Value {
        Value::Number(value)
    }

    fn get(&self) -> Option<&i32> {
        match self {
            Value::Number(number) => Some(number),
            _ => None,
        }
    }
}

impl Holds<Node> for Value {
    fn wrap(value: Node) -> Value {
        Value::Node(value)
    }

    fn get(&self) -> Option<&Node> {
        match self {
            Value::Node(node) => Some(node),
            _ => None,
        }
    }
}

impl Holds<Pair> for Value {
    fn wrap(value: Pair) -> Value {
        Value::Pair(value)
    }

    fn get(&self) -> Option<&Pair> {
        match self {
            Value::Pair(pair) => Some(pair),
            _ => None,
        }
    }
}

#[test]
fn values_of_several_types_share_a_heap() {
    let mut heap: Heap<Value> = Heap::new();
    let number = Cgc::new(&mut heap, 5);
    assert_eq!(heap.allocated(), 40);
    let node = Cgc::new(&mut heap, Node(None, None));
    assert_eq!(heap.allocated(), 40 + node_size());
    let pair = Cgc::new(&mut heap, Pair(number, node));
    collect(&mut heap);
    assert_eq!(heap.allocated(), 40 + node_size() + 64);
    assert_eq!(*pair.deref(&heap).0.deref(&heap), 5);
    assert!(pair.deref(&heap).1.deref(&heap).0.is_none());
    let number = pair.deref(&heap).0.alias().clone(&mut heap);
    pair.drop(&mut heap);
    collect(&mut heap);
    assert_eq!(heap.allocated(), 40);
    assert_eq!(*number.deref(&heap), 5);
    number.drop(&mut heap);
}
