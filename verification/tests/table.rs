use cgc::{Cgc, CgcCompat, CgcHeader, Color, Headers, Heap, NULL};

/// A table with headers for `n` boxes, and as many handles as there are boxes.
fn table_of(n: usize) -> (Headers, Vec<Cgc<i32>>) {
    let mut heap: Heap<i32> = Heap::new();
    let mut table = Headers::new();
    let mut handles = Vec::new();
    for _ in 0..n {
        handles.push(Cgc::new(&mut heap, 0));
        table.push(CgcHeader::new(40));
    }
    (table, handles)
}

fn whiten(table: &mut Headers) {
    for p in 0..table.len() {
        let mut header = table.at(p);
        header.color = Color::White;
        table.put(p, header);
    }
}

#[test]
fn a_new_header_is_gray_and_has_one_root() {
    let header = CgcHeader::new(56);
    assert_eq!(header.size, 56);
    assert_eq!(header.color, Color::Gray);
    assert_eq!(header.roots, 1);
    assert_eq!(header.next, NULL);
}

#[test]
fn rooting_a_box_without_roots_makes_it_gray() {
    let mut header = CgcHeader::new(8);
    header.unroot();
    assert_eq!(header.roots, 0);
    assert_eq!(header.color, Color::Gray);
    header.color = Color::White;
    header.root();
    assert_eq!(header.color, Color::Gray);
    header.color = Color::White;
    header.root();
    assert_eq!(header.color, Color::White);
    assert_eq!(header.roots, 2);
    header.color = Color::Black;
    header.root();
    assert_eq!(header.color, Color::Black);
    header.roots = 0;
    header.root();
    assert_eq!(header.color, Color::Gray);
    assert_eq!(header.roots, 1);
}

#[test]
fn rooting_is_undone() {
    for roots in [0, 1, 7, usize::MAX - 1, usize::MAX] {
        let mut header = CgcHeader::new(8);
        header.roots = roots;
        header.root();
        assert_eq!(header.roots, roots.wrapping_add(1));
        header.unroot();
        assert_eq!(header.roots, roots);
        header.unroot();
        assert_eq!(header.roots, roots.wrapping_sub(1));
        header.root();
        assert_eq!(header.roots, roots);
    }
}

#[test]
fn a_handle_is_rooted_and_unrooted() {
    let (mut table, mut handles) = table_of(2);
    handles[1].unroot(&mut table);
    assert_eq!(table.at(1).roots, 0);
    assert_eq!(table.at(0).roots, 1);
    whiten(&mut table);
    handles[1].root(&mut table);
    assert_eq!(table.at(1).roots, 1);
    assert_eq!(table.at(1).color, Color::Gray);
    assert_eq!(table.at(0).color, Color::White);
}

#[test]
fn an_unrooted_handle_is_given_back_without_a_trace() {
    let mut heap: Heap<i32> = Heap::new();
    let mut handle = Cgc::new(&mut heap, 1);
    let mut table = Headers::new();
    table.push(CgcHeader::new(40));
    handle.unroot(&mut table);
    handle.drop(&mut heap);
    assert_eq!(heap.header(0).roots, 1);
}

#[test]
fn darkening_blackens_white_boxes_once() {
    let (mut table, handles) = table_of(3);
    handles[0].darken(&mut table);
    assert_eq!(table.at(0).color, Color::Gray);
    assert_eq!(table.next_pending(), None);
    whiten(&mut table);
    handles[0].darken(&mut table);
    handles[2].darken(&mut table);
    handles[0].darken(&mut table);
    assert_eq!(table.at(0).color, Color::Black);
    assert_eq!(table.at(1).color, Color::White);
    assert_eq!(table.at(2).color, Color::Black);
    assert_eq!(table.next_pending(), Some(2));
    assert_eq!(table.next_pending(), Some(0));
    assert_eq!(table.next_pending(), None);
}

#[test]
fn an_option_passes_over_what_it_holds() {
    let (mut table, mut handles) = table_of(1);
    let mut some = handles.pop();
    some.unroot(&mut table);
    assert_eq!(table.at(0).roots, 0);
    some.root(&mut table);
    assert_eq!(table.at(0).roots, 1);
    whiten(&mut table);
    some.darken(&mut table);
    assert_eq!(table.at(0).color, Color::Black);

    let mut none: Option<Cgc<i32>> = None;
    none.root(&mut table);
    none.unroot(&mut table);
    none.darken(&mut table);
    assert_eq!(table.at(0).roots, 1);
    assert_eq!(table.next_pending(), Some(0));
    assert_eq!(table.next_pending(), None);
}

#[test]
fn a_number_holds_no_handles() {
    let (mut table, _handles) = table_of(1);
    whiten(&mut table);
    let mut number = 9;
    number.root(&mut table);
    number.unroot(&mut table);
    number.darken(&mut table);
    assert_eq!(number, 9);
    assert_eq!(table.at(0).roots, 1);
    assert_eq!(table.at(0).color, Color::White);
}

#[test]
fn a_removed_header_is_gone() {
    let (mut table, _handles) = table_of(2);
    table.remove(0);
    assert!(table.get(0).is_none());
    assert!(table.get(1).is_some());
    assert!(table.get(2).is_none());
    assert_eq!(table.len(), 2);
}
