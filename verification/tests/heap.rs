use binary_heap::{Comparator, Heap, MaxHeap, MinHeap};

#[test]
fn test_empty_heap() {
    let mut heap = MaxHeap::new::<i32>();
    assert_eq!(heap.next(), None);
}

#[test]
fn test_min_heap() {
    let mut heap = MinHeap::new();
    heap.add(4);
    heap.add(2);
    heap.add(9);
    heap.add(11);
    assert_eq!(heap.len(), 4);
    assert_eq!(heap.next(), Some(2));
    assert_eq!(heap.next(), Some(4));
    assert_eq!(heap.next(), Some(9));
    heap.add(1);
    assert_eq!(heap.next(), Some(1));
}

#[test]
fn test_max_heap() {
    let mut heap = MaxHeap::new();
    heap.add(4);
    heap.add(2);
    heap.add(9);
    heap.add(11);
    assert_eq!(heap.len(), 4);
    assert_eq!(heap.next(), Some(11));
    assert_eq!(heap.next(), Some(9));
    assert_eq!(heap.next(), Some(4));
    heap.add(1);
    assert_eq!(heap.next(), Some(2));
}

#[test]
fn pop_is_next() {
    let mut heap = MinHeap::new();
    heap.add(4);
    heap.add(2);
    heap.add(9);
    heap.add(11);
    assert_eq!(heap.pop(), Some(2));
    assert_eq!(heap.pop(), Some(4));
    assert_eq!(heap.pop(), Some(9));
    heap.add(1);
    assert_eq!(heap.pop(), Some(1));
    assert_eq!(heap.pop(), Some(11));
    assert_eq!(heap.pop(), None);
}

#[test]
fn new_min_and_new_max() {
    let mut low = Heap::new_min();
    let mut high = Heap::new_max();
    for value in [5u64, 1, 8, 3] {
        low.add(value);
        high.add(value);
    }
    assert_eq!(low.pop(), Some(1));
    assert_eq!(high.pop(), Some(8));
    assert_eq!(low.pop(), Some(3));
    assert_eq!(high.pop(), Some(5));
}

#[test]
fn new_heap_is_empty() {
    let heap = Heap::new(|a: &i32, b: &i32| a < b);
    assert_eq!(heap.len(), 0);
    assert!(heap.is_empty());
    assert_eq!(heap.as_slice(), &[] as &[i32]);
}

#[test]
fn empty_pop_can_be_repeated() {
    let mut heap = MaxHeap::new::<i32>();
    for _ in 0..5 {
        assert_eq!(heap.pop(), None);
        assert_eq!(heap.len(), 0);
        assert!(heap.is_empty());
    }
    heap.add(3);
    assert_eq!(heap.pop(), Some(3));
    for _ in 0..5 {
        assert_eq!(heap.pop(), None);
        assert_eq!(heap.len(), 0);
    }
}

#[test]
fn len_counts_adds_less_pops() {
    let mut heap = MinHeap::new();
    let mut adds = 0usize;
    let mut pops = 0usize;
    for round in 0..40u32 {
        if round % 3 == 2 {
            if heap.pop().is_some() {
                pops += 1;
            }
        } else {
            heap.add(round * 7 % 11);
            adds += 1;
        }
        assert_eq!(heap.len(), adds - pops);
        assert_eq!(heap.is_empty(), heap.len() == 0);
    }
    assert_eq!(adds, 27);
    assert_eq!(pops, 13);
    assert_eq!(heap.len(), 14);
}

#[test]
fn add_lets_the_value_rise() {
    let mut heap = MinHeap::new();
    heap.add(4);
    assert_eq!(heap.as_slice(), &[4]);
    heap.add(2);
    assert_eq!(heap.as_slice(), &[2, 4]);
    heap.add(9);
    assert_eq!(heap.as_slice(), &[2, 4, 9]);
    heap.add(11);
    assert_eq!(heap.as_slice(), &[2, 4, 9, 11]);
    heap.add(1);
    assert_eq!(heap.as_slice(), &[1, 2, 9, 11, 4]);
}

#[test]
fn pop_lets_the_last_sink_all_the_way() {
    let mut heap = MinHeap::new();
    for value in [1, 2, 3, 4, 5, 6, 7, 8, 9] {
        heap.add(value);
    }
    assert_eq!(heap.as_slice(), &[1, 2, 3, 4, 5, 6, 7, 8, 9]);
    assert_eq!(heap.pop(), Some(1));
    assert_eq!(heap.as_slice(), &[2, 4, 3, 8, 5, 6, 7, 9]);
    assert_eq!(heap.pop(), Some(2));
    assert_eq!(heap.as_slice(), &[3, 4, 6, 8, 5, 9, 7]);
}

fn in_heap_order<T>(elements: &[T], above: fn(&T, &T) -> bool) -> bool {
    (1..elements.len()).all(|child| !above(&elements[child], &elements[(child - 1) / 2]))
}

#[test]
fn heap_order_lasts() {
    let mut low = MinHeap::new();
    let mut high = MaxHeap::new();
    let mut seed = 12345u32;
    for round in 0..200 {
        seed = seed.wrapping_mul(1103515245).wrapping_add(12345);
        let value = (seed >> 16) % 50;
        if round % 4 == 3 {
            low.pop();
            high.pop();
        } else {
            low.add(value);
            high.add(value);
        }
        assert!(in_heap_order(low.as_slice(), |a, b| a < b));
        assert!(in_heap_order(high.as_slice(), |a, b| a > b));
    }
}

#[test]
fn equal_elements_tie() {
    let mut heap = MinHeap::new();
    heap.add(2);
    heap.add(2);
    heap.add(1);
    heap.add(2);
    assert_eq!(heap.as_slice(), &[1, 2, 2, 2]);
    assert_eq!(heap.pop(), Some(1));
    assert_eq!(heap.pop(), Some(2));
    assert_eq!(heap.pop(), Some(2));
    assert_eq!(heap.pop(), Some(2));
    assert_eq!(heap.pop(), None);
}

#[test]
fn drain_is_sorted_ascending() {
    let mut seed = 2024u64;
    let mut input = Vec::new();
    for _ in 0..500 {
        seed = seed.wrapping_mul(6364136223846793005).wrapping_add(1442695040888963407);
        input.push((seed >> 33) as i64 % 1000 - 500);
    }
    let mut heap = MinHeap::new();
    for value in &input {
        heap.add(*value);
    }
    assert_eq!(heap.len(), 500);
    let mut drained = Vec::new();
    while let Some(value) = heap.next() {
        drained.push(value);
    }
    let mut expected = input.clone();
    expected.sort();
    assert_eq!(drained, expected);
    assert!(heap.is_empty());
    assert_eq!(heap.next(), None);
}

#[test]
fn drain_is_sorted_descending() {
    let mut seed = 77u64;
    let mut input = Vec::new();
    for _ in 0..500 {
        seed = seed.wrapping_mul(6364136223846793005).wrapping_add(1442695040888963407);
        input.push((seed >> 33) as i64 % 1000 - 500);
    }
    let mut heap = MaxHeap::new();
    for value in &input {
        heap.add(*value);
    }
    let mut drained = Vec::new();
    while let Some(value) = heap.next() {
        drained.push(value);
    }
    let mut expected = input.clone();
    expected.sort();
    expected.reverse();
    assert_eq!(drained, expected);
}

#[test]
fn closure_as_comparator() {
    let mut heap = Heap::new(|a: &(u8, char), b: &(u8, char)| a.0 < b.0);
    heap.add((3, 'c'));
    heap.add((1, 'a'));
    heap.add((2, 'b'));
    heap.add((0, 'z'));
    assert_eq!(heap.len(), 4);
    assert_eq!(heap.pop(), Some((0, 'z')));
    assert_eq!(heap.pop(), Some((1, 'a')));
    assert_eq!(heap.pop(), Some((2, 'b')));
    assert_eq!(heap.pop(), Some((3, 'c')));
    assert_eq!(heap.pop(), None);
}

fn longer_first(a: &String, b: &String) -> bool {
    a.len() > b.len()
}

#[test]
fn function_as_comparator() {
    let mut heap = Heap::new(longer_first);
    heap.add(String::from("bb"));
    heap.add(String::from("dddd"));
    heap.add(String::from("a"));
    heap.add(String::from("ccc"));
    assert_eq!(heap.pop(), Some(String::from("dddd")));
    assert_eq!(heap.pop(), Some(String::from("ccc")));
    assert_eq!(heap.pop(), Some(String::from("bb")));
    assert_eq!(heap.pop(), Some(String::from("a")));
    assert!(heap.is_empty());
}

#[test]
fn compare_of_min_and_max() {
    assert!(MinHeap.compare(&1, &2));
    assert!(!MinHeap.compare(&2, &1));
    assert!(!MinHeap.compare(&2, &2));
    assert!(MaxHeap.compare(&2, &1));
    assert!(!MaxHeap.compare(&1, &2));
    assert!(!MaxHeap.compare(&2, &2));
}

#[test]
fn compare_of_function() {
    assert!(longer_first.compare(&String::from("ab"), &String::from("c")));
    assert!(!longer_first.compare(&String::from("c"), &String::from("ab")));
    let at_most = |a: &u8, b: &u8| a <= b;
    assert!(at_most.compare(&3, &3));
    assert!(!at_most.compare(&4, &3));
}

#[test]
fn at_most_as_comparator() {
    let mut heap = Heap::new(|a: &u8, b: &u8| a <= b);
    for value in [3, 1, 3, 2, 1] {
        heap.add(value);
    }
    assert_eq!(heap.len(), 5);
    let mut drained = Vec::new();
    while let Some(value) = heap.pop() {
        drained.push(value);
    }
    assert_eq!(drained, vec![1, 1, 2, 3, 3]);
}

#[test]
fn one_element() {
    let mut heap = MaxHeap::new();
    heap.add(7);
    assert_eq!(heap.len(), 1);
    assert!(!heap.is_empty());
    assert_eq!(heap.as_slice(), &[7]);
    assert_eq!(heap.pop(), Some(7));
    assert_eq!(heap.len(), 0);
    assert!(heap.is_empty());
    assert_eq!(heap.as_slice(), &[] as &[i32]);
}
