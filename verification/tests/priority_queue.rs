use bintrees::priority_queue::{BinaryHeap, Error, HeapType};

#[test]
pub fn valid_parent() {
    let arr = vec![1, 2, 3, 4, 5, 6, 7, 8, 9, 10];

    let bin_heap = BinaryHeap::new(HeapType::MinHeap, arr);

    let parent = bin_heap.parent(9).unwrap();
    assert_eq!(parent, 4);

    let arr = vec![1, 2, 3, 4, 5, 6, 7, 8, 9];

    let bin_heap = BinaryHeap::new(HeapType::MinHeap, arr);

    let parent = bin_heap.parent(8).unwrap();
    assert_eq!(parent, 3);

    let parent = bin_heap.parent(2).unwrap();
    assert_eq!(parent, 0);

    let parent = bin_heap.parent(5).unwrap();
    assert_eq!(parent, 2);
}

#[test]
pub fn invalid_parent() {
    let arr = vec![1, 2, 3, 4, 5, 6, 7, 8, 9, 10];
    let bin_heap = BinaryHeap::new(HeapType::MinHeap, arr);

    let parent = bin_heap.parent(10);
    assert!(parent.is_err());

    let parent = bin_heap.parent(0);
    assert!(parent.is_err());
}

#[test]
pub fn valid_left_right() {
    let arr = vec![1, 2, 3, 4, 5, 6, 7, 8, 9, 10];
    let bin_heap = BinaryHeap::new(HeapType::MinHeap, arr);

    let left = bin_heap.left(3).unwrap();
    assert_eq!(left, 7);

    let right = bin_heap.right(3).unwrap();
    assert_eq!(right, 8);
}

#[test]
pub fn invalid_left_right() {
    let arr = vec![1, 2, 3, 4, 5, 6, 7, 8, 9, 10];
    let bin_heap = BinaryHeap::new(HeapType::MinHeap, arr);

    let left = bin_heap.left(6);
    assert!(left.is_err());

    let right = bin_heap.right(4);
    assert!(right.is_err());
}

#[test]
pub fn build_min_heap() {
    let arr = vec![7, 6, 5, 4, 3, 2, 1];
    let mut bin_heap = BinaryHeap::new(HeapType::MinHeap, arr);
    bin_heap.build_heap();
    assert_eq!(*bin_heap.elements(), vec![1, 3, 2, 4, 6, 7, 5]);

    let arr = vec![8, 7, 6, 5, 4, 3, 2, 1];
    let mut bin_heap = BinaryHeap::new(HeapType::MinHeap, arr);
    bin_heap.build_heap();
    assert_eq!(*bin_heap.elements(), vec![1, 4, 2, 5, 8, 3, 6, 7]);

    let arr = vec![2, 1];
    let mut bin_heap = BinaryHeap::new(HeapType::MinHeap, arr);
    bin_heap.build_heap();
    assert_eq!(*bin_heap.elements(), vec![1, 2]);
}

#[test]
pub fn minimum_element() {
    let arr = vec![1, 12, 14, 6, 18, 112, 44, 32];
    let mut bin_heap = BinaryHeap::new(HeapType::MinHeap, arr);
    bin_heap.build_heap();

    assert_eq!(bin_heap.minimum().unwrap(), 1);
}

#[test]
pub fn extract_minimum_one_element() {
    let arr = vec![1];
    let mut bin_heap = BinaryHeap::new(HeapType::MinHeap, arr);
    bin_heap.build_heap();

    assert_eq!(bin_heap.extract_min().unwrap(), 1);
}

#[test]
pub fn extract_minimum_no_elements() {
    let arr: Vec<u32> = vec![];
    let mut bin_heap = BinaryHeap::new(HeapType::MinHeap, arr);
    bin_heap.build_heap();

    assert!(bin_heap.extract_min().is_none());
}

#[test]
pub fn extract_minimum() {
    let arr = vec![1, 12, 14, 6, 18, 112, 44, 32];
    let mut bin_heap = BinaryHeap::new(HeapType::MinHeap, arr);
    bin_heap.build_heap();

    assert_eq!(bin_heap.extract_min().unwrap(), 1);
    assert_eq!(*bin_heap.elements(), vec![6, 12, 14, 32, 18, 112, 44]);

    assert_eq!(bin_heap.extract_min().unwrap(), 6);
    assert_eq!(*bin_heap.elements(), vec![12, 18, 14, 32, 44, 112]);

    assert_eq!(bin_heap.extract_min().unwrap(), 12);
    assert_eq!(*bin_heap.elements(), vec![14, 18, 112, 32, 44]);

    assert_eq!(bin_heap.extract_min().unwrap(), 14);
    assert_eq!(*bin_heap.elements(), vec![18, 32, 112, 44]);

    assert_eq!(bin_heap.extract_min().unwrap(), 18);
    assert_eq!(*bin_heap.elements(), vec![32, 44, 112]);

    assert_eq!(bin_heap.extract_min().unwrap(), 32);
    assert_eq!(*bin_heap.elements(), vec![44, 112]);

    assert_eq!(bin_heap.extract_min().unwrap(), 44);
    assert_eq!(*bin_heap.elements(), vec![112]);

    assert_eq!(bin_heap.extract_min().unwrap(), 112);
    assert_eq!(*bin_heap.elements(), Vec::<u32>::new());

    assert!(bin_heap.extract_min().is_none());
}

#[test]
fn parent_error_kind() {
    let arr = vec![5, 6, 7];
    let bin_heap = BinaryHeap::new(HeapType::MinHeap, arr);

    assert_eq!(bin_heap.parent(0), Err(Error::IndexOutOfBounds));
    assert_eq!(bin_heap.parent(3), Err(Error::IndexOutOfBounds));
    assert_eq!(bin_heap.parent(1), Ok(0));
}

#[test]
fn left_right_error_kinds() {
    let arr = vec![5, 6, 7];
    let bin_heap = BinaryHeap::new(HeapType::MinHeap, arr);

    assert_eq!(bin_heap.left(1), Err(Error::NoLeft));
    assert_eq!(bin_heap.right(1), Err(Error::NoRight));
    assert_eq!(bin_heap.left(0), Ok(1));
    assert_eq!(bin_heap.right(0), Ok(2));
}

#[test]
fn build_heap_small_inputs_untouched() {
    let arr: Vec<u32> = vec![];
    let mut bin_heap = BinaryHeap::new(HeapType::MinHeap, arr);
    bin_heap.build_heap();
    assert_eq!(*bin_heap.elements(), Vec::<u32>::new());
    assert!(bin_heap.minimum().is_none());

    let arr = vec![9];
    let mut bin_heap = BinaryHeap::new(HeapType::MinHeap, arr);
    bin_heap.build_heap();
    assert_eq!(*bin_heap.elements(), vec![9]);
    assert_eq!(bin_heap.minimum().unwrap(), 9);
}

#[test]
fn minimum_on_empty_heap() {
    let arr: Vec<u32> = vec![];
    let bin_heap = BinaryHeap::new(HeapType::MinHeap, arr);
    assert!(bin_heap.minimum().is_none());
}

#[test]
fn extraction_is_monotonic() {
    let arr = vec![20, 3, 3, 15, 8, 1, 90, 44, 2, 7];
    let mut bin_heap = BinaryHeap::new(HeapType::MinHeap, arr);
    bin_heap.build_heap();

    let mut extracted: Vec<u32> = Vec::new();
    while let Some(v) = bin_heap.extract_min() {
        extracted.push(v);
    }
    assert_eq!(extracted, vec![1, 2, 3, 3, 7, 8, 15, 20, 44, 90]);
    assert!(bin_heap.extract_min().is_none());
}
