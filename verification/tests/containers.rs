use wirt_collision::primitive::{HybridVec, StackVec};

#[test]
fn hybrid_vec_test_grow() {
    let mut stack_vec = HybridVec::<u32, 2>::new();
    stack_vec.push(0);
    stack_vec.push(1);
    stack_vec.push(2);
}

#[test]
fn test_slice() {
    let mut stack_vec = HybridVec::<u32, 2>::new();
    stack_vec.push(0);
    stack_vec.push(1);
    stack_vec.push(2);

    let mut count_iterations = 0;
    for _ in stack_vec.iter() {
        count_iterations += 1;
    }
    assert_eq!(3, count_iterations);
}

#[test]
fn stack_vec_test_grow() {
    let mut stack_vec = StackVec::<u32, 4>::new();
    stack_vec.push(0);
    stack_vec.push(1);
    stack_vec.push(2);
    stack_vec.push(3);
    assert_eq!(4, stack_vec.len());
}

#[test]
fn test_pop() {
    let mut stack_vec = StackVec::<u32, 4>::new();
    stack_vec.push(0);
    stack_vec.push(1);
    stack_vec.push(2);
    stack_vec.push(3);

    let mut count_pops = 0;
    while stack_vec.pop().is_some() {
        count_pops += 1;
    }
    assert_eq!(4, count_pops);
}

#[test]
fn stack_vec_starts_empty() {
    let stack_vec = StackVec::<u32, 4>::new();
    assert!(stack_vec.is_empty());
    assert_eq!(0, stack_vec.len());
    assert_eq!(4, stack_vec.capacity());
    assert_eq!(0, stack_vec.iter().count());
}

#[test]
fn stack_vec_pops_newest_first() {
    let mut stack_vec = StackVec::<u32, 3>::new();
    stack_vec.push(7);
    stack_vec.push(8);
    stack_vec.push(9);
    assert_eq!(Some(9), stack_vec.pop());
    assert_eq!(Some(8), stack_vec.pop());
    assert_eq!(1, stack_vec.len());
    assert_eq!(Some(7), stack_vec.pop());
    assert_eq!(None, stack_vec.pop());
    assert_eq!(None, stack_vec.pop());
    assert!(stack_vec.is_empty());
}

#[test]
fn stack_vec_slice_shows_only_pushed_elements() {
    let mut stack_vec = StackVec::<u32, 4>::new();
    stack_vec.push(5);
    stack_vec.push(6);
    let seen: Vec<u32> = stack_vec.iter().copied().collect();
    assert_eq!(vec![5, 6], seen);
    stack_vec.pop();
    let seen: Vec<u32> = stack_vec.iter().copied().collect();
    assert_eq!(vec![5], seen);
}

#[test]
fn stack_vec_clear_empties_and_allows_reuse() {
    let mut stack_vec = StackVec::<u32, 2>::new();
    stack_vec.push(1);
    stack_vec.push(2);
    stack_vec.clear();
    assert!(stack_vec.is_empty());
    assert_eq!(None, stack_vec.pop());
    stack_vec.push(3);
    stack_vec.push(4);
    assert_eq!(2, stack_vec.len());
    assert_eq!(Some(4), stack_vec.pop());
}

#[test]
fn stack_vec_from_and_extend_keep_order() {
    let mut stack_vec = StackVec::<u32, 5>::from(vec![1, 2]);
    assert_eq!(2, stack_vec.len());
    stack_vec.extend(&[3, 4]);
    let seen: Vec<u32> = stack_vec.iter().copied().collect();
    assert_eq!(vec![1, 2, 3, 4], seen);
    let other = StackVec::<u32, 3>::from_iter(&[9, 8, 7]);
    let seen: Vec<u32> = other.iter().copied().collect();
    assert_eq!(vec![9, 8, 7], seen);
}

#[test]
fn stack_vec_mutable_slice_writes_through() {
    let mut stack_vec = StackVec::<u32, 3>::new();
    stack_vec.push(1);
    stack_vec.push(2);
    for item in stack_vec.iter_mut() {
        *item += 10;
    }
    assert_eq!(2, stack_vec.len());
    assert_eq!(Some(12), stack_vec.pop());
    assert_eq!(Some(11), stack_vec.pop());
}

#[test]
fn stack_vec_copy_is_independent() {
    let mut stack_vec = StackVec::<u32, 3>::new();
    stack_vec.push(1);
    let mut copy = stack_vec.clone();
    copy.push(2);
    assert_eq!(1, stack_vec.len());
    assert_eq!(2, copy.len());
}

#[test]
fn hybrid_vec_keeps_elements_across_the_move_to_the_heap() {
    let mut hybrid_vec = HybridVec::<u32, 2>::new();
    assert!(hybrid_vec.is_empty());
    assert_eq!(2, hybrid_vec.capacity());
    hybrid_vec.push(10);
    hybrid_vec.push(11);
    assert_eq!(2, hybrid_vec.capacity());
    hybrid_vec.push(12);
    hybrid_vec.push(13);
    assert_eq!(4, hybrid_vec.len());
    assert!(hybrid_vec.capacity() >= 4);
    let seen: Vec<u32> = hybrid_vec.iter().copied().collect();
    assert_eq!(vec![10, 11, 12, 13], seen);
}

#[test]
fn hybrid_vec_pops_newest_first_inline_and_on_the_heap() {
    let mut hybrid_vec = HybridVec::<u32, 2>::new();
    hybrid_vec.push(1);
    assert_eq!(Some(1), hybrid_vec.pop());
    assert_eq!(None, hybrid_vec.pop());
    hybrid_vec.push(1);
    hybrid_vec.push(2);
    hybrid_vec.push(3);
    assert_eq!(Some(3), hybrid_vec.pop());
    assert_eq!(Some(2), hybrid_vec.pop());
    assert_eq!(Some(1), hybrid_vec.pop());
    assert_eq!(None, hybrid_vec.pop());
    assert!(hybrid_vec.is_empty());
}

#[test]
fn hybrid_vec_clear_empties() {
    let mut hybrid_vec = HybridVec::<u32, 2>::new();
    hybrid_vec.push(1);
    hybrid_vec.clear();
    assert_eq!(0, hybrid_vec.len());
    hybrid_vec.push(1);
    hybrid_vec.push(2);
    hybrid_vec.push(3);
    hybrid_vec.clear();
    assert!(hybrid_vec.is_empty());
    assert_eq!(None, hybrid_vec.pop());
    hybrid_vec.push(4);
    assert_eq!(1, hybrid_vec.len());
}

#[test]
fn hybrid_vec_from_vec_and_extend_keep_order() {
    let mut hybrid_vec = HybridVec::<u32, 2>::from(vec![1, 2, 3]);
    assert_eq!(3, hybrid_vec.len());
    hybrid_vec.extend(&[4, 5]);
    let seen: Vec<u32> = hybrid_vec.iter().copied().collect();
    assert_eq!(vec![1, 2, 3, 4, 5], seen);
    let short = HybridVec::<u32, 4>::from_iter(&[6, 7]);
    assert_eq!(4, short.capacity());
    let seen: Vec<u32> = short.iter().copied().collect();
    assert_eq!(vec![6, 7], seen);
    let empty = HybridVec::<u32, 4>::default();
    assert!(empty.is_empty());
}

#[test]
fn hybrid_vec_mutable_slice_writes_through() {
    let mut hybrid_vec = HybridVec::<u32, 2>::new();
    hybrid_vec.push(1);
    hybrid_vec.push(2);
    hybrid_vec.push(3);
    for item in hybrid_vec.iter_mut() {
        *item *= 2;
    }
    let seen: Vec<u32> = hybrid_vec.iter().copied().collect();
    assert_eq!(vec![2, 4, 6], seen);
    let copy = hybrid_vec.clone();
    assert_eq!(3, copy.len());
}
