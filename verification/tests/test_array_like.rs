use mywheel::array_like::RepeatArray;
use mywheel::array_like::ShiftArray;

#[test]
fn test_repeat_array_constructor() {
    let ra = RepeatArray::new(10, 5);
    assert_eq!(ra.value, 10);
    assert_eq!(ra.size, 5);
}

#[test]
fn test_repeat_array_getitem() {
    let ra = RepeatArray::new(10, 5);
    assert_eq!(*ra.get(0), 10);
    assert_eq!(*ra.get(4), 10);
    // The index is ignored, so any index should work
    assert_eq!(*ra.get(100), 10);
}

#[test]
fn test_repeat_array_len() {
    let ra = RepeatArray::new(10, 5);
    assert_eq!(ra.size, 5);
}

#[test]
fn test_repeat_array_iter() {
    let ra = RepeatArray::new(10, 3);
    let result: Vec<i32> = ra.to_vec();
    assert_eq!(result, vec![10, 10, 10]);
}

#[test]
fn test_repeat_array_get() {
    let ra = RepeatArray::new(10, 5);
    assert_eq!(ra.get(0), &10);
    assert_eq!(ra.get(100), &10);
}

#[test]
fn test_shift_array_constructor() {
    let sa = ShiftArray::from(vec![1, 2, 3]);
    assert_eq!(sa.start(), 0);
    let result: Vec<i32> = sa.to_vec();
    assert_eq!(result, vec![1, 2, 3]);
}

#[test]
fn test_shift_array_set_start() {
    let mut sa = ShiftArray::from(vec![1, 2, 3]);
    sa.set_start(5);
    assert_eq!(sa.start(), 5);
}

#[test]
fn test_shift_array_getitem() {
    let mut sa = ShiftArray::from(vec![1, 2, 3]);
    sa.set_start(5);
    assert_eq!(*sa.get(5), 1);
    assert_eq!(*sa.get(7), 3);
}

#[test]
fn test_shift_array_setitem() {
    let mut sa = ShiftArray::from(vec![1, 2, 3]);
    sa.set_start(5);
    sa.set(6, 10);
    assert_eq!(*sa.get(6), 10);
    let result: Vec<i32> = sa.to_vec();
    assert_eq!(result, vec![1, 10, 3]);
}

#[test]
fn test_shift_array_len() {
    let sa = ShiftArray::from(vec![1, 2, 3]);
    let count = sa.len();
    assert_eq!(count, 3);
}

#[test]
fn test_shift_array_items() {
    let mut sa = ShiftArray::from(vec![1, 2, 3]);
    sa.set_start(5);
    let items: Vec<(usize, i32)> = sa.items();
    assert_eq!(items, vec![(5, 1), (6, 2), (7, 3)]);
}
