use mywheel::robin::Robin;

fn collect_from(r: &Robin, from_part: usize) -> Vec<i32> {
    let mut it = r.exclude(from_part);
    let mut out: Vec<i32> = Vec::new();
    while let Some(v) = it.next(r) {
        out.push(v);
    }
    out
}

#[test]
fn test_robin_constructor() {
    let r = Robin::new(5);
    let result = collect_from(&r, 0);
    assert_eq!(result, vec![1, 2, 3, 4]);
}

#[test]
fn test_robin_exclude() {
    let r = Robin::new(5);
    let mut iterator = r.exclude(3);
    let mut count: usize = 0;
    while iterator.next(&r).is_some() {
        count += 1;
    }
    assert_eq!(count, 4);
}

#[test]
fn test_robin_iteration() {
    // Starting from 0
    let r = Robin::new(5);
    let result = collect_from(&r, 0);
    assert_eq!(result, vec![1, 2, 3, 4]);

    // Starting from 3
    let r = Robin::new(5);
    let result = collect_from(&r, 3);
    assert_eq!(result, vec![4, 0, 1, 2]);

    // Starting from the last element
    let r = Robin::new(5);
    let result = collect_from(&r, 4);
    assert_eq!(result, vec![0, 1, 2, 3]);
}

#[test]
fn test_robin_one_part() {
    let r = Robin::new(1);
    let result = collect_from(&r, 0);
    assert_eq!(result, Vec::<i32>::new());
}
