use mywheel::bpqueue::BPQueue;

#[test]
fn test_bpqueue_constructor() {
    let bpq = BPQueue::new(-3, 3);
    assert!(bpq.is_empty());
    assert_eq!(bpq.get_max(), -4); // a - 1
}

#[test]
fn test_bpqueue_append_and_pop() {
    let mut bpq = BPQueue::new(-5, 5);
    let a = bpq.new_node(1);
    let b = bpq.new_node(2);
    let c = bpq.new_node(3);

    bpq.append(a, 3);
    bpq.append(b, -2);
    bpq.append(c, 5);

    assert!(!bpq.is_empty());
    assert_eq!(bpq.get_max(), 5);

    bpq.popleft();
    assert_eq!(bpq.get_max(), 3);

    bpq.popleft();
    assert_eq!(bpq.get_max(), -2);

    bpq.popleft();
    assert!(bpq.is_empty());
}

#[test]
fn test_bpqueue_appendleft() {
    let mut bpq = BPQueue::new(-5, 5);
    let a = bpq.new_node(1);
    let b = bpq.new_node(2);

    bpq.appendleft(a, 3);
    bpq.appendleft(b, 3);

    bpq.popleft();
    bpq.popleft();
}

#[test]
fn test_bpqueue_clear() {
    let mut bpq = BPQueue::new(-5, 5);
    let a = bpq.new_node(1);

    bpq.append(a, 3);
    bpq.clear();
    assert!(bpq.is_empty());
}

#[test]
fn test_bpqueue_key_manipulation() {
    let mut bpq = BPQueue::new(-5, 5);
    let a = bpq.new_node(1);

    bpq.append(a, 0);
    assert_eq!(bpq.get_max(), 0);

    bpq.increase_key(a, 2);
    assert_eq!(bpq.get_max(), 2);

    bpq.decrease_key(a, 3);
    assert_eq!(bpq.get_max(), -1);

    bpq.modify_key(a, 4);
    assert_eq!(bpq.get_max(), 3);

    bpq.modify_key(a, -5);
    assert_eq!(bpq.get_max(), -2);
}

#[test]
fn test_bpqueue_detach() {
    let mut bpq = BPQueue::new(-5, 5);
    let a = bpq.new_node(1);
    let b = bpq.new_node(2);

    bpq.append(a, 3);
    bpq.append(b, 5);

    bpq.detach(a);
    assert_eq!(bpq.get_max(), 5);

    bpq.popleft();
    assert!(bpq.is_empty());
}

#[test]
fn test_bpqueue_locked_item() {
    let mut bpq = BPQueue::new(-5, 5);
    let a = bpq.new_node(1);
    let b = bpq.new_node(1);

    bpq.append(b, 0);
    bpq.append(a, 0);
    bpq.detach(a); // a is locked (not a member) from here on
    assert!(bpq.is_node_locked(a));
    bpq.modify_key(a, 3); // Should have no effect
    assert_eq!(bpq.get_max(), 0);
}

#[test]
fn test_bpqueue_pop_keys_nonincreasing() {
    let mut bpq = BPQueue::new(-5, 5);
    for (aux, key) in [(1, 2), (2, -4), (3, 5), (4, 2), (5, 0), (6, 5)] {
        let h = bpq.new_node(aux);
        if aux % 2 == 0 {
            bpq.appendleft(h, key);
        } else {
            bpq.append(h, key);
        }
    }
    let mut last = i64::MAX;
    while !bpq.is_empty() {
        let h = bpq.popleft();
        let key = bpq.key_of(h);
        assert!(key <= last);
        last = key;
    }
}

#[test]
fn test_bpqueue_increase_then_decrease_restores() {
    let mut bpq = BPQueue::new(-5, 5);
    let a = bpq.new_node(1);
    bpq.append(a, 2);
    assert_eq!(bpq.get_max(), 2);
    let key_before = bpq.key_of(a);

    bpq.increase_key(a, 3);
    bpq.decrease_key(a, 3);

    assert_eq!(bpq.key_of(a), key_before);
    assert_eq!(bpq.get_max(), 2);
}

#[test]
fn test_bpqueue_modify_key_detached_noop() {
    let mut bpq = BPQueue::new(-5, 5);
    let a = bpq.new_node(1);
    let b = bpq.new_node(2);
    bpq.append(a, 0);
    bpq.append(b, 2);

    bpq.detach(a);
    assert!(bpq.is_node_locked(a));
    let key_before = bpq.key_of(a);
    let max_before = bpq.get_max();

    bpq.modify_key(a, 3);

    assert_eq!(bpq.key_of(a), key_before);
    assert_eq!(bpq.get_max(), max_before);
    assert!(bpq.is_node_locked(a));
}

#[test]
fn test_bpqueue_clear_unconditional() {
    let mut bpq = BPQueue::new(-2, 2);
    bpq.clear();
    assert!(bpq.is_empty());

    let a = bpq.new_node(1);
    let b = bpq.new_node(2);
    bpq.append(a, -1);
    bpq.append(b, 2);
    bpq.clear();
    assert!(bpq.is_empty());

    let c = bpq.new_node(3);
    bpq.append(c, 0);
    bpq.clear();
    assert!(bpq.is_empty());
}

#[test]
fn test_bpqueue_detach_sole_member() {
    let mut bpq = BPQueue::new(-5, 5);
    let a = bpq.new_node(1);
    bpq.append(a, 3);
    bpq.detach(a);
    assert!(bpq.is_empty());

    let b = bpq.new_node(2);
    let c = bpq.new_node(3);
    bpq.append(b, 3);
    bpq.append(c, 1);
    bpq.detach(b);
    assert!(!bpq.is_empty());
    assert_eq!(bpq.get_max(), 1);
}

#[test]
fn test_bpqueue_tie_break() {
    // Promoted into the same bucket: last promoted leaves first.
    let mut bpq = BPQueue::new(-5, 5);
    let a = bpq.new_node(1);
    let b = bpq.new_node(2);
    bpq.append(a, 0);
    bpq.append(b, 0);
    bpq.increase_key(a, 2);
    bpq.increase_key(b, 2);
    assert_eq!(bpq.popleft(), b);
    assert_eq!(bpq.popleft(), a);

    // Demoted into the same bucket: arrival order is kept.
    let mut bpq = BPQueue::new(-5, 5);
    let c = bpq.new_node(3);
    let d = bpq.new_node(4);
    bpq.append(c, 4);
    bpq.append(d, 4);
    bpq.decrease_key(c, 2);
    bpq.decrease_key(d, 2);
    assert_eq!(bpq.popleft(), c);
    assert_eq!(bpq.popleft(), d);
}

#[test]
fn test_bpqueue_appendfrom_matches_appends() {
    let keys = [3, -2, 5, 3, 0];

    let mut bulk = BPQueue::new(-5, 5);
    let mut handles = Vec::new();
    for (i, &k) in keys.iter().enumerate() {
        let h = bulk.new_node(i as i32);
        bulk.set_key(h, k);
        handles.push(h);
    }
    bulk.appendfrom(&handles);

    let mut one_by_one = BPQueue::new(-5, 5);
    for (i, &k) in keys.iter().enumerate() {
        let h = one_by_one.new_node(i as i32);
        one_by_one.append(h, k);
    }

    assert_eq!(bulk.get_max(), one_by_one.get_max());
    let mut bulk_keys = Vec::new();
    while !bulk.is_empty() {
        let h = bulk.popleft();
        bulk_keys.push(bulk.key_of(h));
    }
    let mut single_keys = Vec::new();
    while !one_by_one.is_empty() {
        let h = one_by_one.popleft();
        single_keys.push(one_by_one.key_of(h));
    }
    assert_eq!(bulk_keys, single_keys);
}

#[test]
fn test_bpqueue_appendleft_direct() {
    let mut bpq = BPQueue::new(-5, 5);
    let a = bpq.new_node(1);
    bpq.set_key(a, 4);
    bpq.appendleft_direct(a);
    assert_eq!(bpq.get_max(), 4);
    assert_eq!(bpq.popleft(), a);
    assert!(bpq.is_empty());
}

#[test]
fn test_bpqueue_set_key_and_getters() {
    let mut bpq = BPQueue::new(-5, 5);
    let a = bpq.new_node(7);
    assert_eq!(bpq.aux_of(a), 7);
    assert!(bpq.is_node_locked(a));
    bpq.set_key(a, -3);
    // Stored keys are normalized: -3 - (-6) == 3.
    assert_eq!(bpq.key_of(a), 3);
}

#[test]
fn test_bpqueue_iter_descending() {
    let mut bpq = BPQueue::new(-5, 5);
    let a = bpq.new_node(1);
    let b = bpq.new_node(2);
    let c = bpq.new_node(3);
    bpq.append(a, 3);
    bpq.append(b, -2);
    bpq.append(c, 5);

    let mut seen = Vec::new();
    let mut it = bpq.iter();
    while let Some(h) = it.next(&bpq) {
        seen.push(h);
    }
    assert_eq!(seen, vec![c, a, b]);

    let empty = BPQueue::new(-5, 5);
    let mut it = empty.iter();
    assert_eq!(it.next(&empty), None);
}

#[test]
fn test_bpqueue_single_key_domain() {
    let mut bpq = BPQueue::new(4, 4);
    let a = bpq.new_node(1);
    bpq.append(a, 4);
    assert_eq!(bpq.get_max(), 4);
    bpq.popleft();
    assert!(bpq.is_empty());
    assert_eq!(bpq.get_max(), 3); // a - 1
}
