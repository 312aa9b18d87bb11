use mywheel::dllist::Dllink;
use mywheel::dllist::Dllist;

#[test]
fn test_dllink_constructor() {
    let mut link = Dllink::new(1);
    link.lock();
    assert_eq!(link.data(), &1);
    assert!(link.is_locked());
}

#[test]
fn test_dllink_lock_and_is_locked() {
    let mut link = Dllink::new(1);
    assert!(link.is_locked());

    // Attach another node to leave the locked state
    let mut link2 = Dllink::new(2);
    link.attach(&mut link2);
    assert!(!link.is_locked());

    link.lock();
    assert!(link.is_locked());
}

#[test]
fn test_dllink_attach_and_detach() {
    let mut a = Dllink::new("a");
    let mut b = Dllink::new("b");
    let mut c = Dllink::new("c");
    a.lock();
    b.lock();
    c.lock();

    // Attach b after a
    a.attach(&mut b);
    assert!(!a.is_locked());
    assert!(!b.is_locked());

    // Attach c after b
    b.attach(&mut c);
    assert!(!c.is_locked());

    // Detach b
    b.detach();
    assert!(b.is_locked());
}

#[test]
fn test_dllist_constructor() {
    let dlist = Dllist::new(0);
    assert!(dlist.is_empty());
}

#[test]
fn test_dllist_clear() {
    let mut dlist = Dllist::new(0);
    let link1 = Dllink::new(1);
    dlist.append(link1);
    assert!(!dlist.is_empty());
    dlist.clear();
    assert!(dlist.is_empty());
}

#[test]
fn test_dllist_append_and_pop() {
    let mut dlist = Dllist::new(0);
    let link1 = Dllink::new(1);
    let link2 = Dllink::new(2);

    dlist.append(link1);
    assert!(!dlist.is_empty());

    dlist.append(link2);

    let popped = dlist.pop();
    assert_eq!(popped.data(), &2);

    let popped = dlist.pop();
    assert_eq!(popped.data(), &1);
    assert!(dlist.is_empty());
}

#[test]
fn test_dllist_appendleft_and_popleft() {
    let mut dlist = Dllist::new(0);
    let link1 = Dllink::new(1);
    let link2 = Dllink::new(2);

    dlist.appendleft(link1);
    assert!(!dlist.is_empty());

    dlist.appendleft(link2);

    let popped = dlist.popleft();
    assert_eq!(popped.data(), &2);

    let popped = dlist.popleft();
    assert_eq!(popped.data(), &1);
    assert!(dlist.is_empty());
}

#[test]
fn test_dllist_iteration() {
    let mut dlist = Dllist::new(0);
    dlist.append(Dllink::new(1));
    dlist.append(Dllink::new(2));
    dlist.append(Dllink::new(3));

    let mut items: Vec<i32> = Vec::new();
    let mut it = dlist.iter();
    while let Some(v) = it.next(&dlist) {
        items.push(v);
    }
    assert_eq!(items, vec![1, 2, 3]);
}

#[test]
fn test_dllist_empty_iteration() {
    let dlist: Dllist<i32> = Dllist::new(0);
    let mut items: Vec<i32> = Vec::new();
    let mut it = dlist.iter();
    while let Some(v) = it.next(&dlist) {
        items.push(v);
    }
    assert_eq!(items, Vec::<i32>::new());
}

#[test]
fn test_dllist_to_vec() {
    let mut dlist = Dllist::new(0);
    dlist.append(Dllink::new(4));
    dlist.appendleft(Dllink::new(9));
    assert_eq!(dlist.to_vec(), vec![9, 4]);
}
