use mywheel::map_adapter::MapAdapter;

#[test]
fn test_map_adapter_constructor() {
    let lst = vec![1, 2, 3];
    let adapter = MapAdapter::new(lst.clone());
    assert_eq!(adapter.lst(), &lst);
}

#[test]
fn test_map_adapter_getitem() {
    let adapter = MapAdapter::new(vec![1, 2, 3]);
    assert_eq!(*adapter.get(0), 1);
    assert_eq!(*adapter.get(2), 3);
}

#[test]
fn test_map_adapter_setitem() {
    let mut adapter = MapAdapter::new(vec![1, 2, 3]);
    adapter.set(1, 5);
    assert_eq!(*adapter.get(1), 5);
}

#[test]
fn test_map_adapter_iter() {
    let adapter = MapAdapter::new(vec![1, 2, 3]);
    let result: Vec<i32> = adapter.values();
    assert_eq!(result, vec![1, 2, 3]);
}

#[test]
fn test_map_adapter_len() {
    let adapter = MapAdapter::new(vec![1, 2, 3]);
    let count = adapter.len();
    assert_eq!(count, 3);
}

#[test]
fn test_map_adapter_values() {
    let adapter = MapAdapter::new(vec![1, 2, 3]);
    let result: Vec<i32> = adapter.values();
    assert_eq!(result, vec![1, 2, 3]);
}

#[test]
fn test_map_adapter_items() {
    let adapter = MapAdapter::new(vec![1, 2, 3]);
    let result: Vec<(usize, i32)> = adapter.items();
    assert_eq!(result, vec![(0, 1), (1, 2), (2, 3)]);
}

#[test]
fn test_map_adapter_keys() {
    let adapter = MapAdapter::new(vec![1, 2, 3]);
    let result: Vec<usize> = adapter.keys();
    assert_eq!(result, vec![0, 1, 2]);
}

#[test]
fn test_map_adapter_lst_mut() {
    let mut adapter = MapAdapter::new(vec![1, 2, 3]);
    adapter.lst_mut().push(4);
    assert_eq!(adapter.lst(), &vec![1, 2, 3, 4]);
}
