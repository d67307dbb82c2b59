use data_structures::arrays::dyn_array::DynamicArray;

#[test]
fn dyn_array_test_new() {
    let arr: DynamicArray<i32, 5> = DynamicArray::new();
    assert_eq!(arr.len(), 0);
    assert_eq!(arr.capacity(), 5);
}

#[test]
fn test_push() {
    let mut arr: DynamicArray<i32, 2> = DynamicArray::new();
    arr.push(1);
    arr.push(2);
    arr.push(3);

    assert_eq!(arr.len(), 3);
    assert_eq!(arr.capacity(), 4);
    assert_eq!(arr.get(0), Some(&1));
    assert_eq!(arr.get(1), Some(&2));
    assert_eq!(arr.get(2), Some(&3));
}

#[test]
fn test_get() {
    let mut arr: DynamicArray<i32, 5> = DynamicArray::new();
    arr.push(10);
    arr.push(20);

    assert_eq!(arr.get(0), Some(&10));
    assert_eq!(arr.get(1), Some(&20));
    assert_eq!(arr.get(2), None);
}

#[test]
fn test_pop() {
    let mut arr: DynamicArray<i32, 5> = DynamicArray::new();
    arr.push(1);
    arr.push(2);

    assert_eq!(arr.pop(), Some(2));
    assert_eq!(arr.pop(), Some(1));
    assert_eq!(arr.pop(), None);
}

#[test]
fn dyn_array_test_grow() {
    let mut arr: DynamicArray<i32, 2> = DynamicArray::new();
    arr.push(1);
    arr.push(2);
    assert_eq!(arr.capacity(), 2);
    arr.push(3);
    assert_eq!(arr.capacity(), 4);
    arr.push(4);
    arr.push(5);
    assert_eq!(arr.capacity(), 8);
}

#[test]
fn test_default() {
    let arr: DynamicArray<i32, 10> = DynamicArray::default();
    assert_eq!(arr.len(), 0);
    assert_eq!(arr.capacity(), 10);
}

#[test]
fn test_push_pop_many() {
    let mut arr: DynamicArray<i32, 1> = DynamicArray::new();
    for i in 0..1000 {
        arr.push(i);
    }
    assert_eq!(arr.len(), 1000);
    for i in (0..1000).rev() {
        assert_eq!(arr.pop(), Some(i));
    }
    assert_eq!(arr.len(), 0);
}

#[test]
fn test_get_out_of_bounds() {
    let mut arr: DynamicArray<i32, 5> = DynamicArray::new();
    arr.push(1);
    assert_eq!(arr.get(0), Some(&1));
    assert_eq!(arr.get(1), None);
}

#[test]
fn pop_keeps_the_capacity_and_hides_the_slot() {
    let mut arr: DynamicArray<u8, 2> = DynamicArray::new();
    arr.push(7);
    arr.push(8);
    arr.push(9);
    assert_eq!(arr.capacity(), 4);
    assert_eq!(arr.pop(), Some(9));
    assert_eq!(arr.capacity(), 4);
    assert_eq!(arr.len(), 2);
    assert_eq!(arr.get(2), None);
    arr.push(5);
    assert_eq!(arr.get(2), Some(&5));
    assert_eq!(arr.capacity(), 4);
}
