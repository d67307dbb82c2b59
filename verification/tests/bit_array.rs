use data_structures::arrays::bit_array::BitArray;

#[test]
fn bit_array_test_new() {
    let bit_array = BitArray::new(100);
    assert_eq!(bit_array.size(), 100);
    assert_eq!(bit_array.words(), (100 + 63) / 64);
}

#[test]
fn test_set_and_get() {
    let mut bit_array = BitArray::new(100);
    bit_array.set(10);
    assert!(bit_array.get(10));
    assert!(!bit_array.get(11));
}

#[test]
fn bit_array_test_clear() {
    let mut bit_array = BitArray::new(100);
    bit_array.set(10);
    bit_array.clear(10);
    assert!(!bit_array.get(10));
}

#[test]
fn test_toggle() {
    let mut bit_array = BitArray::new(100);
    bit_array.toggle(10);
    assert!(bit_array.get(10));
    bit_array.toggle(10);
    assert!(!bit_array.get(10));
}

#[test]
fn test_invert() {
    let mut bit_array = BitArray::new(64);
    bit_array.set(0);
    bit_array.invert();
    assert!(!bit_array.get(0));
    assert!(bit_array.get(1));
}

#[test]
fn test_union() {
    let mut a = BitArray::new(64);
    let mut b = BitArray::new(64);
    a.set(0);
    b.set(1);
    let c = a.union(&b);
    assert!(c.get(0));
    assert!(c.get(1));
    assert!(!c.get(2));
}

#[test]
fn test_intersection() {
    let mut a = BitArray::new(64);
    let mut b = BitArray::new(64);
    a.set(0);
    a.set(1);
    b.set(1);
    let c = a.intersection(&b);
    assert!(!c.get(0));
    assert!(c.get(1));
}

#[test]
fn test_difference() {
    let mut a = BitArray::new(64);
    let mut b = BitArray::new(64);
    a.set(0);
    a.set(1);
    b.set(1);
    let c = a.difference(&b);
    assert!(c.get(0));
    assert!(!c.get(1));
}

#[test]
fn test_complement() {
    let mut a = BitArray::new(64);
    a.set(0);
    let b = a.complement();
    assert!(!b.get(0));
    assert!(b.get(1));
}

#[test]
fn test_iter_bits() {
    let mut bit_array = BitArray::new(64);
    bit_array.set(0);
    bit_array.set(1);
    let mut bits: Vec<(usize, bool)> = Vec::new();
    bit_array.iter_bits(|idx, value| bits.push((idx, value)));
    assert_eq!(bits.len(), 64);
    assert_eq!(bits[0], (0, true));
    assert_eq!(bits[1], (1, true));
    assert_eq!(bits[2], (2, false));
}

#[test]
fn test_empty_bit_array() {
    let bit_array = BitArray::new(0);
    assert_eq!(bit_array.size(), 0);
    assert!(bit_array.words() == 0);
}

#[test]
fn test_large_bit_array() {
    let mut bit_array = BitArray::new(1_000_000);
    bit_array.set(999_999);
    assert!(bit_array.get(999_999));
    bit_array.clear(999_999);
    assert!(!bit_array.get(999_999));
}

#[test]
fn test_boundary_conditions() {
    let mut bit_array = BitArray::new(128);
    bit_array.set(127);
    assert!(bit_array.get(127));
    bit_array.clear(127);
    assert!(!bit_array.get(127));
}

#[test]
fn set_clear_toggle_touch_one_bit_only() {
    let mut bits = BitArray::new(130);
    bits.set(63);
    bits.set(64);
    bits.set(129);
    for i in 0..130 {
        assert_eq!(bits.get(i), i == 63 || i == 64 || i == 129);
    }
    bits.clear(64);
    bits.toggle(0);
    bits.toggle(129);
    for i in 0..130 {
        assert_eq!(bits.get(i), i == 0 || i == 63);
    }
}

#[test]
fn iter_bits_stops_at_the_size_and_goes_in_order() {
    let mut bits = BitArray::new(70);
    bits.set(3);
    bits.set(69);
    let mut seen: Vec<(usize, bool)> = Vec::new();
    bits.iter_bits(|idx, value| seen.push((idx, value)));
    assert_eq!(seen.len(), 70);
    for (k, (idx, value)) in seen.iter().enumerate() {
        assert_eq!(*idx, k);
        assert_eq!(*value, k == 3 || k == 69);
    }
}

#[test]
fn bulk_operations_work_across_words() {
    let mut a = BitArray::new(200);
    let mut b = BitArray::new(200);
    for i in 0..200 {
        if i % 2 == 0 {
            a.set(i);
        }
        if i % 3 == 0 {
            b.set(i);
        }
    }
    let union = a.union(&b);
    let both = a.intersection(&b);
    let only_a = a.difference(&b);
    let not_a = a.complement();
    a.invert();
    for i in 0..200 {
        assert_eq!(union.get(i), i % 2 == 0 || i % 3 == 0);
        assert_eq!(both.get(i), i % 6 == 0);
        assert_eq!(only_a.get(i), i % 2 == 0 && i % 3 != 0);
        assert_eq!(not_a.get(i), i % 2 != 0);
        assert_eq!(a.get(i), i % 2 != 0);
    }
}
