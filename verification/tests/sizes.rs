use binfarce::pe::Slot;
use binfarce::sizes::{distance_among, distance_before, next_distinct, sort_by_address};

fn slots(addresses: &[u64]) -> Vec<Slot> {
    addresses.iter().enumerate().map(|(index, address)| Slot { address: *address, index }).collect()
}

#[test]
fn sorting_orders_by_address() {
    let mut items = slots(&[30, 10, 20]);
    sort_by_address(&mut items);
    assert_eq!(
        items,
        vec![
            Slot { address: 10, index: 1 },
            Slot { address: 20, index: 2 },
            Slot { address: 30, index: 0 },
        ]
    );
}

#[test]
fn sorting_keeps_the_order_of_equal_addresses() {
    let mut items = slots(&[7, 3, 7, 3, 7, 1]);
    sort_by_address(&mut items);
    let order: Vec<usize> = items.iter().map(|s| s.index).collect();
    assert_eq!(order, vec![5, 1, 3, 0, 2, 4]);
    let mut none: Vec<Slot> = Vec::new();
    sort_by_address(&mut none);
    assert!(none.is_empty());
}

#[test]
fn next_distinct_skips_equal_addresses() {
    let items = slots(&[10, 10, 10, 25, 25, 40]);
    assert_eq!(next_distinct(&items, 0), Some(25));
    assert_eq!(next_distinct(&items, 1), Some(25));
    assert_eq!(next_distinct(&items, 2), Some(25));
    assert_eq!(next_distinct(&items, 3), Some(40));
    assert_eq!(next_distinct(&items, 4), Some(40));
    assert_eq!(next_distinct(&items, 5), None);
}

#[test]
fn sizes_of_strictly_increasing_addresses() {
    let items = slots(&[0x10, 0x18, 0x40]);
    assert_eq!(distance_before(&items, 0, 0x100), Some(0x08));
    assert_eq!(distance_before(&items, 1, 0x100), Some(0x28));
    assert_eq!(distance_before(&items, 2, 0x100), Some(0xc0));
    assert_eq!(distance_among(&items, 0, 0x100), 0x08);
    assert_eq!(distance_among(&items, 1, 0x100), 0x28);
    assert_eq!(distance_among(&items, 2, 0x100), 0xc0);
}

#[test]
fn the_end_only_bounds_the_last_symbol_before() {
    // The end of the code lies between two addresses.
    let items = slots(&[0x10, 0x40]);
    assert_eq!(distance_before(&items, 0, 0x20), Some(0x30));
    assert_eq!(distance_before(&items, 1, 0x20), None);
    assert_eq!(distance_before(&items, 1, 0x40), None);
    assert_eq!(distance_before(&items, 1, 0x41), Some(1));
}

#[test]
fn the_end_counts_as_an_address_among() {
    let items = slots(&[0x10, 0x40]);
    assert_eq!(distance_among(&items, 0, 0x20), 0x10);
    assert_eq!(distance_among(&items, 1, 0x20), 0);
    assert_eq!(distance_among(&items, 1, 0x40), 0);
    assert_eq!(distance_among(&items, 0, 0x10), 0x30);
    assert_eq!(distance_among(&items, 0, 0x05), 0x30);
}

#[test]
fn shared_addresses_get_the_same_size() {
    let items = slots(&[0x10, 0x10, 0x30]);
    assert_eq!(distance_before(&items, 0, 0x50), Some(0x20));
    assert_eq!(distance_before(&items, 1, 0x50), Some(0x20));
    assert_eq!(distance_among(&items, 0, 0x50), 0x20);
    assert_eq!(distance_among(&items, 1, 0x50), 0x20);
    assert_eq!(distance_among(&items, 2, 0x50), 0x20);
}
