use ivfpq::float::{less, nan, rank_of, F32_MAX};
use ivfpq::heap::{can_sort, sort_items, TopKHeap};
use ivfpq::sort::sort_order;

fn bits(v: f32) -> u32 {
    v.to_bits()
}

#[test]
fn bit_patterns_are_ordered_like_numbers() {
    let values = [
        f32::NEG_INFINITY,
        -3.5,
        -1.0,
        -f32::MIN_POSITIVE,
        -0.0,
        0.0,
        f32::MIN_POSITIVE,
        0.25,
        7.0,
        f32::MAX,
        f32::INFINITY,
        f32::NAN,
    ];
    for a in values {
        assert_eq!(nan(bits(a)), a.is_nan());
        for b in values {
            assert_eq!(less(bits(a), bits(b)), a < b, "{} and {}", a, b);
        }
    }
    assert_eq!(F32_MAX, f32::MAX.to_bits());
    assert_eq!(rank_of(bits(-0.0)), rank_of(bits(0.0)));
}

#[test]
fn the_heap_keeps_the_nearest() {
    let dists = [5.0f32, 1.0, 9.0, -2.0, 7.5, 3.0, 0.5, 4.0];
    let mut heap = TopKHeap::new(3);
    for (i, d) in dists.iter().enumerate() {
        heap.push(bits(*d), i as i64);
    }
    assert!(heap.built);
    assert_eq!(
        heap.into_sorted(),
        vec![(bits(-2.0), 3), (bits(0.5), 6), (bits(1.0), 1)]
    );
}

#[test]
fn a_heap_with_room_keeps_everything() {
    let mut heap = TopKHeap::new(10);
    heap.push(bits(2.0), 20);
    heap.push(bits(1.0), 10);
    heap.push(bits(2.0), 21);
    assert!(!heap.built);
    assert_eq!(
        heap.into_sorted(),
        vec![(bits(1.0), 10), (bits(2.0), 20), (bits(2.0), 21)]
    );
}

#[test]
fn a_heap_of_no_capacity_keeps_nothing() {
    let mut heap = TopKHeap::new(0);
    heap.push(bits(1.0), 1);
    assert!(heap.into_sorted().is_empty());
}

#[test]
fn an_equal_distance_does_not_displace() {
    let mut heap = TopKHeap::new(1);
    heap.push(bits(1.0), 1);
    heap.push(bits(1.0), 2);
    assert_eq!(heap.into_sorted(), vec![(bits(1.0), 1)]);
}

#[test]
fn a_full_heap_has_its_largest_item_first() {
    let mut heap = TopKHeap::new(5);
    for i in 0..40i64 {
        heap.push(bits(((i * 17) % 40) as f32), i);
        if heap.data.len() == 5 {
            for c in 1..5 {
                assert!(rank_of(heap.data[c].0) <= rank_of(heap.data[(c - 1) / 2].0));
            }
        }
    }
    let sorted: Vec<f32> = heap.into_sorted().iter().map(|x| f32::from_bits(x.0)).collect();
    assert_eq!(sorted, vec![0.0, 1.0, 2.0, 3.0, 4.0]);
}

#[test]
fn what_is_no_number_cannot_be_sorted() {
    assert!(can_sort(&vec![(bits(f32::NAN), 1)]));
    assert!(!can_sort(&vec![(bits(f32::NAN), 1), (bits(1.0), 2)]));
    assert!(can_sort(&vec![(bits(f32::INFINITY), 1), (bits(1.0), 2)]));
}

#[test]
fn sorting_is_stable() {
    let items = vec![(bits(1.0), 4), (bits(0.0), 3), (bits(1.0), 2), (bits(-0.0), 1)];
    assert_eq!(
        sort_items(&items),
        vec![(bits(0.0), 3), (bits(-0.0), 1), (bits(1.0), 4), (bits(1.0), 2)]
    );
    assert_eq!(sort_order(&[3, 1, 2, 1, 3]), vec![1, 3, 2, 0, 4]);
    assert_eq!(sort_order(&[]), Vec::<usize>::new());
}
