use pathtracer::events::Event;
use pathtracer::hits::Ranked;
use pathtracer::order::{stable_sort, Keyed};

fn ranked(key: i64, value: u32) -> Ranked<u32> {
    Ranked { key, item: 0, value }
}

#[test]
fn sorting_nothing_gives_nothing() {
    let mut v: Vec<Ranked<u32>> = Vec::new();
    stable_sort(&mut v);
    assert!(v.is_empty());
}

#[test]
fn sorting_one_record_keeps_it() {
    let mut v = vec![ranked(7, 1)];
    stable_sort(&mut v);
    assert_eq!(v.len(), 1);
    assert_eq!((v[0].key, v[0].value), (7, 1));
}

#[test]
fn sort_orders_by_key() {
    let mut v = vec![ranked(5, 0), ranked(-2, 1), ranked(9, 2), ranked(0, 3), ranked(-7, 4)];
    stable_sort(&mut v);
    let keys: Vec<i64> = v.iter().map(|r| r.key).collect();
    assert_eq!(keys, vec![-7, -2, 0, 5, 9]);
    let values: Vec<u32> = v.iter().map(|r| r.value).collect();
    assert_eq!(values, vec![4, 1, 3, 0, 2]);
}

#[test]
fn sort_is_stable_on_equal_keys() {
    let mut v = vec![
        ranked(2, 10),
        ranked(1, 11),
        ranked(2, 12),
        ranked(1, 13),
        ranked(2, 14),
        ranked(0, 15),
        ranked(1, 16),
    ];
    stable_sort(&mut v);
    let got: Vec<(i64, u32)> = v.iter().map(|r| (r.key, r.value)).collect();
    assert_eq!(got, vec![(0, 15), (1, 11), (1, 13), (1, 16), (2, 10), (2, 12), (2, 14)]);
}

#[test]
fn sort_agrees_with_the_standard_stable_sort() {
    let mut state: u64 = 0x2545_f491_4f6c_dd1d;
    let mut v: Vec<Ranked<u32>> = Vec::new();
    for n in 0..500u32 {
        state = state.wrapping_mul(6364136223846793005).wrapping_add(1442695040888963407);
        v.push(ranked(((state >> 33) % 37) as i64 - 18, n));
    }
    let mut expected: Vec<(i64, u32)> = v.iter().map(|r| (r.key, r.value)).collect();
    expected.sort_by_key(|r| r.0);
    stable_sort(&mut v);
    let got: Vec<(i64, u32)> = v.iter().map(|r| (r.key, r.value)).collect();
    assert_eq!(got, expected);
}

#[test]
fn sort_handles_the_extreme_keys() {
    let mut v = vec![ranked(i64::MAX, 0), ranked(i64::MIN, 1), ranked(0, 2)];
    stable_sort(&mut v);
    let keys: Vec<i64> = v.iter().map(|r| r.key).collect();
    assert_eq!(keys, vec![i64::MIN, 0, i64::MAX]);
}

#[test]
fn records_are_ordered_by_their_sort_key() {
    let e = Event { value: -12, opens: true, item: 3 };
    assert_eq!(e.sort_key(), -12);
    assert_eq!(ranked(44, 0).sort_key(), 44);
}
