use stencil::soa::{ByFn, SpeedVec};

#[test]
fn modification_consistency() {
    let mut items = SpeedVec::with_capacity(10, ByFn(|item: &i32| item * item));
    items.push(1);
    items.push(2);
    items.push(3);
    items.push(4);
    {
        let mut fiter = items.iter_fast();
        assert_eq!(fiter.next(), Some(&1));
        assert_eq!(fiter.next(), Some(&4));
        assert_eq!(fiter.next(), Some(&9));
        assert_eq!(fiter.next(), Some(&16));
    }
    assert!(items.get_mut(2).set(5));
    let mut fiter = items.iter_fast();
    assert_eq!(fiter.next(), Some(&1));
    assert_eq!(fiter.next(), Some(&4));
    assert_eq!(fiter.next(), Some(&25));
    assert_eq!(fiter.next(), Some(&16));
}

#[test]
fn fields_follow_their_items() {
    let mut items = SpeedVec::with_capacity(2, ByFn(|item: &i32| item * item));
    for i in 1..5 {
        items.push(i);
    }
    assert_eq!(items.swap_remove(1), 2);
    assert_eq!(items.inner(), &[1, 4, 3]);
    assert_eq!(items.iter_fast().copied().collect::<Vec<i32>>(), vec![1, 16, 9]);
    assert_eq!(items.get(2), Some(&3));
    assert_eq!(items.get(3), None);
    assert_eq!(items.get_mut(0).get(), Some(&1));
    assert!(items.get_mut(0).set(6));
    assert!(!items.get_mut(3).set(7));
    assert_eq!(items.iter_fast().copied().collect::<Vec<i32>>(), vec![36, 16, 9]);
    items.clear();
    assert_eq!(items.len(), 0);
    assert_eq!(items.iter_fast().next(), None);
}
