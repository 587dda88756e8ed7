use bptree::checked;
use bptree::shared_checked;
use bptree::shared_unchecked;

#[test]
fn rc_cell_grants_shared_and_exclusive_access() {
    let mut cell = checked::RcCell::new((1u64, "one"));
    assert_eq!(*cell.get(), (1, "one"));
    {
        let v = cell.get_mut();
        v.1 = "eins";
    }
    assert_eq!(*cell.get(), (1, "eins"));
}

#[test]
fn checked_map_ref_narrows_to_a_component() {
    let pair = (7u64, 70u32);
    let second = checked::map_ref(&pair, |p: &(u64, u32)| &p.1);
    assert_eq!(*second, 70);
    let (a, b) = checked::split_ref(&pair, |p: &(u64, u32)| (&p.0, &p.1));
    assert_eq!((*a, *b), (7, 70));
}

#[test]
fn checked_mut_to_key_freezes_the_borrow() {
    let mut k = 9u64;
    let key = checked::mut_to_key(&mut k);
    assert_eq!(*key.get(), 9);
}

#[test]
fn shared_cell_checked_round_trip() {
    let mut cell = shared_checked::Shared::new(5u64);
    assert_eq!(*cell.borrow(), 5);
    *cell.borrow_mut() = 6;
    assert_eq!(*cell.borrow(), 6);
    let pair = (1u8, 2u8);
    let b = shared_checked::map_ref(&pair, |p: &(u8, u8)| &p.1);
    assert_eq!(*b, 2);
    let (x, y) = shared_checked::split_ref(&pair, |p: &(u8, u8)| (&p.0, &p.1));
    assert_eq!((*x, *y), (1, 2));
    let mut k = 3u8;
    assert_eq!(*shared_checked::mut_to_key(&mut k).get(), 3);
}

#[test]
fn shared_cell_unchecked_round_trip() {
    let mut cell = shared_unchecked::Shared::new(5u64);
    assert_eq!(*cell.borrow(), 5);
    *cell.borrow_mut() = 6;
    assert_eq!(*cell.borrow(), 6);
    let pair = (1u8, 2u8);
    let b = shared_unchecked::map_ref(&pair, |p: &(u8, u8)| &p.1);
    assert_eq!(*b, 2);
    let (x, y) = shared_unchecked::split_ref(&pair, |p: &(u8, u8)| (&p.0, &p.1));
    assert_eq!((*x, *y), (1, 2));
    let mut k = 3u8;
    assert_eq!(*shared_unchecked::mut_to_key(&mut k), 3);
}
