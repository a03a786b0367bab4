use async_priority_lock::{HighestFirst, LowestFirst, Priority, FIFO, LIFO};
use std::cmp::Ordering;

#[test]
fn greater_values_come_first() {
    let three: HighestFirst<u32> = 3;
    assert_eq!(three.compare(&2), Ordering::Greater);
    assert_eq!(three.compare(&3), Ordering::Equal);
    assert_eq!(three.compare(&4), Ordering::Less);
    assert_eq!(three.compare_new(&2), Ordering::Greater);
    assert_eq!(three.compare_new(&3), Ordering::Equal);
    assert_eq!(three.compare_new(&4), Ordering::Less);
}

#[test]
fn strings_have_a_priority() {
    let b = String::from("b");
    assert_eq!(b.compare(&String::from("a")), Ordering::Greater);
    assert_eq!(b.compare_new(&String::from("c")), Ordering::Less);
}

#[test]
fn lowest_first_reverses() {
    let three = LowestFirst::from(3);
    assert_eq!(three.compare(&LowestFirst::from(2)), Ordering::Less);
    assert_eq!(three.compare(&LowestFirst::from(3)), Ordering::Equal);
    assert_eq!(three.compare(&LowestFirst::from(4)), Ordering::Greater);
    assert_eq!(three.compare_new(&LowestFirst::from(3)), Ordering::Equal);
    assert_eq!(three.compare_new(&LowestFirst::from(4)), Ordering::Greater);
}

#[test]
fn fifo_places_new_ones_last() {
    let three: FIFO<u32> = 3.into();
    assert_eq!(three.compare(&3.into()), Ordering::Equal);
    assert_eq!(three.compare_new(&3.into()), Ordering::Less);
    assert_eq!(three.compare_new(&2.into()), Ordering::Greater);
    assert_eq!(three.compare_new(&4.into()), Ordering::Less);
}

#[test]
fn lifo_places_new_ones_first() {
    let three: LIFO<u32> = 3.into();
    assert_eq!(three.compare(&3.into()), Ordering::Equal);
    assert_eq!(three.compare_new(&3.into()), Ordering::Greater);
    assert_eq!(three.compare_new(&2.into()), Ordering::Greater);
    assert_eq!(three.compare_new(&4.into()), Ordering::Less);
}

#[test]
fn wrappers_combine() {
    let three: FIFO<LowestFirst<u32>> = 3.into();
    assert_eq!(three.compare(&FIFO::from(LowestFirst::from(4))), Ordering::Greater);
    assert_eq!(three.compare_new(&FIFO::from(LowestFirst::from(3))), Ordering::Less);
    let three: LIFO<LowestFirst<u32>> = 3.into();
    assert_eq!(three.compare(&LIFO::from(LowestFirst::from(2))), Ordering::Less);
    assert_eq!(three.compare_new(&LIFO::from(LowestFirst::from(3))), Ordering::Greater);
    let both: FIFO<LIFO<u32>> = LIFO::from(3).into();
    assert_eq!(both.compare_new(&FIFO::from(LIFO::from(3))), Ordering::Greater);
}

#[test]
fn defaults_have_the_default_inside() {
    assert_eq!(LowestFirst::<u8>::default().compare(&LowestFirst::from(0)), Ordering::Equal);
    assert_eq!(FIFO::<u8>::default().compare(&FIFO::from(0)), Ordering::Equal);
    assert_eq!(LIFO::<u8>::default().compare(&LIFO::from(0)), Ordering::Equal);
}

#[test]
fn copies_have_the_same_inside() {
    assert_eq!(LowestFirst::from(7).clone().into_inner(), 7);
    let word: FIFO<String> = String::from("a").into();
    assert_eq!(word.clone().into_inner(), "a");
    let three: LIFO<u32> = 3.into();
    let copy = three;
    assert_eq!(three.into_inner(), copy.into_inner());
}
