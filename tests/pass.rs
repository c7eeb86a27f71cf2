use pass::{Chain, Pass};

use std::cell::Cell;
use std::rc::Rc;

#[test]
fn create_and_deref() {
    let mut chain = Chain::new();
    let data_ref = Pass::new(&mut chain, 40);
    assert_eq!(data_ref.deref(&chain), Some(&40));
}

#[test]
fn create_and_deref_mut() {
    let mut chain = Chain::new();
    let data_ref = Pass::new(&mut chain, 40);
    *data_ref.deref_mut(&mut chain).unwrap() = 80;
    assert_eq!(data_ref.deref(&chain), Some(&80));
}

#[test]
fn pass() {
    let mut chain = Chain::new();
    let ref_one = Pass::new(&mut chain, 40);
    let ref_two = ref_one.pass(&mut chain).unwrap();

    assert_eq!(ref_one.deref(&chain), None);
    assert_eq!(ref_two.deref(&chain), Some(&40));
}

#[test]
fn pass_back() {
    let mut chain = Chain::new();
    let ref_one = Pass::new(&mut chain, 40);

    {
        let ref_two = ref_one.pass(&mut chain).unwrap();
        assert_eq!(ref_two.deref(&chain), Some(&40));
        ref_two.discard(&mut chain);
    }

    assert_eq!(ref_one.deref(&chain), Some(&40));
}

#[test]
fn pass_and_drop() {
    let mut chain = Chain::new();
    let ref_one = Pass::new(&mut chain, 40);

    let ref_two = ref_one.pass(&mut chain).unwrap();
    ref_one.discard(&mut chain);

    assert_eq!(ref_two.deref(&chain), Some(&40));
}

#[test]
fn move_a_pass() {
    let mut chain = Chain::new();
    let mut ref_one_is_here = Some(Pass::new(&mut chain, 40));
    let ref_one_will_be_here: Option<Pass<i32>>;

    {
        let ref_two = ref_one_is_here.as_mut().unwrap().pass(&mut chain).unwrap();
        assert_eq!(ref_two.deref(&chain), Some(&40));

        ref_one_will_be_here = ref_one_is_here.take();
        assert_eq!(ref_one_will_be_here.as_ref().unwrap().deref(&chain), None);
        ref_two.discard(&mut chain);
    }

    assert_eq!(ref_one_will_be_here.unwrap().deref(&chain), Some(&40));
}

#[test]
fn back_and_forth() {
    let mut chain = Chain::new();
    let one = Pass::new(&mut chain, 40);

    {
        let two = one.pass(&mut chain).unwrap();
        assert_eq!(two.deref(&chain), Some(&40));
        two.discard(&mut chain);
    }

    assert_eq!(one.deref(&chain), Some(&40));
}

#[test]
fn second_pass_from_empty_handle_is_refused() {
    let mut chain = Chain::new();
    let one = Pass::new(&mut chain, 40);
    let two = one.pass(&mut chain).unwrap();
    assert!(one.pass(&mut chain).is_none());
    assert_eq!(chain.len(), 2);
    assert_eq!(two.deref(&chain), Some(&40));
}

#[test]
fn deref_mut_on_empty_handle_is_none() {
    let mut chain = Chain::new();
    let one = Pass::new(&mut chain, 40);
    let two = one.pass(&mut chain).unwrap();
    assert!(one.deref_mut(&mut chain).is_none());
    *two.deref_mut(&mut chain).unwrap() += 2;
    assert_eq!(two.deref(&chain), Some(&42));
}

#[test]
fn reference_scenario() {
    let mut chain = Chain::new();
    let a = Pass::new(&mut chain, 40);
    assert_eq!(a.deref(&chain), Some(&40));
    let b = a.pass(&mut chain).unwrap();
    assert_eq!(a.deref(&chain), None);
    assert_eq!(b.deref(&chain), Some(&40));
    b.discard(&mut chain);
    assert_eq!(a.deref(&chain), Some(&40));
    let c = a.pass(&mut chain).unwrap();
    a.discard(&mut chain);
    assert_eq!(c.deref(&chain), Some(&40));
    assert_eq!(chain.len(), 1);
}

#[test]
fn value_returns_after_each_round() {
    let mut chain = Chain::new();
    let one = Pass::new(&mut chain, 7u8);
    for _ in 0..100 {
        let two = one.pass(&mut chain).unwrap();
        assert_eq!(one.deref(&chain), None);
        assert_eq!(two.deref(&chain), Some(&7));
        two.discard(&mut chain);
        assert_eq!(one.deref(&chain), Some(&7));
        assert_eq!(chain.len(), 1);
    }
    assert_eq!(chain.capacity(), 2);
}

#[test]
fn splicing_an_interior_link_keeps_the_chain_connected() {
    let mut chain = Chain::new();
    let a = Pass::new(&mut chain, 40);
    let b = a.pass(&mut chain).unwrap();
    let c = b.pass(&mut chain).unwrap();
    b.discard(&mut chain);
    assert_eq!(c.deref(&chain), Some(&40));
    c.discard(&mut chain);
    assert_eq!(a.deref(&chain), Some(&40));
    assert_eq!(chain.len(), 1);
}

#[test]
fn discarding_the_first_link_of_a_long_chain_then_the_rest() {
    let mut chain = Chain::new();
    let a = Pass::new(&mut chain, 40);
    let b = a.pass(&mut chain).unwrap();
    let c = b.pass(&mut chain).unwrap();
    let d = c.pass(&mut chain).unwrap();
    a.discard(&mut chain);
    c.discard(&mut chain);
    assert_eq!(d.deref(&chain), Some(&40));
    d.discard(&mut chain);
    assert_eq!(b.deref(&chain), Some(&40));
    let e = b.pass(&mut chain).unwrap();
    b.discard(&mut chain);
    assert_eq!(e.deref(&chain), Some(&40));
    assert_eq!(chain.len(), 1);
}

struct Counted {
    drops: Rc<Cell<usize>>,
}

impl Drop for Counted {
    fn drop(&mut self) {
        self.drops.set(self.drops.get() + 1);
    }
}

#[test]
fn value_is_destroyed_once_when_the_last_holder_goes() {
    let drops = Rc::new(Cell::new(0));
    let mut chain = Chain::new();
    let a = Pass::new(&mut chain, Counted { drops: drops.clone() });
    let b = a.pass(&mut chain).unwrap();
    let c = b.pass(&mut chain).unwrap();
    c.discard(&mut chain);
    assert_eq!(drops.get(), 0);
    b.discard(&mut chain);
    assert_eq!(drops.get(), 0);
    assert!(a.deref(&chain).is_some());
    a.discard(&mut chain);
    assert_eq!(drops.get(), 1);
    assert_eq!(chain.len(), 0);
}

#[test]
fn value_survives_when_empty_links_go_first() {
    let drops = Rc::new(Cell::new(0));
    let mut chain = Chain::new();
    let a = Pass::new(&mut chain, Counted { drops: drops.clone() });
    let b = a.pass(&mut chain).unwrap();
    a.discard(&mut chain);
    assert_eq!(drops.get(), 0);
    assert!(b.deref(&chain).is_some());
    b.discard(&mut chain);
    assert_eq!(drops.get(), 1);
}

#[test]
fn slots_are_reused_and_old_handles_are_recognised() {
    let mut chain = Chain::new();
    let a = Pass::new(&mut chain, 1);
    let b = a.pass(&mut chain).unwrap();
    assert!(chain.contains(&b));
    b.discard(&mut chain);
    assert_eq!(chain.capacity(), 2);
    let c = a.pass(&mut chain).unwrap();
    assert_eq!(chain.capacity(), 2);
    assert!(chain.contains(&a));
    assert!(chain.contains(&c));
    let d = Pass::new(&mut chain, 2);
    assert_eq!(chain.capacity(), 3);
    assert_eq!(chain.len(), 3);
    assert_eq!(d.deref(&chain), Some(&2));
}

#[test]
fn handle_of_a_reused_slot_is_told_apart_by_generation() {
    let mut other: Chain<i32> = Chain::new();
    let x = Pass::new(&mut other, 5);
    let y = x.pass(&mut other).unwrap();
    y.discard(&mut other);
    let z = x.pass(&mut other).unwrap();
    assert!(other.contains(&z));

    let mut chain = Chain::new();
    let a = Pass::new(&mut chain, 1);
    assert!(!chain.contains(&z));
    let b = a.pass(&mut chain).unwrap();
    assert!(chain.contains(&b));
    assert!(!chain.contains(&z));
    b.discard(&mut chain);
    assert!(chain.contains(&a));
    assert_eq!(chain.len(), 1);
}

#[test]
fn separate_chains_do_not_interfere() {
    let mut chain = Chain::new();
    let a = Pass::new(&mut chain, 1);
    let x = Pass::new(&mut chain, 2);
    let b = a.pass(&mut chain).unwrap();
    let y = x.pass(&mut chain).unwrap();
    b.discard(&mut chain);
    assert_eq!(a.deref(&chain), Some(&1));
    assert_eq!(y.deref(&chain), Some(&2));
    assert_eq!(x.deref(&chain), None);
    x.discard(&mut chain);
    assert_eq!(y.deref(&chain), Some(&2));
}

#[test]
fn default_value_chain() {
    let mut chain: Chain<u32> = Chain::new();
    let a = Pass::new_default(&mut chain);
    assert_eq!(a.deref(&chain), Some(&0));
    let b = a.pass(&mut chain).unwrap();
    assert_eq!(b.deref(&chain), Some(&0));
}
