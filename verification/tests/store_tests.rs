use ecs_core::component::Component;
use ecs_core::store::CompVecIter;
use ecs_core::store::ComponentVector;
use ecs_core::store::ComponentWrapper;

struct CompA {
    id: u64,
}

impl CompA {
    fn new(id: u64) -> CompA {
        CompA { id }
    }
}

impl Component for CompA {}

fn order_of(cv: &ComponentVector<CompA>) -> Vec<u64> {
    let mut out = Vec::new();
    let mut it = cv.iter();
    while let Some(item) = it.next() {
        out.push(item.get_entity());
    }
    out
}

fn filled(ids: &[u64]) -> ComponentVector<CompA> {
    let mut cv: ComponentVector<CompA> = ComponentVector::new();
    for id in ids {
        cv.push(CompA::new(*id), *id);
    }
    cv
}

#[test]
fn test_basic_component_vector() {
    let a = CompA::new(0);
    let b = CompA::new(1);
    let c = CompA::new(2);
    let mut cv: ComponentVector<CompA> = ComponentVector::new();
    let _ = cv.push(a, 0);
    let _ = cv.push(b, 1);
    let _ = cv.push(c, 2);
    let mut i = 0;
    let mut it = cv.iter();
    while let Some(item) = it.next() {
        assert!(item.get_entity() == item.component().id);
        i += 1;
    }
    assert!(i == 3);
    cv.remove(1);
    i = 0;
    let mut it = cv.iter();
    while let Some(item) = it.next() {
        assert!(item.get_entity() == item.component().id);
        i += 1;
    }
    assert!(i == 2);
}

#[test]
fn test_adv_component_vector() {
    let a = CompA::new(0);
    let b = CompA::new(1);
    let c = CompA::new(2);
    let d = CompA::new(3);
    let e = CompA::new(4);
    let f = CompA::new(5);
    let g = CompA::new(6);
    let mut cv: ComponentVector<CompA> = ComponentVector::new();
    let _ = cv.push(a, 0);
    let _ = cv.push(b, 1);
    let _ = cv.push(c, 2);
    let _ = cv.push(d, 3);
    let _ = cv.push(e, 4);
    let _ = cv.push(f, 5);

    let actual: Vec<u64> = [0, 1, 2, 3, 4, 5].iter().map(|d| *d as u64).collect();
    let order: Vec<u64> = [0, 1, 2, 3, 4, 5].iter().map(|d| *d as u64).collect();
    let cv_order: Vec<u64> = order_of(&cv);
    let cv_actual: Vec<u64> = cv.slots();
    assert!(actual == cv_actual);
    assert!(order == cv_order);

    cv.remove(2);
    let actual: Vec<u64> = [0, 1, 5, 3, 4].iter().map(|d| *d as u64).collect();
    let order: Vec<u64> = [0, 1, 3, 4, 5].iter().map(|d| *d as u64).collect();
    let cv_order: Vec<u64> = order_of(&cv);
    let cv_actual: Vec<u64> = cv.slots();
    assert!(actual == cv_actual);
    assert!(order == cv_order);

    cv.remove(4);
    let actual: Vec<u64> = [0, 1, 5, 3].iter().map(|d| *d as u64).collect();
    let order: Vec<u64> = [0, 1, 3, 5].iter().map(|d| *d as u64).collect();
    let cv_order: Vec<u64> = order_of(&cv);
    let cv_actual: Vec<u64> = cv.slots();
    assert!(actual == cv_actual);
    assert!(order == cv_order);

    cv.remove(0);
    let actual: Vec<u64> = [3, 1, 5].iter().map(|d| *d as u64).collect();
    let order: Vec<u64> = [1, 3, 5].iter().map(|d| *d as u64).collect();
    let cv_order: Vec<u64> = order_of(&cv);
    let cv_actual: Vec<u64> = cv.slots();
    assert!(actual == cv_actual);
    assert!(order == cv_order);

    let _ = cv.push(g, 6);
    let actual: Vec<u64> = [3, 1, 5, 6].iter().map(|d| *d as u64).collect();
    let order: Vec<u64> = [1, 3, 5, 6].iter().map(|d| *d as u64).collect();
    let cv_order: Vec<u64> = order_of(&cv);
    let cv_actual: Vec<u64> = cv.slots();
    assert!(actual == cv_actual);
    assert!(order == cv_order);
}

#[test]
fn basic_chain_yields_entities_in_order() {
    let mut cv = filled(&[0, 1, 2]);
    assert_eq!(order_of(&cv), vec![0, 1, 2]);
    cv.remove(1);
    assert_eq!(order_of(&cv), vec![0, 2]);
    assert_eq!(cv.len(), 2);
}

#[test]
fn new_store_is_empty() {
    let cv: ComponentVector<CompA> = ComponentVector::new();
    assert_eq!(cv.len(), 0);
    assert_eq!(cv.slots(), Vec::<u64>::new());
    assert_eq!(order_of(&cv), Vec::<u64>::new());
}

#[test]
fn remove_from_empty_store_does_nothing() {
    let mut cv: ComponentVector<CompA> = ComponentVector::new();
    cv.remove(3);
    assert_eq!(cv.len(), 0);
    cv.push(CompA::new(4), 4);
    assert_eq!(order_of(&cv), vec![4]);
}

#[test]
fn remove_of_absent_entity_does_nothing() {
    let mut cv = filled(&[1, 3, 5]);
    cv.remove(2);
    cv.remove(0);
    cv.remove(9);
    assert_eq!(cv.slots(), vec![1, 3, 5]);
    assert_eq!(order_of(&cv), vec![1, 3, 5]);
    assert_eq!(cv.len(), 3);
}

#[test]
fn remove_of_single_element_empties_the_store() {
    let mut cv = filled(&[7]);
    cv.remove(7);
    assert_eq!(cv.len(), 0);
    assert_eq!(order_of(&cv), Vec::<u64>::new());
    cv.push(CompA::new(8), 8);
    cv.push(CompA::new(9), 9);
    assert_eq!(order_of(&cv), vec![8, 9]);
    assert_eq!(cv.slots(), vec![8, 9]);
}

#[test]
fn remove_of_last_slot_needs_no_swap() {
    let mut cv = filled(&[0, 1, 2]);
    cv.remove(2);
    assert_eq!(cv.slots(), vec![0, 1]);
    assert_eq!(order_of(&cv), vec![0, 1]);
    cv.push(CompA::new(3), 3);
    assert_eq!(order_of(&cv), vec![0, 1, 3]);
}

#[test]
fn remove_of_the_predecessor_of_the_last_slot() {
    let mut cv = filled(&[0, 1, 2, 3]);
    cv.remove(2);
    assert_eq!(cv.slots(), vec![0, 1, 3]);
    assert_eq!(order_of(&cv), vec![0, 1, 3]);
    cv.remove(0);
    assert_eq!(cv.slots(), vec![3, 1]);
    assert_eq!(order_of(&cv), vec![1, 3]);
}

#[test]
fn remove_while_the_head_lies_in_the_last_slot() {
    let mut cv = filled(&[0, 1, 2]);
    cv.remove(0);
    assert_eq!(cv.slots(), vec![2, 1]);
    assert_eq!(order_of(&cv), vec![1, 2]);
    cv.remove(2);
    assert_eq!(cv.slots(), vec![1]);
    assert_eq!(order_of(&cv), vec![1]);
    assert_eq!(cv.len(), 1);
    cv.push(CompA::new(5), 5);
    assert_eq!(order_of(&cv), vec![1, 5]);
}

#[test]
fn push_and_remove_all_leaves_an_empty_store() {
    let ids: Vec<u64> = (0..20).collect();
    let mut cv = filled(&ids);
    assert_eq!(cv.len(), 20);
    for id in &ids {
        cv.remove(*id);
    }
    assert_eq!(cv.len(), 0);
    assert_eq!(cv.slots(), Vec::<u64>::new());
    assert_eq!(order_of(&cv), Vec::<u64>::new());
    cv.push(CompA::new(30), 30);
    assert_eq!(order_of(&cv), vec![30]);
}

#[test]
fn removing_in_reverse_and_mixed_order_keeps_the_chain() {
    let mut cv = filled(&[0, 1, 2, 3, 4, 5, 6, 7]);
    for id in [7u64, 0, 3, 5] {
        cv.remove(id);
    }
    assert_eq!(order_of(&cv), vec![1, 2, 4, 6]);
    assert_eq!(cv.len(), cv.slots().len());
    let order = order_of(&cv);
    for pair in order.windows(2) {
        assert!(pair[0] < pair[1]);
    }
    let mut slots = cv.slots();
    slots.sort();
    assert_eq!(slots, order);
}

#[test]
fn component_walk_yields_the_components() {
    let cv = filled(&[2, 4, 6]);
    let mut it = CompVecIter::new(&cv);
    let mut seen = Vec::new();
    while let Some(c) = it.next() {
        seen.push(c.id);
    }
    assert_eq!(seen, vec![2, 4, 6]);
    assert!(it.next().is_none());
}

#[test]
fn wrapper_packs_and_reads_its_fields() {
    let mut w = ComponentWrapper::new(CompA::new(11), 5, 3, true);
    assert_eq!(w.get_entity(), 5);
    assert_eq!(w.get_next(), 3);
    assert_eq!(w.component().id, 11);
    w.set_next(7);
    assert_eq!(w.get_next(), 7);
    assert_eq!(w.get_entity(), 5);
    let big = ComponentWrapper::new(CompA::new(0), 0xF_FFFF_FFFF, 0x7FF_FFFF, false);
    assert_eq!(big.get_entity(), 0xF_FFFF_FFFF);
    assert_eq!(big.get_next(), 0x7FF_FFFF);
}

#[test]
fn last_entity_is_the_newest() {
    let mut cv = filled(&[]);
    assert_eq!(cv.last_entity(), None);
    cv.push(CompA::new(2), 2);
    cv.push(CompA::new(4), 4);
    cv.push(CompA::new(9), 9);
    assert_eq!(cv.last_entity(), Some(9));
    cv.remove(2);
    assert_eq!(cv.slots(), vec![9, 4]);
    assert_eq!(cv.last_entity(), Some(9));
    cv.remove(9);
    assert_eq!(cv.last_entity(), Some(4));
    cv.remove(4);
    assert_eq!(cv.last_entity(), None);
}
