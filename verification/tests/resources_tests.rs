use ecs_core::component::Component;
use ecs_core::entity::EntityRegister;
use ecs_core::resources::ResourceRequest;
use ecs_core::resources::ResourceToken;
use ecs_core::resources::Resources;
use ecs_core::store::CompVecIter;
use ecs_core::syncmap::Answer;
use ecs_core::syncmap::Fulfilment;

#[derive(Debug, PartialEq)]
enum Comp {
    A(u64),
    B(u64),
}

impl Component for Comp {}

const TYPE_A: u64 = 1;
const TYPE_B: u64 = 2;

#[test]
fn test_res() {}

#[test]
fn register_hands_out_half_open_ranges() {
    let mut reg = EntityRegister::new();
    let first = reg.register(3);
    assert_eq!(first, 0..3);
    let second = reg.register(1);
    assert_eq!(second, 3..4);
    let none = reg.register(0);
    assert_eq!(none, 4..4);
    let third = reg.register(10);
    assert_eq!(third, 4..14);
}

#[test]
fn register_entity_gives_growing_ids() {
    let mut res: Resources<Comp> = Resources::new();
    let token = res.get_token();
    let mut last = None;
    for expected in 0..10u64 {
        let e = token.register_entity(&mut res);
        assert_eq!(e.id(), expected);
        if let Some(before) = last {
            assert!(before < e.id());
        }
        last = Some(e.id());
    }
}

#[test]
fn resource_basic() {
    let mut res: Resources<Comp> = Resources::new();
    let token = ResourceToken::new();
    assert!(token.register(&mut res, TYPE_A));
    assert!(token.register(&mut res, TYPE_B));

    let mut request = ResourceRequest::new();
    request.write(TYPE_A).write(TYPE_B);
    let (token, answer) = token.request(&mut res, &request);
    assert!(matches!(answer, Answer::Grant));
    assert!(token.loan().is_some());

    let mut a = token.unpack_mut(&mut res, TYPE_A).unwrap();
    let mut b = token.unpack_mut(&mut res, TYPE_B).unwrap();
    assert!(token.unpack_mut(&mut res, TYPE_A).is_none());

    let _ = token.register_entity(&mut res).with(Comp::A(0), &mut a);
    let _ = token.register_entity(&mut res).with(Comp::A(1), &mut a).with(Comp::B(1), &mut b);
    let _ = token.register_entity(&mut res).with(Comp::A(2), &mut a);

    token.repack(&mut res, TYPE_A, a);
    token.repack(&mut res, TYPE_B, b);

    let mut reading = ResourceRequest::new();
    reading.read(TYPE_A).read(TYPE_B);
    let (token, answer) = token.request(&mut res, &reading);
    assert!(matches!(answer, Answer::Grant));

    let a = token.unpack(&res, TYPE_A).unwrap();
    let mut seen = Vec::new();
    let mut it = CompVecIter::new(a);
    while let Some(c) = it.next() {
        seen.push(c);
    }
    assert_eq!(seen, vec![&Comp::A(0), &Comp::A(1), &Comp::A(2)]);
    assert_eq!(a.len(), 3);
    assert_eq!(a.slots(), vec![0, 1, 2]);

    let b = token.unpack(&res, TYPE_B).unwrap();
    assert_eq!(b.len(), 1);
    assert_eq!(b.slots(), vec![1]);
    let mut it = CompVecIter::new(b);
    assert_eq!(it.next(), Some(&Comp::B(1)));
    assert_eq!(it.next(), None);

    assert!(token.unpack_mut(&mut res, TYPE_A).is_none());
    let token = token.release(&mut res);
    assert!(token.loan().is_none());
    assert!(token.unpack(&res, TYPE_A).is_none());
}

#[test]
fn registering_twice_is_registering_once() {
    let mut res: Resources<Comp> = Resources::new();
    let token = res.get_token();
    assert!(token.register(&mut res, TYPE_A));
    let mut request = ResourceRequest::new();
    request.write(TYPE_A);
    let (token, _) = token.request(&mut res, &request);
    let mut a = token.unpack_mut(&mut res, TYPE_A).unwrap();
    let _ = token.register_entity(&mut res).with(Comp::A(5), &mut a);
    token.repack(&mut res, TYPE_A, a);
    let token = token.release(&mut res);

    assert!(res.register(TYPE_A));
    assert!(token.register(&mut res, TYPE_A));

    let mut reading = ResourceRequest::new();
    reading.read(TYPE_A);
    let (token, answer) = token.request(&mut res, &reading);
    assert!(matches!(answer, Answer::Grant));
    assert_eq!(token.unpack(&res, TYPE_A).unwrap().len(), 1);
}

#[test]
fn register_waits_while_a_loan_is_out() {
    let mut res: Resources<Comp> = Resources::new();
    assert!(res.register(TYPE_A));
    let mut request = ResourceRequest::new();
    request.read(TYPE_A);
    let (token, _) = res.get_token().request(&mut res, &request);
    assert!(!res.register(TYPE_B));
    assert!(res.register(TYPE_A));
    let _ = token.release(&mut res);
    assert!(res.register(TYPE_B));
}

#[test]
fn token_without_grant_carries_no_loan() {
    let mut res: Resources<Comp> = Resources::new();
    assert!(res.register(TYPE_A));
    let mut missing = ResourceRequest::new();
    missing.read(TYPE_B);
    let (token, answer) = res.get_token().request(&mut res, &missing);
    assert!(matches!(answer, Answer::Missing));
    assert!(token.loan().is_none());

    let mut clash = ResourceRequest::new();
    clash.read(TYPE_A).write(TYPE_A);
    let (token, answer) = token.request(&mut res, &clash);
    assert!(matches!(answer, Answer::Clash));
    assert!(token.loan().is_none());

    let mut writing = ResourceRequest::new();
    writing.write(TYPE_A);
    let (holder, answer) = token.request(&mut res, &writing);
    assert!(matches!(answer, Answer::Grant));
    let (other, answer) = res.get_token().request(&mut res, &writing);
    assert!(matches!(answer, Answer::Wait));
    assert!(other.loan().is_none());
    assert!(matches!(res.request(&writing), Ok(Fulfilment::Wait)));

    // asking again through the holder gives its loan back first
    let (holder, answer) = holder.request(&mut res, &writing);
    assert!(matches!(answer, Answer::Grant));
    let _ = holder.release(&mut res);
    assert!(matches!(res.request(&writing), Ok(Fulfilment::Granted(_))));
}

#[test]
fn resources_tell_their_room_and_next_entity() {
    let mut res: Resources<Comp> = Resources::new();
    assert_eq!(res.peek_entity(), 0);
    let token = res.get_token();
    let _ = token.register_entity(&mut res);
    let _ = token.register_entity(&mut res);
    assert_eq!(res.peek_entity(), 2);
    assert!(res.register(TYPE_A));
    let mut request = ResourceRequest::new();
    request.read(TYPE_A).read(TYPE_B);
    assert!(res.has_room(&request));
}

#[test]
fn register_peek_follows_the_cursor() {
    let mut reg = EntityRegister::new();
    assert_eq!(reg.peek(), 0);
    let _ = reg.register(7);
    assert_eq!(reg.peek(), 7);
}
