use ecs_core::syncmap::Fulfilment;
use ecs_core::syncmap::Insertion;
use ecs_core::syncmap::Loan;
use ecs_core::syncmap::PoisionSyncMapError;
use ecs_core::syncmap::Request;
use ecs_core::syncmap::RequestType;
use ecs_core::syncmap::RwInfo;
use ecs_core::syncmap::SyncMap;

fn done<V>(r: Insertion<V>) {
    assert!(matches!(r, Insertion::Done));
}

fn granted(r: Result<Fulfilment, PoisionSyncMapError>) -> Loan {
    match r.unwrap() {
        Fulfilment::Granted(loan) => loan,
        Fulfilment::Missing => panic!("a key is missing"),
        Fulfilment::Wait => panic!("the request has to wait"),
    }
}

fn three_keys() -> SyncMap<Vec<i32>> {
    let mut map = SyncMap::new();
    done(map.insert(0, vec![0, 1, 2]));
    done(map.insert(1, vec![3, 4, 5]));
    done(map.insert(2, vec![6, 7, 8]));
    map
}

#[test]
fn test_map() {
    let mut map = SyncMap::new();
    done(map.insert(0, vec![0, 1, 2]));
    done(map.insert(1, vec![3, 4, 5]));
    done(map.insert(2, vec![6, 7, 8]));

    let mut read_request = Request::new();
    read_request.read(0).read(1).read(2);

    let loan = granted(map.request(&read_request));

    let mut i = 0;
    for key in 0..3 {
        for num in loan.read(&map, &key).unwrap().iter() {
            assert!(*num == i, "{}", format!("num = {}, i = {}\n", num, i));
            i += 1;
        }
    }
    assert!(i == 9);
}

#[test]
fn multi_mut() {
    let mut map = SyncMap::new();
    done(map.insert(0, vec![0, 1, 2]));
    done(map.insert(1, vec![3, 4, 5]));

    let mut request = Request::new();
    request.write(0).write(1);

    let loan = granted(map.request(&request));

    let mut zero = loan.write(&mut map, &0).unwrap();
    let mut one = loan.write(&mut map, &1).unwrap();
    let mut _zero_2 = match loan.write(&mut map, &0) {
        Some(_) => assert!(false, "zero_2 write returned"),
        None => (),
    };

    for (z, o) in zero.iter_mut().zip(one.iter_mut()) {
        let t = *z;
        *z = *o;
        *o = t;
    }

    let mut i = 0;
    for (z, o) in zero.iter().zip(one.iter()) {
        assert!(*z == i + 3, "{}", format!("z : {}, i + 3: {}", z, i + 3));
        assert!(*o == i, "{}", format!("o : {}, i : {}", o, i));
        i += 1;
    }
}

#[test]
fn readers_share_and_a_writer_excludes() {
    let mut map = three_keys();

    let mut request = Request::new();
    request.read(0).read(1).write(2);
    let loan = granted(map.request(&request));

    let mut read_request = Request::new();
    read_request.read(0).read(1);
    let read_loan = granted(map.request(&read_request));
    let mut i = 0;
    for key in 0..2 {
        for num in read_loan.read(&map, &key).unwrap().iter() {
            assert!(*num == i);
            i += 1;
        }
    }
    assert!(i == 6);
    map.resend(read_loan);

    let mut late = Request::new();
    late.read(2);
    assert!(matches!(map.request(&late), Ok(Fulfilment::Wait)));

    let mut vec = loan.write(&mut map, &2).unwrap();
    vec.push(0);
    vec.push(0);
    for i in vec.iter_mut() {
        *i = 100;
    }
    loan.restore(&mut map, 2, vec);
    map.resend(loan);

    let late_loan = granted(map.request(&late));
    let vec = late_loan.read(&map, &2).unwrap();
    assert!(vec.len() == 5);
    for i in vec.iter() {
        assert!(*i == 100);
    }
}

#[test]
fn a_writer_waits_for_readers() {
    let mut map = three_keys();
    let mut reading = Request::new();
    reading.read(1);
    let first = granted(map.request(&reading));
    let second = granted(map.request(&reading));

    let mut writing = Request::new();
    writing.write(1);
    assert!(matches!(map.request(&writing), Ok(Fulfilment::Wait)));
    map.resend(first);
    assert!(matches!(map.request(&writing), Ok(Fulfilment::Wait)));
    map.resend(second);
    let w = granted(map.request(&writing));
    assert!(matches!(map.request(&writing), Ok(Fulfilment::Wait)));
    assert!(matches!(map.request(&reading), Ok(Fulfilment::Wait)));
    map.resend(w);
    let again = granted(map.request(&reading));
    map.resend(again);
}

#[test]
fn double_write_gets_nothing_the_second_time() {
    let mut map = three_keys();
    let mut request = Request::new();
    request.write(0).write(1);
    let loan = granted(map.request(&request));
    let zero = loan.write(&mut map, &0);
    assert!(zero.is_some());
    assert!(loan.write(&mut map, &0).is_none());
    let one = loan.write(&mut map, &1);
    assert!(one.is_some());
    assert!(loan.write(&mut map, &2).is_none());
    assert!(loan.read(&map, &0).is_none());
    loan.restore(&mut map, 0, zero.unwrap());
    assert_eq!(loan.write(&mut map, &0), Some(vec![0, 1, 2]));
}

#[test]
fn a_missing_key_fails_the_request() {
    let mut map = three_keys();
    let mut request = Request::new();
    request.read(0).write(7);
    assert!(matches!(map.request(&request), Ok(Fulfilment::Missing)));
    // nothing was counted: a writer still gets key 0
    let mut writing = Request::new();
    writing.write(0);
    let loan = granted(map.request(&writing));
    // a missing key wins even where another entry would have to wait
    let mut both = Request::new();
    both.read(0).read(9);
    assert!(matches!(map.request(&both), Ok(Fulfilment::Missing)));
    map.resend(loan);
}

#[test]
fn a_write_beside_another_entry_on_its_key_is_an_error() {
    let mut map = three_keys();
    let mut request = Request::new();
    request.write(0).read(0);
    assert!(request.clashing());
    assert!(map.request(&request).is_err());
    let mut other = Request::new();
    other.read(1).write(1);
    assert!(map.request(&other).is_err());
    let mut twice = Request::new();
    twice.write(2).write(2);
    assert!(map.request(&twice).is_err());
    // nothing was counted
    let mut all = Request::new();
    all.write(0).write(1).write(2);
    assert!(!all.clashing());
    let loan = granted(map.request(&all));
    map.resend(loan);
}

#[test]
fn reading_a_key_twice_is_one_loan_with_two_entries() {
    let mut map = three_keys();
    let mut request = Request::new();
    request.read(0).read(0);
    assert!(!request.clashing());
    let loan = granted(map.request(&request));
    assert!(loan.grants(0, RequestType::Read));
    assert!(!loan.grants(0, RequestType::Write));
    assert!(!loan.grants(1, RequestType::Read));
    let mut writing = Request::new();
    writing.write(0);
    assert!(matches!(map.request(&writing), Ok(Fulfilment::Wait)));
    map.resend(loan);
    let w = granted(map.request(&writing));
    map.resend(w);
}

#[test]
fn insert_keeps_the_first_value() {
    let mut map = SyncMap::new();
    done(map.insert(4, vec![1]));
    done(map.insert(4, vec![2, 3]));
    let mut request = Request::new();
    request.read(4);
    let loan = granted(map.request(&request));
    assert_eq!(loan.read(&map, &4), Some(&vec![1]));
}

#[test]
fn insert_waits_while_a_loan_pins_the_registry() {
    let mut map = three_keys();
    let mut request = Request::new();
    request.read(0);
    let loan = granted(map.request(&request));
    match map.insert(5, vec![9]) {
        Insertion::Wait(back) => assert_eq!(back, vec![9]),
        Insertion::Done => panic!("inserted under a loan"),
    }
    // a key that is there is found without waiting
    done(map.insert(1, vec![0]));
    map.resend(loan);
    done(map.insert(5, vec![9]));
    let mut five = Request::new();
    five.read(5);
    let loan = granted(map.request(&five));
    assert_eq!(loan.read(&map, &5), Some(&vec![9]));
}

#[test]
fn requests_drained_one_at_a_time_meet_the_same_registry() {
    let mut map = three_keys();
    let mut request = Request::new();
    request.read(0).write(1).write(2);
    for _ in 0..5 {
        let loan = granted(map.request(&request));
        assert_eq!(loan.read(&map, &0), Some(&vec![0, 1, 2]));
        map.resend(loan);
    }
}

#[test]
fn empty_request_is_granted() {
    let mut map: SyncMap<Vec<i32>> = SyncMap::new();
    let request = Request::new();
    assert_eq!(request.len(), 0);
    let loan = granted(map.request(&request));
    assert!(loan.read(&map, &0).is_none());
    map.resend(loan);
}

#[test]
fn request_keeps_its_entries_in_order() {
    let mut request = Request::new();
    request.read(3).write(1).read(2);
    assert_eq!(request.len(), 3);
    assert!(request.entry(0) == (3, RequestType::Read));
    assert!(request.entry(1) == (1, RequestType::Write));
    assert!(request.entry(2) == (2, RequestType::Read));
}

#[test]
fn counters_admit_readers_and_writers() {
    let info = RwInfo::new(5u8);
    assert!(info.can_read());
    assert!(info.can_write());
}

#[test]
fn poison_error_has_its_message() {
    assert_eq!(PoisionSyncMapError().message(), "SyncMap has been poisioned");
}
