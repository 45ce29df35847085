use bus::{Bus, BusReader, TryRecvError};

#[test]
fn it_works() {
    let mut c = Bus::new(10);
    let mut r1 = c.add_rx();
    let mut r2 = c.add_rx();
    assert_eq!(c.try_broadcast(true), Ok(()));
    assert_eq!(r1.recv(&mut c), Ok(true));
    assert_eq!(r2.recv(&mut c), Ok(true));
}

#[test]
fn it_fails_when_full() {
    let mut c = Bus::new(1);
    let r1 = c.add_rx();
    assert_eq!(c.try_broadcast(true), Ok(()));
    assert_eq!(c.try_broadcast(false), Err(false));
    r1.leave(&mut c);
}

#[test]
fn it_succeeds_when_not_full() {
    let mut c = Bus::new(1);
    let mut r1 = c.add_rx();
    assert_eq!(c.try_broadcast(true), Ok(()));
    assert_eq!(c.try_broadcast(false), Err(false));
    assert_eq!(r1.recv(&mut c), Ok(true));
    assert_eq!(c.try_broadcast(true), Ok(()));
}

#[test]
fn it_fails_when_empty() {
    let mut c = Bus::<bool>::new(10);
    let mut r1 = c.add_rx();
    assert_eq!(r1.recv(&mut c), Err(TryRecvError::Empty));
}

#[test]
fn it_reads_when_full() {
    let mut c = Bus::new(1);
    let mut r1 = c.add_rx();
    assert_eq!(c.try_broadcast(true), Ok(()));
    assert_eq!(r1.recv(&mut c), Ok(true));
}

#[test]
fn it_handles_leaves() {
    let mut c = Bus::new(1);
    let mut r1 = c.add_rx();
    let r2 = c.add_rx();
    assert_eq!(c.try_broadcast(true), Ok(()));
    r2.leave(&mut c);
    assert_eq!(r1.recv(&mut c), Ok(true));
    assert_eq!(c.try_broadcast(true), Ok(()));
}

#[test]
fn receives_every_value_in_order() {
    let mut c = Bus::new(2);
    let mut r1 = c.add_rx();
    let mut got = Vec::new();
    for i in 0..1000u32 {
        c.broadcast(i);
        if i % 2 == 1 {
            got.push(r1.recv(&mut c).unwrap());
            got.push(r1.recv(&mut c).unwrap());
            assert_eq!(r1.recv(&mut c), Err(TryRecvError::Empty));
        }
    }
    let expected: Vec<u32> = (0..1000).collect();
    assert_eq!(got, expected);
}

#[test]
fn every_reader_gets_every_value() {
    let mut c = Bus::new(3);
    let mut rs: Vec<BusReader> = (0..4).map(|_| c.add_rx()).collect();
    assert_eq!(c.try_broadcast(10), Ok(()));
    assert_eq!(c.try_broadcast(20), Ok(()));
    assert_eq!(c.try_broadcast(30), Ok(()));
    assert_eq!(c.try_broadcast(40), Err(40));
    for r in rs.iter_mut() {
        assert_eq!(r.recv(&mut c), Ok(10));
        assert_eq!(r.recv(&mut c), Ok(20));
        assert_eq!(r.recv(&mut c), Ok(30));
        assert_eq!(r.recv(&mut c), Err(TryRecvError::Empty));
    }
    assert_eq!(c.try_broadcast(40), Ok(()));
}

#[test]
fn late_reader_sees_only_later_values() {
    let mut c = Bus::new(4);
    let mut early = c.add_rx();
    assert_eq!(c.try_broadcast('a'), Ok(()));
    let mut late = c.add_rx();
    assert_eq!(late.recv(&mut c), Err(TryRecvError::Empty));
    assert_eq!(c.try_broadcast('b'), Ok(()));
    assert_eq!(late.recv(&mut c), Ok('b'));
    assert_eq!(early.recv(&mut c), Ok('a'));
    assert_eq!(early.recv(&mut c), Ok('b'));
}

#[test]
fn slowest_reader_holds_back_the_writer() {
    let mut c = Bus::new(2);
    let mut fast = c.add_rx();
    let mut slow = c.add_rx();
    assert_eq!(c.try_broadcast(1), Ok(()));
    assert_eq!(c.try_broadcast(2), Ok(()));
    assert_eq!(fast.recv(&mut c), Ok(1));
    assert_eq!(fast.recv(&mut c), Ok(2));
    assert_eq!(c.try_broadcast(3), Err(3));
    assert_eq!(slow.recv(&mut c), Ok(1));
    assert_eq!(c.try_broadcast(3), Ok(()));
    assert_eq!(c.try_broadcast(4), Err(4));
}

#[test]
fn writer_without_readers_never_blocks() {
    let mut c = Bus::new(1);
    for i in 0..10u8 {
        assert_eq!(c.try_broadcast(i), Ok(()));
    }
    let mut r = c.add_rx();
    assert_eq!(r.recv(&mut c), Err(TryRecvError::Empty));
    assert_eq!(c.try_broadcast(99), Ok(()));
    assert_eq!(r.recv(&mut c), Ok(99));
}

#[test]
fn zero_capacity_bus_never_delivers() {
    let mut c = Bus::new(0);
    let mut r = c.add_rx();
    assert_eq!(c.try_broadcast(5u64), Ok(()));
    assert_eq!(r.recv(&mut c), Err(TryRecvError::Empty));
    assert_eq!(c.try_broadcast(6u64), Err(6));
}

#[test]
fn departure_is_noticed_only_when_full() {
    // a reader that leaves without reading keeps the seats it was owed busy
    // until the writer runs out of room and processes the departure
    let mut c = Bus::new(2);
    let mut r1 = c.add_rx();
    let r2 = c.add_rx();
    assert_eq!(c.try_broadcast(1), Ok(()));
    r2.leave(&mut c);
    assert_eq!(r1.recv(&mut c), Ok(1));
    assert_eq!(c.try_broadcast(2), Ok(()));
    assert_eq!(c.try_broadcast(3), Ok(()));
    assert_eq!(r1.recv(&mut c), Ok(2));
    assert_eq!(r1.recv(&mut c), Ok(3));
}

#[test]
fn departed_reader_is_not_counted_on_later_values() {
    // once the writer notices a departure it stops counting that reader, so
    // the bus keeps flowing for the reader that stayed
    let mut c = Bus::new(1);
    let mut r1 = c.add_rx();
    let r2 = c.add_rx();
    assert_eq!(c.try_broadcast(1), Ok(()));
    r2.leave(&mut c);
    assert_eq!(r1.recv(&mut c), Ok(1));
    assert_eq!(c.try_broadcast(2), Ok(()));
    assert_eq!(r1.recv(&mut c), Ok(2));
    assert_eq!(c.try_broadcast(3), Ok(()));
    assert_eq!(c.try_broadcast(4), Err(4));
    assert_eq!(r1.recv(&mut c), Ok(3));
    assert_eq!(c.try_broadcast(4), Ok(()));
    assert_eq!(r1.recv(&mut c), Ok(4));
}

#[test]
fn it_detects_closure() {
    let mut tx = Bus::new(1);
    let mut rx = tx.add_rx();
    assert_eq!(tx.try_broadcast(true), Ok(()));
    assert_eq!(rx.recv(&mut tx), Ok(true));
    assert_eq!(rx.recv(&mut tx), Err(TryRecvError::Empty));
    tx.close();
    assert_eq!(rx.recv(&mut tx), Err(TryRecvError::Disconnected));
}

#[test]
fn it_recvs_after_close() {
    let mut tx = Bus::new(1);
    let mut rx = tx.add_rx();
    assert_eq!(tx.try_broadcast(true), Ok(()));
    tx.close();
    assert_eq!(rx.recv(&mut tx), Ok(true));
    assert_eq!(rx.recv(&mut tx), Err(TryRecvError::Disconnected));
}

#[test]
fn busy_bus_with_a_reader_leaving_early() {
    // one reader takes five values and leaves, the other takes ten; the
    // writer offers 25 values on a bus of capacity 1
    let mut bus = Bus::new(1);
    let mut rx1 = Some(bus.add_rx());
    let mut rx2 = Some(bus.add_rx());
    let mut got1 = Vec::new();
    let mut got2 = Vec::new();
    for i in 0..25 {
        let _ = bus.try_broadcast(i);
        if let Some(mut r) = rx1.take() {
            if let Ok(v) = r.recv(&mut bus) {
                got1.push(v);
            }
            if got1.len() == 5 {
                r.leave(&mut bus);
            } else {
                rx1 = Some(r);
            }
        }
        if let Some(mut r) = rx2.take() {
            if let Ok(v) = r.recv(&mut bus) {
                got2.push(v);
            }
            if got2.len() == 10 {
                r.leave(&mut bus);
            } else {
                rx2 = Some(r);
            }
        }
    }
    assert_eq!(got1, vec![0, 1, 2, 3, 4]);
    assert_eq!(got2, vec![0, 1, 2, 3, 4, 5, 6, 7, 8, 9]);
    assert!(rx1.is_none());
    assert!(rx2.is_none());
}

#[test]
fn has_room_reports_the_free_seat() {
    let mut c = Bus::new(1);
    let mut r = c.add_rx();
    assert!(c.has_room());
    c.broadcast(1u8);
    assert!(!c.has_room());
    assert_eq!(r.recv(&mut c), Ok(1));
    assert!(c.has_room());
}

#[test]
fn broadcast_processes_departures() {
    let mut c = Bus::new(1);
    let mut r1 = c.add_rx();
    let r2 = c.add_rx();
    c.broadcast(7i32);
    r2.leave(&mut c);
    assert_eq!(r1.recv(&mut c), Ok(7));
    c.broadcast(8);
    assert_eq!(r1.recv(&mut c), Ok(8));
}

#[test]
fn clones_are_handed_out() {
    let mut c = Bus::new(2);
    let mut r1 = c.add_rx();
    let mut r2 = c.add_rx();
    assert_eq!(c.try_broadcast(String::from("hello")), Ok(()));
    assert_eq!(r1.recv(&mut c), Ok(String::from("hello")));
    assert_eq!(r2.recv(&mut c), Ok(String::from("hello")));
    assert_eq!(c.try_broadcast(String::from("x")), Ok(()));
    assert_eq!(c.try_broadcast(String::from("y")), Ok(()));
    assert_eq!(c.try_broadcast(String::from("z")), Err(String::from("z")));
}
