use sutp::window::{InsertError, Window};

#[test]
fn available() {
    let mut buf = Window::new(3);

    assert!(buf.is_empty());

    assert_eq!({ buf.drain().size_hint() }, (0, Some(0)));

    buf.insert(3, 3).unwrap();
    assert_eq!({ buf.drain().size_hint() }, (1, Some(1)));

    buf.insert(4, 4).unwrap();
    assert_eq!({ buf.drain().size_hint() }, (2, Some(2)));

    buf.insert(5, 5).unwrap();
    assert_eq!({ buf.drain().size_hint() }, (3, Some(3)));

    buf.pop().unwrap();
    assert_eq!({ buf.drain().size_hint() }, (2, Some(2)));

    buf.insert(6, 6).unwrap();
    assert_eq!({ buf.drain().size_hint() }, (3, Some(3)));
}

#[test]
fn smoke() {
    let mut buf = Window::new(3);

    assert!(buf.is_empty());

    buf.insert(3, 3).unwrap();
    buf.insert(4, 4).unwrap();
    buf.insert(5, 5).unwrap();

    assert!(!buf.is_empty());

    assert_eq!(buf.pop(), Some(3));
    assert_eq!(buf.pop(), Some(4));
    assert_eq!(buf.pop(), Some(5));
    assert_eq!(buf.pop(), None);
    assert_eq!(buf.pop(), None);
}

#[test]
fn cannot_overwrite() {
    let mut buf = Window::new(3);

    buf.insert(3, 3).unwrap();
    match buf.insert(3, 3) {
        Ok(_) => panic!("didn't get error"),
        Err(InsertError::WouldOverwrite(_)) => {}
        Err(_) => panic!("did get wrong error"),
    }
}

#[test]
fn distance_too_large() {
    let mut buf = Window::new(3);

    buf.insert(3, 3).unwrap();
    match buf.insert(100, 100) {
        Ok(_) => panic!("didn't get error"),
        Err(InsertError::DistanceTooLarge(_)) => {}
        Err(_) => panic!("did get wrong error"),
    }
}

#[test]
fn drain_hole() {
    let mut buf = Window::new(3);

    assert!(buf.is_empty());

    buf.insert(3, 3).unwrap();
    buf.insert(5, 5).unwrap();

    assert!(!buf.is_empty());

    assert_eq!(buf.pop(), Some(3));
    assert_eq!(buf.pop(), None);
    assert_eq!(buf.pop(), None);

    buf.insert(4, 4).unwrap();

    assert_eq!(buf.pop(), Some(4));
    assert_eq!(buf.pop(), Some(5));
    assert_eq!(buf.pop(), None);
    assert_eq!(buf.pop(), None);
}

#[test]
fn drain_and_fill() {
    let mut buf = Window::new(5);

    for i in 0..100 {
        assert!(buf.is_empty());

        buf.insert(i * 3 + 3, i * 3 + 3).unwrap();
        buf.insert(i * 3 + 4, i * 3 + 4).unwrap();
        buf.insert(i * 3 + 5, i * 3 + 5).unwrap();

        assert!(!buf.is_empty());

        assert_eq!(buf.pop(), Some(i * 3 + 3));
        assert_eq!(buf.pop(), Some(i * 3 + 4));
        assert_eq!(buf.pop(), Some(i * 3 + 5));
        assert_eq!(buf.pop(), None);
        assert_eq!(buf.pop(), None);
    }
}

#[test]
fn key_too_low() {
    let mut buf = Window::new(3);

    buf.insert(3, 3).unwrap();
    match buf.insert(2, 2) {
        Ok(_) => panic!("didn't get error"),
        Err(InsertError::KeyTooLow(_)) => {}
        Err(_) => panic!("did get wrong error"),
    }
}

#[test]
fn set_lowest_key() {
    let mut buf = Window::new(3);

    buf.set_lowest_key(17);

    buf.insert(17, 17).unwrap();
    assert_eq!(buf.pop(), Some(17));

    buf.set_lowest_key(17);

    buf.insert(19, 19).unwrap();
    assert_eq!(buf.pop(), None);

    buf.insert(18, 18).unwrap();
    assert_eq!(buf.pop(), None);

    buf.insert(17, 17).unwrap();
    assert_eq!(buf.pop(), Some(17));
    assert_eq!(buf.pop(), Some(18));
    assert_eq!(buf.pop(), Some(19));

    assert_eq!(buf.pop(), None);
    assert!(buf.is_empty());

    buf.insert(3, 3).unwrap();
}

#[test]
#[should_panic]
fn set_lowest_key_with_err() {
    let mut buf = Window::new(3);

    buf.set_lowest_key(17);
    buf.insert(20, 20).unwrap();
}

#[test]
fn window_count_capacity_peek_clear() {
    let mut buf: Window<u32> = Window::with_lowest_key(4, 10);
    assert_eq!(buf.capacity(), 4);
    assert_eq!(buf.count(), 0);
    assert_eq!(buf.peek(), None);

    buf.insert(12, 12).unwrap();
    buf.insert(13, 13).unwrap();
    assert_eq!(buf.count(), 2);
    assert_eq!(buf.available(), 0);
    assert_eq!(buf.peek(), None);

    buf.insert(10, 10).unwrap();
    assert_eq!(buf.available(), 1);
    assert_eq!(buf.peek(), Some(&10));

    buf.clear();
    assert!(buf.is_empty());
    assert_eq!(buf.count(), 0);
    // After clearing, the next insertion decides the lowest key again.
    buf.insert(2, 2).unwrap();
    assert_eq!(buf.pop(), Some(2));
}

#[test]
fn window_out_of_order_delivery() {
    let mut buf = Window::with_lowest_key(8, 40);
    buf.insert(41, "b").unwrap();
    buf.insert(40, "a").unwrap();
    let mut drain = buf.drain();
    assert_eq!(drain.size_hint(), (2, Some(2)));
    assert_eq!(drain.next(), Some("a"));
    assert_eq!(drain.next(), Some("b"));
    assert_eq!(drain.next(), None);
}

#[test]
fn window_insert_error_predicates() {
    let e: InsertError<u8> = InsertError::KeyTooLow(1);
    assert!(e.is_key_too_low() && !e.is_distance_too_large() && !e.is_would_overwrite());
    let e: InsertError<u8> = InsertError::DistanceTooLarge(1);
    assert!(e.is_distance_too_large() && !e.is_key_too_low());
    let e: InsertError<u8> = InsertError::WouldOverwrite(1);
    assert!(e.is_would_overwrite() && !e.is_key_too_low());
}

#[test]
fn window_wraps_around_the_buffer() {
    let mut buf = Window::new(2);
    for i in 0..10usize {
        buf.insert(i, i).unwrap();
        assert_eq!(buf.pop(), Some(i));
        assert!(buf.is_empty());
    }
}

#[test]
fn window_insert_error_text() {
    let mut w: Window<u32> = Window::with_lowest_key(2, 10);
    w.insert(10, 1).unwrap();
    match w.insert(5, 1) {
        Err(e) => assert_eq!(
            e.to_string(),
            "cannot insert element because the key is too low"
        ),
        Ok(()) => panic!("inserted below the lowest key"),
    }
    match w.insert(20, 1) {
        Err(e) => assert_eq!(
            e.to_string(),
            "cannot insert element, the distance to the other elements is too large"
        ),
        Ok(()) => panic!("inserted too far ahead"),
    }
    match w.insert(10, 2) {
        Err(e) => assert_eq!(
            e.to_string(),
            "cannot insert element because it would overwrite another element"
        ),
        Ok(()) => panic!("overwrote an element"),
    }
}

#[test]
fn window_not_empty_behind_a_hole() {
    let mut w: Window<u32> = Window::new(3);
    w.insert(3, 3).unwrap();
    w.insert(5, 5).unwrap();
    assert_eq!(w.pop(), Some(3));
    // 5 is still stored behind the hole at key 4.
    assert!(!w.is_empty());
    assert_eq!(w.count(), 1);
    assert_eq!(w.pop(), None);
}

#[test]
fn window_empty_never_key_too_low() {
    let mut w: Window<u32> = Window::with_lowest_key(3, 17);
    assert!(w.is_empty());
    w.insert(5, 5).unwrap();
    assert_eq!(w.pop(), Some(5));
}

#[test]
fn window_sorts_any_arrival_order() {
    let mut w: Window<u32> = Window::with_lowest_key(8, 100);
    for key in [103usize, 100, 105, 101, 104, 102].iter() {
        w.insert(*key, *key as u32).unwrap();
    }
    assert_eq!(w.available(), 6);
    let mut out = Vec::new();
    while let Some(v) = w.pop() {
        out.push(v);
    }
    assert_eq!(out, vec![100, 101, 102, 103, 104, 105]);
    assert!(w.is_empty());
}

#[test]
fn window_count_follows_history() {
    let mut w = Window::new(4);
    let mut expected = 0usize;
    for (key, val) in [(10usize, 'a'), (12, 'c'), (12, 'x'), (20, 'z'), (11, 'b'), (9, 'q')] {
        if w.insert(key, val).is_ok() {
            expected += 1;
        }
        assert_eq!(w.count(), expected);
        assert!(w.available() <= w.count() && w.count() <= w.capacity());
    }
    // 10, 11 and 12 went in; the second 12, 20 and 9 were refused.
    assert_eq!(expected, 3);
    for _ in 0..5 {
        if w.pop().is_some() {
            expected -= 1;
        }
        assert_eq!(w.count(), expected);
    }
    assert_eq!(expected, 0);
    w.set_lowest_key(30);
    assert_eq!(w.count(), 0);
    w.insert(31, 'y').unwrap();
    assert_eq!(w.count(), 1);
    assert_eq!(w.available(), 0);
    w.clear();
    assert_eq!(w.count(), 0);
    assert_eq!(w.capacity(), 4);
}
