use mdl::SigType;
use mdl::Signal;
use mdl::Signaler;
use mdl::SignalerAsync;
use mdl::SignalerSync;

use std::cell::RefCell;
use std::rc::Rc;
use std::sync::{Arc, Mutex};

type Cb = Box<dyn Fn(Signal) + Send>;

#[test]
fn one_signal_test() {
    let mut sig: SignalerAsync<Cb> = SignalerAsync::new();
    let counter = Arc::new(Mutex::new(0));

    let c1 = counter.clone();
    let _ = sig.subscribe(
        "signal",
        Box::new(move |_sig| {
            *c1.lock().unwrap() += 1;
        }),
    );

    sig.emit(SigType::Update, "signal").unwrap();
    sig.emit(SigType::Update, "signal:2").unwrap();
    sig.emit(SigType::Update, "signal:2:3").unwrap();

    assert!(sig.signal_loop());

    assert_eq!(*counter.lock().unwrap(), 3);
}

#[test]
fn two_signal_test() {
    let mut sig: SignalerAsync<Cb> = SignalerAsync::new();
    let counter = Arc::new(Mutex::new(0));
    let counter2 = Arc::new(Mutex::new(0));

    let c1 = counter.clone();
    let c2 = counter2.clone();
    let _ = sig.subscribe(
        "signal",
        Box::new(move |_sig| {
            *c1.lock().unwrap() += 1;
        }),
    );

    let _ = sig.subscribe(
        "others",
        Box::new(move |_sig| {
            *c2.lock().unwrap() += 1;
        }),
    );

    sig.emit(SigType::Update, "signal").unwrap();
    sig.emit(SigType::Update, "others:2:3").unwrap();
    sig.emit(SigType::Update, "signal:2").unwrap();
    sig.emit(SigType::Update, "signal:2:3").unwrap();

    assert!(sig.signal_loop());

    assert_eq!(*counter.lock().unwrap(), 3);
    assert_eq!(*counter2.lock().unwrap(), 1);
}

#[test]
fn unsubscribe_test() {
    // The callback asks to be unsubscribed on its first delivery; the
    // polling loop carries the request out before the next signal.
    let mut sig: SignalerSync<Box<dyn Fn(Signal)>> = SignalerSync::new();
    let counter = Rc::new(RefCell::new(0));
    let requests: Rc<RefCell<Vec<u32>>> = Rc::new(RefCell::new(vec![]));

    let c1 = counter.clone();
    let r1 = requests.clone();
    let id = sig
        .subscribe(
            "unsub",
            Box::new(move |_sig| {
                *c1.borrow_mut() += 1;
                r1.borrow_mut().push(1);
            }),
        )
        .unwrap();
    assert_eq!(id, 1);

    sig.emit(SigType::Update, "unsub").unwrap();
    sig.emit(SigType::Update, "unsub:2").unwrap();
    sig.emit(SigType::Update, "unsub:2:3").unwrap();

    for _ in 0..10 {
        assert!(sig.signal_loop_sync());
        let ids: Vec<u32> = requests.borrow_mut().drain(..).collect();
        for id in ids {
            sig.unsubscribe(id);
        }
    }

    assert_eq!(*counter.borrow(), 1);
}

#[test]
fn ids_start_at_one_and_are_never_reused() {
    let mut sig: SignalerSync<Box<dyn Fn(Signal)>> = SignalerSync::new();
    let a = sig.subscribe("x", Box::new(|_s| {})).unwrap();
    let b = sig.subscribe("x", Box::new(|_s| {})).unwrap();
    assert_eq!((a, b), (1, 2));
    sig.unsubscribe(b);
    let c = sig.subscribe("y", Box::new(|_s| {})).unwrap();
    assert_eq!(c, 3);
    sig.clear_signal("x");
    let d = sig.subscribe("x", Box::new(|_s| {})).unwrap();
    assert_eq!(d, 4);
}

#[test]
fn fan_out_follows_byte_prefixes() {
    let mut sig: SignalerSync<Box<dyn Fn(Signal)>> = SignalerSync::new();
    let a = sig.subscribe("todo", Box::new(|_s| {})).unwrap();
    let b = sig.subscribe("todo:7", Box::new(|_s| {})).unwrap();
    let c = sig.subscribe("todo", Box::new(|_s| {})).unwrap();
    let d = sig.subscribe("", Box::new(|_s| {})).unwrap();
    assert_eq!(sig.receivers("todo2"), vec![a, c, d]);
    assert_eq!(sig.receivers("todo:7:1"), vec![a, c, b, d]);
    assert_eq!(sig.receivers("tod"), vec![d]);
    assert_eq!(sig.receivers("other"), vec![d]);
}

#[test]
fn kinds_and_order_of_delivery() {
    let mut sig: SignalerSync<Box<dyn Fn(Signal)>> = SignalerSync::new();
    let log: Rc<RefCell<Vec<String>>> = Rc::new(RefCell::new(vec![]));
    let l1 = log.clone();
    let l2 = log.clone();
    sig.subscribe(
        "a",
        Box::new(move |s| {
            let kind = match s.type_ {
                SigType::Update => "update",
                SigType::Delete => "delete",
            };
            l1.borrow_mut().push(format!("first {} {}", kind, s.name));
        }),
    )
    .unwrap();
    sig.subscribe(
        "a",
        Box::new(move |s| {
            l2.borrow_mut().push(format!("second {}", s.name));
        }),
    )
    .unwrap();
    sig.emit(SigType::Update, "ab").unwrap();
    sig.emit(SigType::Delete, "ac").unwrap();
    sig.emit(SigType::Update, "b").unwrap();
    assert!(sig.signal_loop_sync());
    assert!(sig.signal_loop_sync());
    assert!(sig.signal_loop_sync());
    assert!(sig.signal_loop_sync());
    assert_eq!(
        *log.borrow(),
        vec![
            "first update ab".to_string(),
            "second ab".to_string(),
            "first delete ac".to_string(),
            "second ac".to_string(),
        ]
    );
}

#[test]
fn stop_drops_pending_and_future_signals() {
    let mut sig: SignalerSync<Box<dyn Fn(Signal)>> = SignalerSync::new();
    let counter = Rc::new(RefCell::new(0));
    let c1 = counter.clone();
    sig.subscribe("s", Box::new(move |_s| *c1.borrow_mut() += 1)).unwrap();
    sig.emit(SigType::Update, "s").unwrap();
    sig.stop();
    assert!(sig.emit(SigType::Update, "s:1").is_ok());
    assert!(!sig.signal_loop_sync());
    assert!(!sig.signal_loop_sync());
    assert_eq!(*counter.borrow(), 0);
    assert!(sig.receivers("s").is_empty());
}

#[test]
fn stopped_async_bus_tears_down() {
    let mut sig: SignalerAsync<Cb> = SignalerAsync::new();
    let counter = Arc::new(Mutex::new(0));
    let c1 = counter.clone();
    sig.subscribe("s", Box::new(move |_s| *c1.lock().unwrap() += 1)).unwrap();
    sig.emit(SigType::Update, "s").unwrap();
    assert!(sig.signal_loop());
    assert_eq!(*counter.lock().unwrap(), 1);
    sig.stop();
    sig.emit(SigType::Update, "s").unwrap();
    assert!(!sig.signal_loop());
    assert_eq!(*counter.lock().unwrap(), 1);
    assert!(sig.receivers("s").is_empty());
}
