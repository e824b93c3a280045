use mdl::Cache;
use mdl::Error;
use mdl::Model;
use mdl::DEFAULT_DB;
use mdl::SigType;
use mdl::Signal;
use mdl::SignalerAsync;

use std::sync::{Arc, Mutex};

struct B {
    pub id: u32,
    pub complex: Vec<String>,
}

impl Model for B {
    fn key(&self) -> String {
        format!("b:{}", self.id)
    }

    fn db() -> &'static str {
        DEFAULT_DB
    }

    fn tob(&self) -> Result<Vec<u8>, Error> {
        bincode::serialize(&(self.id, self.complex.clone())).map_err(|_| Error::Serialization)
    }

    fn fromb(data: &[u8]) -> Result<Self, Error> {
        let (id, complex): (u32, Vec<String>) =
            bincode::deserialize(data).map_err(|_| Error::Serialization)?;
        Ok(B { id, complex })
    }
}

#[test]
fn basic_signal_test() {
    let mut cache = Cache::new().unwrap();
    let mut sig: SignalerAsync<Box<dyn Fn(Signal) + Send>> = SignalerAsync::new();

    let up_c = Arc::new(Mutex::new(0));
    let rm_c = Arc::new(Mutex::new(0));
    let counter = Arc::new(Mutex::new(0));

    let c1 = up_c.clone();
    let c2 = rm_c.clone();
    let c3 = counter.clone();
    let _id = sig.subscribe(
        "b",
        Box::new(move |sig| {
            match sig.type_ {
                SigType::Update => *c1.lock().unwrap() += 1,
                SigType::Delete => *c2.lock().unwrap() += 1,
            };

            *c3.lock().unwrap() += 1;
        }),
    );

    let b = B { id: 1, complex: vec![] };
    let r = b.store_sig(&mut cache, &mut sig);
    assert!(r.is_ok());

    let b = B { id: 2, complex: vec![] };
    let r = b.store_sig(&mut cache, &mut sig);
    assert!(r.is_ok());

    let r = b.delete_sig(&mut cache, &mut sig);
    assert!(r.is_ok());

    assert!(sig.signal_loop());

    assert_eq!(*up_c.lock().unwrap(), 2);
    assert_eq!(*rm_c.lock().unwrap(), 1);
    assert_eq!(*counter.lock().unwrap(), 3);
}

#[test]
fn failed_delete_emits_nothing() {
    let mut cache = Cache::new().unwrap();
    let mut sig: SignalerAsync<Box<dyn Fn(Signal) + Send>> = SignalerAsync::new();
    let counter = Arc::new(Mutex::new(0));
    let c1 = counter.clone();
    sig.subscribe("b", Box::new(move |_s| *c1.lock().unwrap() += 1)).unwrap();

    let b = B { id: 5, complex: vec![] };
    assert!(matches!(b.delete_sig(&mut cache, &mut sig), Err(Error::NotFound)));
    assert!(sig.signal_loop());
    assert_eq!(*counter.lock().unwrap(), 0);
}
