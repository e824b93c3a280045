use mdl::Cache;
use mdl::Continue;
use mdl::Error;
use mdl::Model;
use mdl::DEFAULT_DB;
use mdl::Store;

use std::cell::Cell;
use std::sync::{Arc, Mutex};

struct A {
    pub p1: String,
    pub p2: u32,
}

impl Model for A {
    fn key(&self) -> String {
        format!("{}:{}", self.p1, self.p2)
    }

    fn db() -> &'static str {
        DEFAULT_DB
    }

    fn tob(&self) -> Result<Vec<u8>, Error> {
        bincode::serialize(&(self.p1.clone(), self.p2)).map_err(|_| Error::Serialization)
    }

    fn fromb(data: &[u8]) -> Result<Self, Error> {
        let (p1, p2): (String, u32) =
            bincode::deserialize(data).map_err(|_| Error::Serialization)?;
        Ok(A { p1, p2 })
    }
}

struct B {
    pub id: u32,
    pub complex: Vec<String>,
}

impl Model for B {
    fn key(&self) -> String {
        format!("b:{}", self.id)
    }

    fn db() -> &'static str {
        DEFAULT_DB
    }

    fn tob(&self) -> Result<Vec<u8>, Error> {
        bincode::serialize(&(self.id, self.complex.clone())).map_err(|_| Error::Serialization)
    }

    fn fromb(data: &[u8]) -> Result<Self, Error> {
        let (id, complex): (u32, Vec<String>) =
            bincode::deserialize(data).map_err(|_| Error::Serialization)?;
        Ok(B { id, complex })
    }
}

#[test]
fn basic_struct_test() {
    let mut cache = Cache::new().unwrap();

    let a = A { p1: "hello".to_string(), p2: 42 };
    let r = a.store(&mut cache);
    assert!(r.is_ok());

    let a1: A = A::get(&cache, "hello:42").unwrap();
    assert_eq!(a1.p1, a.p1);
    assert_eq!(a1.p2, a.p2);
}

#[test]
fn delete_test() {
    let mut cache = Cache::new().unwrap();

    let a = A { p1: "hello".to_string(), p2: 42 };
    let r = a.store(&mut cache);
    assert!(r.is_ok());

    let r = A::get(&cache, "hello:42");
    assert!(r.is_ok());

    let r = a.delete(&mut cache);
    assert!(r.is_ok());

    let r = A::get(&cache, "hello:42");
    assert!(r.is_err());
}

#[test]
fn iterate_test() {
    let mut cache = Cache::new().unwrap();

    for i in 1..10 {
        let a = A { p1: "hello".to_string(), p2: i };
        let r = a.store(&mut cache);
        assert!(r.is_ok());
    }

    for i in 1..10 {
        let b = B { id: i, complex: vec![] };
        let r = b.store(&mut cache);
        assert!(r.is_ok());
    }

    for i in 10..20 {
        let a = A { p1: "hello".to_string(), p2: i };
        let r = a.store(&mut cache);
        assert!(r.is_ok());
    }

    let r = A::get(&cache, "hello:1");
    assert!(r.is_ok());
    assert_eq!(r.unwrap().p2, 1);

    let r = B::get(&cache, "b:1");
    assert!(r.is_ok());
    assert_eq!(r.unwrap().id, 1);

    let mut v = A::all(&cache, "hello").unwrap();
    v.sort_by_key(|a| a.p2);
    for (i, a) in v.iter().enumerate() {
        assert_eq!(a.p2, (i + 1) as u32);
    }

    let mut v = B::all(&cache, "b").unwrap();
    v.sort_by_key(|b| b.id);
    for (i, b) in v.iter().enumerate() {
        assert_eq!(b.id, (i + 1) as u32);
    }
}

#[test]
fn iterate_write_test() {
    let mut cache = Cache::new().unwrap();

    for i in 1..10 {
        let b = B { id: i, complex: vec![] };
        let r = b.store(&mut cache);
        assert!(r.is_ok());
    }

    let all = B::all(&cache, "b").unwrap();

    for mut b in all {
        b.complex.push("UPDATED".to_string());
        b.store(&mut cache).unwrap();
    }

    B::iter(&cache, "b", |b| {
        assert_eq!(b.complex.len(), 1);
        Continue(true)
    })
    .unwrap();
}

#[test]
fn thread_test() {
    let cache = Arc::new(Mutex::new(Cache::new().unwrap()));

    let b = B { id: 1, complex: vec![] };
    let _ = b.store(&mut *cache.lock().unwrap());

    // the second writer starts once the first one is done
    let mut b = B::get(&*cache.lock().unwrap(), "b:1").unwrap();
    assert_eq!(b.complex.len(), 0);
    b.complex.push("modified".to_string());
    let _ = b.store(&mut *cache.lock().unwrap());

    let b = B::get(&*cache.lock().unwrap(), "b:1").unwrap();
    assert_eq!(b.id, 1);
    assert_eq!(b.complex.len(), 1);
    assert_eq!(&b.complex[0][..], "modified");
}

#[test]
fn all_counts_exactly_the_prefix() {
    let mut cache = Cache::new().unwrap();
    for i in 1..10 {
        let a = A { p1: "hello".to_string(), p2: i };
        a.store(&mut cache).unwrap();
        let b = B { id: i, complex: vec![] };
        b.store(&mut cache).unwrap();
    }
    for i in 10..20 {
        let a = A { p1: "hello".to_string(), p2: i };
        a.store(&mut cache).unwrap();
    }
    let v = A::all(&cache, "hello").unwrap();
    assert_eq!(v.len(), 19);
    assert!(v.iter().all(|a| a.p1 == "hello"));
    let v = B::all(&cache, "b").unwrap();
    assert_eq!(v.len(), 9);
    // keys come out ascending: "b:1" < "b:2" < ... < "b:9"
    let ids: Vec<u32> = v.iter().map(|b| b.id).collect();
    assert_eq!(ids, vec![1, 2, 3, 4, 5, 6, 7, 8, 9]);
    // "hello:1" < "hello:10" < ... < "hello:19" < "hello:2"
    let v = A::all(&cache, "hello").unwrap();
    assert_eq!(v[0].p2, 1);
    assert_eq!(v[1].p2, 10);
    assert_eq!(v[10].p2, 19);
    assert_eq!(v[11].p2, 2);
}

#[test]
fn overwrite_keeps_latest() {
    let mut cache = Cache::new().unwrap();
    let b = B { id: 3, complex: vec!["first".to_string()] };
    b.store(&mut cache).unwrap();
    let b = B { id: 3, complex: vec!["second".to_string(), "x".to_string()] };
    b.store(&mut cache).unwrap();
    let got = B::get(&cache, "b:3").unwrap();
    assert_eq!(got.complex, vec!["second".to_string(), "x".to_string()]);
    assert_eq!(B::all(&cache, "b").unwrap().len(), 1);
}

#[test]
fn missing_key_is_not_found() {
    let mut cache = Cache::new().unwrap();
    assert!(matches!(A::get(&cache, "hello:1"), Err(Error::NotFound)));
    let a = A { p1: "hello".to_string(), p2: 1 };
    assert!(matches!(a.delete(&mut cache), Err(Error::NotFound)));
    a.store(&mut cache).unwrap();
    assert!(a.delete(&mut cache).is_ok());
    assert!(matches!(a.delete(&mut cache), Err(Error::NotFound)));
}

#[test]
fn undecodable_records_are_skipped() {
    let mut cache = Cache::new().unwrap();
    let b = B { id: 1, complex: vec![] };
    b.store(&mut cache).unwrap();
    cache.push("default", "b:2", vec![1]).unwrap();
    let b = B { id: 3, complex: vec![] };
    b.store(&mut cache).unwrap();
    let v = B::all(&cache, "b").unwrap();
    let ids: Vec<u32> = v.iter().map(|b| b.id).collect();
    assert_eq!(ids, vec![1, 3]);
    assert!(matches!(B::get(&cache, "b:2"), Err(Error::Serialization)));
}

#[test]
fn iter_stops_on_false() {
    let mut cache = Cache::new().unwrap();
    for i in 1..6 {
        let b = B { id: i, complex: vec![] };
        b.store(&mut cache).unwrap();
    }
    let seen = Cell::new(0u32);
    B::iter(&cache, "b", |b| {
        seen.set(seen.get() + 1);
        Continue(b.id < 3)
    })
    .unwrap();
    assert_eq!(seen.get(), 3);
}

#[test]
fn namespaces_are_separate() {
    let mut cache = Cache::new().unwrap();
    cache.push("one", "k", vec![1, 2]).unwrap();
    cache.push("two", "k", vec![3]).unwrap();
    assert_eq!(cache.fetch("one", "k").unwrap(), vec![1, 2]);
    assert_eq!(cache.fetch("two", "k").unwrap(), vec![3]);
    assert!(matches!(cache.fetch("three", "k"), Err(Error::NotFound)));
    assert_eq!(cache.scan("one", "").unwrap(), vec![vec![1, 2]]);
    let n = cache.pull("two", "k", |b| Ok(b.len())).unwrap();
    assert_eq!(n, 1);
    assert!(cache.rm("one", "k").is_ok());
    assert!(matches!(cache.rm("one", "k"), Err(Error::NotFound)));
    assert_eq!(cache.fetch("two", "k").unwrap(), vec![3]);
}

#[test]
fn addresses_join_namespace_and_key_with_a_colon() {
    let mut cache = Cache::new().unwrap();
    cache.push("a", "b:c", vec![7]).unwrap();
    assert_eq!(cache.fetch("a:b", "c").unwrap(), vec![7]);
    assert_eq!(cache.scan("a", "b").unwrap(), vec![vec![7]]);
    assert!(cache.scan("a", "c").unwrap().is_empty());
}
