use vstd::prelude::*;

use crate::error::Error;
use crate::signal::{SigType, Signaler};
use crate::store::{lemma_delete_then_get, lemma_round_trip, pulled, records, scan, slot, views, Continue, Store};

verus! {

/// What `dec` reads from each of `items`, in order; items it fails on
/// are left out.
pub open spec fn decoded_with<M>(items: Seq<Seq<u8>>, dec: spec_fn(Seq<u8>) -> Result<M, Error>) -> Seq<M>
    decreases items.len(),
{
    if items.len() == 0 {
        Seq::empty()
    } else {
        let rest = decoded_with(items.drop_last(), dec);
        match dec(items.last()) {
            Ok(m) => rest.push(m),
            Err(_) => rest,
        }
    }
}

/// The namespace that models share unless their type picks another.
pub const DEFAULT_DB: &'static str = "default";

/// `0 <= n <= len`.
pub open spec fn within(n: int, len: nat) -> bool {
    0 <= n <= len
}

/// `f` was called, in order, on what `dec` reads from the first `n` of
/// `items`, skipping the items it fails on: each call but the last answered
/// `Continue(true)`, item `n - 1` was answered too when it decodes, and a
/// visit that ended before the last item ended on a `Continue(false)`.
pub open spec fn visited_models<M, F: Fn(M) -> Continue>(
    f: F,
    items: Seq<Seq<u8>>,
    dec: spec_fn(Seq<u8>) -> Result<M, Error>,
    n: int,
) -> bool {
    &&& 0 <= n <= items.len()
    &&& forall|i: int|
        0 <= i < n - 1 ==> match dec(#[trigger] items[i]) {
            Ok(m) => f.ensures((m,), Continue(true)),
            Err(_) => true,
        }
    &&& n < items.len() ==> n > 0 && match dec(items[n - 1]) {
        Ok(m) => f.ensures((m,), Continue(false)),
        Err(_) => false,
    }    &&& n > 0 ==> match dec(items[n - 1]) {
        Ok(m) => f.ensures((m,), Continue(true)) || f.ensures((m,), Continue(false)),
        Err(_) => true,
    }
}

/// What reading `key` answers on a store holding `m`, where `dec` decodes.
pub open spec fn got<M>(
    m: Map<Seq<u8>, Seq<u8>>,
    db: Seq<char>,
    key: Seq<char>,
    dec: spec_fn(Seq<u8>) -> Result<M, Error>,
) -> Result<M, Error> {
    match pulled(m, db, key) {
        Ok(b) => dec(b),
        Err(e) => Err(e),
    }
}

/// A value that can be stored in a `Store` under its own key, and whose
/// changes can be announced on a `Signaler`.
pub trait Model: Sized {
    /// The key of this value, unique within its namespace.
    closed spec fn key_view(&self) -> Seq<char> {
        Seq::empty()
    }

    /// The namespace that values of this type are stored in.
    closed spec fn namespace() -> Seq<char> {
        Seq::empty()
    }

    /// Whether `tob` succeeds on this value.
    closed spec fn encodable(&self) -> bool {
        false
    }

    /// The bytes that `tob` writes for this value.
    closed spec fn encoded(&self) -> Seq<u8> {
        Seq::empty()
    }

    /// What `fromb` reads from the given bytes.
    closed spec fn decode(data: Seq<u8>) -> Result<Self, Error> {
        Err(Error::Serialization)
    }

    /// The key this value is stored under.
    fn key(&self) -> (r: String)
        ensures
            r@ == self.key_view(),
    ;

    /// The namespace of this type; most types answer `DEFAULT_DB`.
    fn db() -> (r: &'static str)
        ensures
            r@ == Self::namespace(),
    ;

    /// Encodes this value.
    fn tob(&self) -> (r: Result<Vec<u8>, Error>)
        ensures
            r is Ok <==> self.encodable(),
            r is Ok ==> r->Ok_0@ == self.encoded(),
            r is Err ==> r == Err::<Vec<u8>, Error>(Error::Serialization),
    ;

    /// Decodes a value.
    fn fromb(data: &[u8]) -> (r: Result<Self, Error>)
        ensures
            r == Self::decode(data@),
    ;

    /// Writes this value under its key.
    fn store<S: Store>(&self, store: &mut S) -> (r: Result<(), Error>)
        ensures
            final(store).reliable() == old(store).reliable(),
            old(store).reliable() ==> (r is Ok <==> self.encodable()),
            !self.encodable() ==> r == Err::<(), Error>(Error::Serialization),
            self.encodable() && r is Err ==> r == Err::<(), Error>(Error::Backend),
            r is Ok ==> records(final(store).rows()) == records(old(store).rows()).insert(
                slot(Self::namespace(), self.key_view()),
                self.encoded(),
            ),
            r is Err ==> final(store).rows() == old(store).rows(),
    {
        let data = match self.tob() {
            Ok(data) => data,
            Err(e) => {
                return Err(e);
            },
        };
        let k = self.key();
        store.push(Self::db(), k.as_str(), data)
    }

    /// Writes this value, then, on success only, emits an `Update` signal
    /// named by its key.
    fn store_sig<S: Store, G: Signaler>(&self, store: &mut S, sig: &mut G) -> (r: Result<
        (),
        Error,
    >)
        ensures
            final(store).reliable() == old(store).reliable(),
            old(store).reliable() ==> (r is Ok <==> self.encodable()),
            !self.encodable() ==> r == Err::<(), Error>(Error::Serialization),
            self.encodable() && r is Err ==> r == Err::<(), Error>(Error::Backend),
            r is Ok ==> records(final(store).rows()) == records(old(store).rows()).insert(
                slot(Self::namespace(), self.key_view()),
                self.encoded(),
            ),
            r is Err ==> final(store).rows() == old(store).rows(),
            final(sig).table() == old(sig).table(),
            final(sig).is_open() == old(sig).is_open(),
            final(sig).queued() == (if r is Ok && old(sig).is_open() {
                old(sig).queued().push((SigType::Update, self.key_view()))
            } else {
                old(sig).queued()
            }),
    {
        match self.store(store) {
            Ok(()) => {
                let k = self.key();
                sig.emit(SigType::Update, k.as_str())
            },
            Err(e) => Err(e),
        }
    }

    /// Removes this value's record.
    fn delete<S: Store>(&self, store: &mut S) -> (r: Result<(), Error>)
        ensures
            final(store).reliable() == old(store).reliable(),
            r is Ok ==> records(old(store).rows()).contains_key(
                slot(Self::namespace(), self.key_view()),
            ) && records(final(store).rows()) == records(old(store).rows()).remove(
                slot(Self::namespace(), self.key_view()),
            ),
            r is Err ==> final(store).rows() == old(store).rows(),
            old(store).reliable() ==> (r is Ok <==> records(old(store).rows()).contains_key(
                slot(Self::namespace(), self.key_view()),
            )),
            old(store).reliable() && r is Err ==> r == Err::<(), Error>(Error::NotFound),
            r is Err ==> r == Err::<(), Error>(Error::NotFound) || r == Err::<(), Error>(
                Error::Backend,
            ),
    {
        let k = self.key();
        store.rm(Self::db(), k.as_str())
    }

    /// Removes this value's record, then, on success only, emits a `Delete`
    /// signal named by its key.
    fn delete_sig<S: Store, G: Signaler>(&self, store: &mut S, sig: &mut G) -> (r: Result<
        (),
        Error,
    >)
        ensures
            final(store).reliable() == old(store).reliable(),
            r is Ok ==> records(old(store).rows()).contains_key(
                slot(Self::namespace(), self.key_view()),
            ) && records(final(store).rows()) == records(old(store).rows()).remove(
                slot(Self::namespace(), self.key_view()),
            ),
            r is Err ==> final(store).rows() == old(store).rows(),
            old(store).reliable() ==> (r is Ok <==> records(old(store).rows()).contains_key(
                slot(Self::namespace(), self.key_view()),
            )),
            old(store).reliable() && r is Err ==> r == Err::<(), Error>(Error::NotFound),
            r is Err ==> r == Err::<(), Error>(Error::NotFound) || r == Err::<(), Error>(
                Error::Backend,
            ),
            final(sig).table() == old(sig).table(),
            final(sig).is_open() == old(sig).is_open(),
            final(sig).queued() == (if r is Ok && old(sig).is_open() {
                old(sig).queued().push((SigType::Delete, self.key_view()))
            } else {
                old(sig).queued()
            }),
    {
        match self.delete(store) {
            Ok(()) => {
                let k = self.key();
                sig.emit(SigType::Delete, k.as_str())
            },
            Err(e) => Err(e),
        }
    }

    /// Reads and decodes the value stored under `key`.
    fn get<S: Store>(store: &S, key: &str) -> (r: Result<Self, Error>)
        ensures
            store.reliable() ==> r == got(
                records(store.rows()),
                Self::namespace(),
                key@,
                |b: Seq<u8>| Self::decode(b),
            ),
            r is Ok ==> r == got(
                records(store.rows()),
                Self::namespace(),
                key@,
                |b: Seq<u8>| Self::decode(b),
            ),
    {
        let data = match store.fetch(Self::db(), key) {
            Ok(data) => data,
            Err(e) => {
                return Err(e);
            },
        };
        Self::fromb(data.as_slice())
    }

    /// Every value of this type whose key starts with `prefix`, keys
    /// ascending; records that fail to decode are skipped.
    fn all<S: Store>(store: &S, prefix: &str) -> (r: Result<Vec<Self>, Error>)
        ensures
            r is Err ==> r == Err::<Vec<Self>, Error>(Error::Backend),
            store.reliable() ==> r is Ok,
            r is Ok ==> r->Ok_0@ == decoded_with(
                scan(store.rows(), slot(Self::namespace(), prefix@)),
                |b: Seq<u8>| Self::decode(b),
            ),
    {
        let items = match store.scan(Self::db(), prefix) {
            Ok(items) => items,
            Err(e) => {
                return Err(e);
            },
        };
        let ghost sc = views(items@);
        let mut out: Vec<Self> = Vec::new();
        let mut i: usize = 0;
        while i < items.len()
            invariant
                i <= items@.len(),
                sc == views(items@),
                out@ == decoded_with(sc.subrange(0, i as int), |b: Seq<u8>| Self::decode(b)),
            decreases items.len() - i,
        {
            match Self::fromb(items[i].as_slice()) {
                Ok(obj) => {
                    out.push(obj);
                },
                Err(_) => {},
            }
            assert(sc.subrange(0, i + 1).drop_last() =~= sc.subrange(0, i as int));
            i += 1;
        }
        assert(sc.subrange(0, sc.len() as int) =~= sc);
        Ok(out)
    }

    /// Visits, keys ascending, every value of this type whose key starts
    /// with `prefix` until `f` answers `Continue(false)`; records that fail
    /// to decode are skipped.
    fn iter<S: Store, F: Fn(Self) -> Continue>(store: &S, prefix: &str, f: F) -> (r: Result<
        (),
        Error,
    >)
        requires
            forall|m: Self| f.requires((m,)),
        ensures
            r is Err ==> r == Err::<(), Error>(Error::Backend),
            store.reliable() ==> r is Ok,
            r is Ok ==> exists|n: int|
                #[trigger] within(n, scan(store.rows(), slot(Self::namespace(), prefix@)).len())
                    && visited_models(
                    f,
                    scan(store.rows(), slot(Self::namespace(), prefix@)),
                    |b: Seq<u8>| Self::decode(b),
                    n,
                ),
    {
        let items = match store.scan(Self::db(), prefix) {
            Ok(items) => items,
            Err(e) => {
                return Err(e);
            },
        };
        let ghost sc = views(items@);
        let ghost dec = |b: Seq<u8>| Self::decode(b);
        let mut i: usize = 0;
        while i < items.len()
            invariant
                i <= items@.len(),
                sc == views(items@),
                sc == scan(store.rows(), slot(Self::namespace(), prefix@)),
                dec == (|b: Seq<u8>| Self::decode(b)),
                forall|m: Self| f.requires((m,)),
                forall|j: int|
                    0 <= j < i ==> match dec(#[trigger] sc[j]) {
                        Ok(m) => f.ensures((m,), Continue(true)),
                        Err(_) => true,
                    },
            decreases items.len() - i,
        {
            match Self::fromb(items[i].as_slice()) {
                Ok(obj) => {
                    let ghost o = obj;
                    let Continue(go) = f(obj);
                    if !go {
                        assert(visited_models(f, sc, dec, i + 1));
                        assert(within(i + 1, sc.len()));
                        return Ok(());
                    }
                },
                Err(_) => {},
            }
            i += 1;
        }
        assert(visited_models(f, sc, dec, sc.len() as int));
        assert(within(sc.len() as int, sc.len()));
        Ok(())
    }
}


/// Round trip: when a value's bytes decode back to the value, reading its
/// key after storing it gives the value back.
pub proof fn lemma_model_round_trip<M: Model>(m: Map<Seq<u8>, Seq<u8>>, v: M)
    requires
        M::decode(v.encoded()) == Ok::<M, Error>(v),
    ensures
        got(
            m.insert(slot(M::namespace(), v.key_view()), v.encoded()),
            M::namespace(),
            v.key_view(),
            |b: Seq<u8>| M::decode(b),
        ) == Ok::<M, Error>(v),
{
    lemma_round_trip(m, M::namespace(), v.key_view(), v.encoded());
}

/// Delete-then-get: once a value's record is removed, reading its key fails
/// with `NotFound`.
pub proof fn lemma_model_delete_then_get<M: Model>(m: Map<Seq<u8>, Seq<u8>>, v: M)
    ensures
        got(
            m.remove(slot(M::namespace(), v.key_view())),
            M::namespace(),
            v.key_view(),
            |b: Seq<u8>| M::decode(b),
        ) == Err::<M, Error>(Error::NotFound),
{
    lemma_delete_then_get(m, M::namespace(), v.key_view());
}

} // verus!
