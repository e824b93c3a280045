use vstd::prelude::*;

use crate::error::Error;
use crate::signal::{bytes_of, is_prefix};

verus! {

/// Answer of a visitor: `Continue(false)` stops a scan.
pub struct Continue(pub bool);

/// Records as the store holds them: (address, bytes), addresses ascending.
pub type RowsView = Seq<(Seq<u8>, Seq<u8>)>;

/// Address of the record `key` of namespace `db`: `"{db}:{key}"` as bytes.
pub open spec fn slot(db: Seq<char>, key: Seq<char>) -> Seq<u8> {
    bytes_of(db) + seq![58u8] + bytes_of(key)
}

/// Lexicographic comparison of byte strings: negative, zero or positive.
pub open spec fn lex_cmp(a: Seq<u8>, b: Seq<u8>) -> int
    decreases a.len(),
{
    if a.len() == 0 {
        if b.len() == 0 {
            0
        } else {
            -1
        }
    } else if b.len() == 0 {
        1
    } else if a[0] < b[0] {
        -1
    } else if a[0] > b[0] {
        1
    } else {
        lex_cmp(a.drop_first(), b.drop_first())
    }
}

/// Addresses strictly ascending.
pub open spec fn sorted(rows: RowsView) -> bool {
    forall|i: int, j: int|
        0 <= i < j < rows.len() ==> lex_cmp(#[trigger] rows[i].0, #[trigger] rows[j].0) < 0
}

/// No address occurs twice.
pub open spec fn distinct(rows: RowsView) -> bool {
    forall|i: int, j: int| 0 <= i < j < rows.len() ==> #[trigger] rows[i].0 != #[trigger] rows[j].0
}

/// The records as a map from address to bytes.
pub open spec fn records(rows: RowsView) -> Map<Seq<u8>, Seq<u8>> {
    Map::new(
        |k: Seq<u8>| exists|i: int| 0 <= i < rows.len() && rows[i].0 == k,
        |k: Seq<u8>| rows[choose|i: int| 0 <= i < rows.len() && rows[i].0 == k].1,
    )
}

/// Bytes of the records whose address starts with `p`, in row order.
pub open spec fn scan(rows: RowsView, p: Seq<u8>) -> Seq<Seq<u8>>
    decreases rows.len(),
{
    if rows.len() == 0 {
        Seq::empty()
    } else {
        let rest = scan(rows.drop_last(), p);
        if is_prefix(p, rows.last().0) {
            rest.push(rows.last().1)
        } else {
            rest
        }
    }
}

/// What `pull` answers on a store holding `m`.
pub open spec fn pulled(m: Map<Seq<u8>, Seq<u8>>, db: Seq<char>, key: Seq<char>) -> Result<
    Seq<u8>,
    Error,
> {
    if m.contains_key(slot(db, key)) {
        Ok(m[slot(db, key)])
    } else {
        Err(Error::NotFound)
    }
}

/// The values among decoding results `outs`, in order, failures left out.
pub open spec fn decoded<T>(outs: Seq<Result<T, Error>>) -> Seq<T>
    decreases outs.len(),
{
    if outs.len() == 0 {
        Seq::empty()
    } else {
        let rest = decoded(outs.drop_last());
        match outs.last() {
            Ok(t) => rest.push(t),
            Err(_) => rest,
        }
    }
}

/// Every byte string compares equal to itself.
pub proof fn lemma_lex_refl(a: Seq<u8>)
    ensures
        lex_cmp(a, a) == 0,
    decreases a.len(),
{
    if a.len() > 0 {
        lemma_lex_refl(a.drop_first());
    }
}

/// Byte strings that compare equal are equal.
pub proof fn lemma_lex_zero(a: Seq<u8>, b: Seq<u8>)
    requires
        lex_cmp(a, b) == 0,
    ensures
        a == b,
    decreases a.len(),
{
    if a.len() > 0 && b.len() > 0 {
        lemma_lex_zero(a.drop_first(), b.drop_first());
        assert(a =~= seq![a[0]] + a.drop_first());
        assert(b =~= seq![b[0]] + b.drop_first());
    } else {
        assert(a =~= b);
    }
}

/// Swapping the operands flips the comparison.
pub proof fn lemma_lex_antisym(a: Seq<u8>, b: Seq<u8>)
    ensures
        lex_cmp(a, b) == -lex_cmp(b, a),
    decreases a.len(),
{
    if a.len() > 0 && b.len() > 0 {
        lemma_lex_antisym(a.drop_first(), b.drop_first());
    }
}

/// The lexicographic order is transitive.
pub proof fn lemma_lex_trans(a: Seq<u8>, b: Seq<u8>, c: Seq<u8>)
    requires
        lex_cmp(a, b) < 0,
        lex_cmp(b, c) < 0,
    ensures
        lex_cmp(a, c) < 0,
    decreases a.len(),
{
    if a.len() > 0 && b.len() > 0 && c.len() > 0 {
        if a[0] == b[0] && b[0] == c[0] {
            lemma_lex_trans(a.drop_first(), b.drop_first(), c.drop_first());
        }
    }
}

/// Sorted rows hold each address once.
pub proof fn lemma_sorted_distinct(rows: RowsView)
    requires
        sorted(rows),
    ensures
        distinct(rows),
{
    assert forall|i: int, j: int| 0 <= i < j < rows.len() implies #[trigger] rows[i].0
        != #[trigger] rows[j].0 by {
        lemma_lex_refl(rows[i].0);
    }
}


/// Round trip: after `push(db, key, v)`, `pull(db, key)` hands back `v`.
pub proof fn lemma_round_trip(m: Map<Seq<u8>, Seq<u8>>, db: Seq<char>, key: Seq<char>, v: Seq<u8>)
    ensures
        pulled(m.insert(slot(db, key), v), db, key) == Ok::<Seq<u8>, Error>(v),
{
}

/// After `rm(db, key)` succeeded, `pull(db, key)` fails with `NotFound`.
pub proof fn lemma_delete_then_get(m: Map<Seq<u8>, Seq<u8>>, db: Seq<char>, key: Seq<char>)
    ensures
        pulled(m.remove(slot(db, key)), db, key) == Err::<Seq<u8>, Error>(Error::NotFound),
{
}

/// Storing a key twice leaves only the latest bytes retrievable.
pub proof fn lemma_overwrite(
    m: Map<Seq<u8>, Seq<u8>>,
    db: Seq<char>,
    key: Seq<char>,
    v1: Seq<u8>,
    v2: Seq<u8>,
)
    ensures
        m.insert(slot(db, key), v1).insert(slot(db, key), v2) == m.insert(slot(db, key), v2),
        pulled(m.insert(slot(db, key), v1).insert(slot(db, key), v2), db, key) == Ok::<
            Seq<u8>,
            Error,
        >(v2),
{
    assert(m.insert(slot(db, key), v1).insert(slot(db, key), v2) =~= m.insert(slot(db, key), v2));
}

/// Within one namespace, the address of `key` starts with the address of
/// `prefix` exactly when `key` starts with `prefix`, byte by byte.
pub proof fn lemma_slot_prefix(db: Seq<char>, prefix: Seq<char>, key: Seq<char>)
    ensures
        is_prefix(slot(db, prefix), slot(db, key)) <==> is_prefix(bytes_of(prefix), bytes_of(key)),
{
    let d = bytes_of(db) + seq![58u8];
    let p = bytes_of(prefix);
    let k = bytes_of(key);
    assert(slot(db, prefix) == d + p);
    assert(slot(db, key) == d + k);
    if is_prefix(p, k) {
        assert((d + k).subrange(0, (d + p).len() as int) =~= d + p);
    }
    if is_prefix(d + p, d + k) {
        assert(k.subrange(0, p.len() as int) =~= (d + k).subrange(0, (d + p).len() as int).subrange(
            d.len() as int,
            (d + p).len() as int,
        ));
        assert((d + p).subrange(d.len() as int, (d + p).len() as int) =~= p);
    }
}

/// Prefix completeness and exclusivity: a scan holds the bytes of a row
/// exactly when the row's address starts with the scanned prefix.
pub proof fn lemma_scan_exact(rows: RowsView, p: Seq<u8>, v: Seq<u8>)
    ensures
        scan(rows, p).contains(v) <==> exists|i: int|
            0 <= i < rows.len() && is_prefix(p, rows[i].0) && rows[i].1 == v,
    decreases rows.len(),
{
    if rows.len() > 0 {
        let u = rows.drop_last();
        lemma_scan_exact(u, p, v);
        let rest = scan(u, p);
        if scan(rows, p).contains(v) {
            let j = choose|j: int| 0 <= j < scan(rows, p).len() && scan(rows, p)[j] == v;
            if j < rest.len() {
                assert(rest[j] == v);
                let i = choose|i: int| 0 <= i < u.len() && is_prefix(p, u[i].0) && u[i].1 == v;
                assert(rows[i] == u[i]);
            } else {
                assert(is_prefix(p, rows[rows.len() - 1].0));
            }
        }
        if exists|i: int| 0 <= i < rows.len() && is_prefix(p, rows[i].0) && rows[i].1 == v {
            let i = choose|i: int| 0 <= i < rows.len() && is_prefix(p, rows[i].0) && rows[i].1 == v;
            if i < u.len() {
                assert(u[i] == rows[i]);
                let j = choose|j: int| 0 <= j < rest.len() && rest[j] == v;
                assert(scan(rows, p)[j] == v);
            } else {
                assert(scan(rows, p)[rest.len() as int] == v);
            }
        }
    }
}

/// The bytes of each buffer, in order.
pub open spec fn views(items: Seq<Vec<u8>>) -> Seq<Seq<u8>> {
    Seq::new(items.len(), |i: int| items[i]@)
}

/// `outs[i]` is what `f` answered on the bytes `items[i]`, for each `i`.
pub open spec fn decodes_each<F: Fn(&[u8]) -> Result<T, Error>, T>(
    f: F,
    items: Seq<Seq<u8>>,
    outs: Seq<Result<T, Error>>,
) -> bool {
    &&& outs.len() == items.len()
    &&& forall|i: int| 0 <= i < outs.len() ==> decodes_to(f, items[i], #[trigger] outs[i])
}

/// `out` is an answer of `f` on the bytes `item`.
pub open spec fn decodes_to<F: Fn(&[u8]) -> Result<T, Error>, T>(
    f: F,
    item: Seq<u8>,
    out: Result<T, Error>,
) -> bool {
    exists|b: &[u8]| b@ == item && f.ensures((b,), out)
}

/// `f` answered `Continue(go)` on the bytes `item`.
pub open spec fn answered<F: Fn(&[u8]) -> Continue>(f: F, item: Seq<u8>, go: bool) -> bool {
    exists|b: &[u8]| b@ == item && f.ensures((b,), Continue(go))
}

/// `f` was called on exactly the first `n` of `items`, in order: each of
/// them but the last answered `Continue(true)`, the last was answered too,
/// and a visit that ended before the last item ended on a `Continue(false)`.
pub open spec fn visited<F: Fn(&[u8]) -> Continue>(f: F, items: Seq<Seq<u8>>, n: int) -> bool {
    &&& 0 <= n <= items.len()
    &&& forall|i: int| 0 <= i < n - 1 ==> answered(f, #[trigger] items[i], true)
    &&& n < items.len() ==> n > 0 && answered(f, items[n - 1], false)
    &&& n > 0 ==> answered(f, items[n - 1], true) || answered(f, items[n - 1], false)
}

/// An ordered key-value store of byte records, addressed by namespace and
/// key. `rows` is its content, addresses ascending.
pub trait Store {
    /// The records, addresses ascending.
    closed spec fn rows(&self) -> RowsView {
        Seq::empty()
    }

    /// Whether every operation succeeds: no engine underneath that can fail.
    /// A store that leaves this out promises only what holds on success.
    closed spec fn reliable(&self) -> bool {
        false
    }

    /// Writes or overwrites the record `key` of `db`.
    fn push(&mut self, db: &str, key: &str, value: Vec<u8>) -> (r: Result<(), Error>)
        ensures
            r is Err ==> r == Err::<(), Error>(Error::Backend),
            sorted(final(self).rows()),
            final(self).reliable() == old(self).reliable(),
            old(self).reliable() ==> r is Ok,
            r is Ok ==> records(final(self).rows()) == records(old(self).rows()).insert(
                slot(db@, key@),
                value@,
            ),
            r is Err ==> final(self).rows() == old(self).rows(),
    ;

    /// The bytes of the record `key` of `db`.
    fn fetch(&self, db: &str, key: &str) -> (r: Result<Vec<u8>, Error>)
        ensures
            r is Err ==> r == Err::<Vec<u8>, Error>(Error::NotFound) || r == Err::<Vec<u8>, Error>(
                Error::Backend,
            ),
            r is Ok ==> pulled(records(self.rows()), db@, key@) == Ok::<Seq<u8>, Error>(
                r->Ok_0@,
            ),
            self.reliable() && pulled(records(self.rows()), db@, key@) is Ok ==> r is Ok,
            self.reliable() && pulled(records(self.rows()), db@, key@) is Err ==> r
                == Err::<Vec<u8>, Error>(Error::NotFound),
    ;

    /// A snapshot of the bytes of every record of `db` whose key starts
    /// with `prefix`, keys ascending.
    fn scan(&self, db: &str, prefix: &str) -> (r: Result<Vec<Vec<u8>>, Error>)
        ensures
            r is Err ==> r == Err::<Vec<Vec<u8>>, Error>(Error::Backend),
            sorted(self.rows()),
            self.reliable() ==> r is Ok,
            r is Ok ==> views(r->Ok_0@) == scan(self.rows(), slot(db@, prefix@)),
    ;

    /// Removes the record `key` of `db`.
    fn rm(&mut self, db: &str, key: &str) -> (r: Result<(), Error>)
        ensures
            r is Err ==> r == Err::<(), Error>(Error::NotFound) || r == Err::<(), Error>(
                Error::Backend,
            ),
            sorted(final(self).rows()),
            final(self).reliable() == old(self).reliable(),
            r is Ok ==> records(old(self).rows()).contains_key(slot(db@, key@)) && records(
                final(self).rows(),
            ) == records(old(self).rows()).remove(slot(db@, key@)),
            r is Err ==> final(self).rows() == old(self).rows(),
            old(self).reliable() ==> (r is Ok <==> records(old(self).rows()).contains_key(
                slot(db@, key@),
            )),
            old(self).reliable() && r is Err ==> r == Err::<(), Error>(Error::NotFound),
    ;

    /// Reads the record `key` of `db` and hands its bytes to `formatter`.
    fn pull<F, T>(&self, db: &str, key: &str, formatter: F) -> (r: Result<T, Error>) where
        F: Fn(&[u8]) -> Result<T, Error>
        requires
            forall|b: &[u8]| formatter.requires((b,)),
        ensures
            r is Ok ==> pulled(records(self.rows()), db@, key@) is Ok,
            pulled(records(self.rows()), db@, key@) is Ok && (self.reliable() || r is Ok)
                ==> decodes_to(formatter, pulled(records(self.rows()), db@, key@)->Ok_0, r),
            self.reliable() && pulled(records(self.rows()), db@, key@) is Err ==> r
                == Err::<T, Error>(Error::NotFound),
    {
        let data = match self.fetch(db, key) {
            Ok(data) => data,
            Err(e) => {
                return Err(e);
            },
        };
        let b = data.as_slice();
        let r = formatter(b);
        assert(decodes_to(formatter, data@, r));
        r
    }

    /// Visits, keys ascending, the bytes of every record of `db` whose key
    /// starts with `prefix`, until `f` answers `Continue(false)`.
    fn iter<F>(&self, db: &str, prefix: &str, f: F) -> (r: Result<(), Error>) where
        F: Fn(&[u8]) -> Continue
        requires
            forall|b: &[u8]| f.requires((b,)),
        ensures
            r is Err ==> r == Err::<(), Error>(Error::Backend),
            self.reliable() ==> r is Ok,
            r is Ok ==> exists|n: int| visited(f, scan(self.rows(), slot(db@, prefix@)), n),
    {
        let items = match self.scan(db, prefix) {
            Ok(items) => items,
            Err(e) => {
                return Err(e);
            },
        };
        let ghost sc = views(items@);
        let mut i: usize = 0;
        while i < items.len()
            invariant
                i <= items@.len(),
                sc == views(items@),
                sc == scan(self.rows(), slot(db@, prefix@)),
                forall|b: &[u8]| f.requires((b,)),
                forall|j: int| 0 <= j < i ==> answered(f, #[trigger] sc[j], true),
            decreases items.len() - i,
        {
            let b = items[i].as_slice();
            let c = f(b);
            assert(answered(f, sc[i as int], c.0));
            let Continue(go) = c;
            if !go {
                assert(visited(f, sc, i + 1));
                return Ok(());
            }
            i += 1;
        }
        assert(visited(f, sc, sc.len() as int));
        Ok(())
    }

    /// Decodes with `formatter` every record of `db` whose key starts with
    /// `prefix`, keys ascending; records that fail to decode are skipped.
    fn all<F, T>(&self, db: &str, prefix: &str, formatter: F) -> (r: Result<Vec<T>, Error>) where
        F: Fn(&[u8]) -> Result<T, Error>
        requires
            forall|b: &[u8]| formatter.requires((b,)),
        ensures
            r is Err ==> r == Err::<Vec<T>, Error>(Error::Backend),
            self.reliable() ==> r is Ok,
            r is Ok ==> exists|outs: Seq<Result<T, Error>>|
                #[trigger] decodes_each(formatter, scan(self.rows(), slot(db@, prefix@)), outs)
                    && r->Ok_0@ == decoded(outs),
    {
        let items = match self.scan(db, prefix) {
            Ok(items) => items,
            Err(e) => {
                return Err(e);
            },
        };
        let ghost sc = views(items@);
        let ghost mut outs: Seq<Result<T, Error>> = Seq::empty();
        let mut out: Vec<T> = Vec::new();
        let mut i: usize = 0;
        while i < items.len()
            invariant
                i <= items@.len(),
                sc == views(items@),
                forall|b: &[u8]| formatter.requires((b,)),
                outs.len() == i,
                forall|j: int| 0 <= j < i ==> decodes_to(formatter, sc[j], #[trigger] outs[j]),
                out@ == decoded(outs),
            decreases items.len() - i,
        {
            let b = items[i].as_slice();
            let x = formatter(b);
            proof {
                assert(b@ == sc[i as int]);
                assert(decodes_to(formatter, sc[i as int], x));
                let ghost prev = outs;
                outs = outs.push(x);
                assert(outs.drop_last() =~= prev);
            }
            match x {
                Ok(t) => {
                    out.push(t);
                },
                Err(_) => {},
            }
            i += 1;
        }
        proof {
            assert(sc == scan(self.rows(), slot(db@, prefix@)));
            assert(outs.len() == sc.len());
            assert(decodes_each(formatter, sc, outs));
        }
        Ok(out)
    }
}

} // verus!
