use vstd::prelude::*;

use crate::error::Error;
use crate::signal::{is_prefix, starts_with};
use crate::store::{
    distinct, lemma_lex_antisym, lemma_lex_refl, lemma_lex_trans, lemma_lex_zero,
    lemma_sorted_distinct, lex_cmp, records, scan, slot, sorted, views, Continue, RowsView, Store,
};

verus! {

/// One record: its address and its bytes.
struct Row {
    key: Vec<u8>,
    value: Vec<u8>,
}

spec fn rows_of(s: Seq<Row>) -> RowsView {
    Seq::new(s.len(), |i: int| (s[i].key@, s[i].value@))
}

/// In-memory store: one ordered table of `"{namespace}:{key}"` addresses
/// shared by all namespaces. Share it between threads behind a lock.
pub struct Cache {
    db: Vec<Row>,
}

/// A copy of `s`.
fn copy_bytes(s: &[u8]) -> (r: Vec<u8>)
    ensures
        r@ == s@,
{
    let mut r: Vec<u8> = Vec::new();
    let mut i: usize = 0;
    while i < s.len()
        invariant
            i <= s@.len(),
            r@ == s@.subrange(0, i as int),
        decreases s.len() - i,
    {
        r.push(s[i]);
        i += 1;
        assert(r@ =~= s@.subrange(0, i as int));
    }
    assert(r@ =~= s@);
    r
}

/// The address of the record `key` of `db`.
fn slot_of(db: &str, key: &str) -> (r: Vec<u8>)
    ensures
        r@ == slot(db@, key@),
{
    let mut r = copy_bytes(db.as_bytes());
    r.push(58u8);
    let k = key.as_bytes();
    let ghost head = r@;
    let mut i: usize = 0;
    while i < k.len()
        invariant
            i <= k@.len(),
            r@ == head + k@.subrange(0, i as int),
        decreases k.len() - i,
    {
        r.push(k[i]);
        i += 1;
        assert(r@ =~= head + k@.subrange(0, i as int));
    }
    assert(k@.subrange(0, k@.len() as int) =~= k@);
    r
}

/// Lexicographic comparison: -1, 0 or 1.
fn compare(a: &[u8], b: &[u8]) -> (r: i8)
    ensures
        r as int == lex_cmp(a@, b@),
{
    let mut i: usize = 0;
    assert(a@.subrange(0, a@.len() as int) =~= a@);
    assert(b@.subrange(0, b@.len() as int) =~= b@);
    while i < a.len() && i < b.len()
        invariant
            i <= a@.len(),
            i <= b@.len(),
            lex_cmp(a@, b@) == lex_cmp(a@.subrange(i as int, a@.len() as int), b@.subrange(i as int, b@.len() as int)),
        decreases a.len() - i,
    {
        let ghost sa = a@.subrange(i as int, a@.len() as int);
        let ghost sb = b@.subrange(i as int, b@.len() as int);
        if a[i] < b[i] {
            assert(sa[0] == a@[i as int]);
            assert(sb[0] == b@[i as int]);
            return -1;
        }
        if a[i] > b[i] {
            assert(sa[0] == a@[i as int]);
            assert(sb[0] == b@[i as int]);
            return 1;
        }
        assert(sa.drop_first() =~= a@.subrange(i + 1, a@.len() as int));
        assert(sb.drop_first() =~= b@.subrange(i + 1, b@.len() as int));
        i += 1;
    }
    if i == a.len() && i == b.len() {
        0
    } else if i == a.len() {
        -1
    } else {
        1
    }
}

/// `records` maps the address of row `i` to its bytes.
proof fn lemma_records_at(rows: RowsView, i: int)
    requires
        distinct(rows),
        0 <= i < rows.len(),
    ensures
        records(rows).contains_key(rows[i].0),
        records(rows)[rows[i].0] == rows[i].1,
{
    let k = rows[i].0;
    assert(exists|j: int| 0 <= j < rows.len() && rows[j].0 == k);
    let j = choose|j: int| 0 <= j < rows.len() && rows[j].0 == k;
    if j < i {
        assert(rows[j].0 != rows[i].0);
    } else if j > i {
        assert(rows[i].0 != rows[j].0);
    }
}

/// Overwriting the bytes of row `i`.
proof fn lemma_records_update(rows: RowsView, i: int, v: Seq<u8>)
    requires
        distinct(rows),
        0 <= i < rows.len(),
    ensures
        distinct(rows.update(i, (rows[i].0, v))),
        records(rows.update(i, (rows[i].0, v))) == records(rows).insert(rows[i].0, v),
{
    let w = rows.update(i, (rows[i].0, v));
    assert forall|a: int, b: int| 0 <= a < b < w.len() implies #[trigger] w[a].0
        != #[trigger] w[b].0 by {
        assert(rows[a].0 != rows[b].0);
    }
    let m = records(rows).insert(rows[i].0, v);
    assert forall|k: Seq<u8>| #[trigger] records(w).contains_key(k) <==> m.contains_key(k) by {
        if k == rows[i].0 {
            assert(w[i].0 == k);
        }
        if m.contains_key(k) && k != rows[i].0 {
            let j = choose|j: int| 0 <= j < rows.len() && rows[j].0 == k;
            assert(w[j].0 == k);
        }
        if records(w).contains_key(k) {
            let j = choose|j: int| 0 <= j < w.len() && w[j].0 == k;
            assert(rows[j].0 == k);
        }
    }
    assert forall|k: Seq<u8>| #[trigger] records(w).contains_key(k) implies records(w)[k] == m[k] by {
        let j = choose|j: int| 0 <= j < w.len() && w[j].0 == k;
        lemma_records_at(w, j);
        if j != i {
            lemma_records_at(rows, j);
        }
    }
    assert(records(w) =~= m);
}

/// Inserting a row whose address the rows do not hold.
proof fn lemma_records_insert(rows: RowsView, i: int, k: Seq<u8>, v: Seq<u8>)
    requires
        distinct(rows),
        0 <= i <= rows.len(),
        !records(rows).contains_key(k),
        distinct(rows.insert(i, (k, v))),
    ensures
        records(rows.insert(i, (k, v))) == records(rows).insert(k, v),
{
    let w = rows.insert(i, (k, v));
    let m = records(rows).insert(k, v);
    assert forall|x: Seq<u8>| #[trigger] records(w).contains_key(x) <==> m.contains_key(x) by {
        if m.contains_key(x) && x != k {
            let j = choose|j: int| 0 <= j < rows.len() && rows[j].0 == x;
            if j < i {
                assert(w[j] == rows[j]);
            } else {
                assert(w[j + 1] == rows[j]);
            }
        }
        if x == k {
            assert(w[i].0 == k);
        }
        if records(w).contains_key(x) && x != k {
            let j = choose|j: int| 0 <= j < w.len() && w[j].0 == x;
            if j < i {
                assert(rows[j].0 == x);
            } else {
                assert(rows[j - 1].0 == x);
            }
        }
    }
    assert forall|x: Seq<u8>| #[trigger] records(w).contains_key(x) implies records(w)[x] == m[x] by {
        let j = choose|j: int| 0 <= j < w.len() && w[j].0 == x;
        lemma_records_at(w, j);
        if j < i {
            lemma_records_at(rows, j);
        } else if j > i {
            lemma_records_at(rows, j - 1);
        }
    }
    assert(records(w) =~= m);
}

/// Removing row `i`.
proof fn lemma_records_remove(rows: RowsView, i: int)
    requires
        distinct(rows),
        0 <= i < rows.len(),
    ensures
        records(rows.remove(i)) == records(rows).remove(rows[i].0),
{
    let w = rows.remove(i);
    let k = rows[i].0;
    let m = records(rows).remove(k);
    assert forall|x: Seq<u8>| #[trigger] records(w).contains_key(x) <==> m.contains_key(x) by {
        if m.contains_key(x) {
            let j = choose|j: int| 0 <= j < rows.len() && rows[j].0 == x;
            if j < i {
                assert(w[j] == rows[j]);
            } else {
                assert(j != i);
                assert(w[j - 1] == rows[j]);
            }
        }
        if records(w).contains_key(x) {
            let j = choose|j: int| 0 <= j < w.len() && w[j].0 == x;
            let jj = if j < i {
                j
            } else {
                j + 1
            };
            assert(rows[jj].0 == x);
            if jj < i {
                assert(rows[jj].0 != rows[i].0);
            } else {
                assert(rows[i].0 != rows[jj].0);
            }
        }
    }
    assert forall|x: Seq<u8>| #[trigger] records(w).contains_key(x) implies records(w)[x] == m[x] by {
        let j = choose|j: int| 0 <= j < w.len() && w[j].0 == x;
        assert forall|a: int, b: int| 0 <= a < b < w.len() implies #[trigger] w[a].0
            != #[trigger] w[b].0 by {
            let aa = if a < i {
                a
            } else {
                a + 1
            };
            let bb = if b < i {
                b
            } else {
                b + 1
            };
            assert(rows[aa].0 != rows[bb].0);
        }
        lemma_records_at(w, j);
        if j < i {
            lemma_records_at(rows, j);
        } else {
            lemma_records_at(rows, j + 1);
        }
    }
    assert(records(w) =~= m);
}


/// Where `k` belongs among the rows: the first row whose address is not
/// below `k`, and whether that address is `k`.
fn find(rows: &Vec<Row>, k: &[u8]) -> (r: (usize, bool))
    ensures
        r.0 <= rows@.len(),
        forall|j: int| 0 <= j < r.0 ==> lex_cmp(#[trigger] rows_of(rows@)[j].0, k@) < 0,
        r.1 ==> r.0 < rows@.len() && rows_of(rows@)[r.0 as int].0 == k@,
        !r.1 && r.0 < rows@.len() ==> lex_cmp(k@, rows_of(rows@)[r.0 as int].0) < 0,
{
    let ghost rv = rows_of(rows@);
    let mut i: usize = 0;
    while i < rows.len()
        invariant
            i <= rows@.len(),
            rv == rows_of(rows@),
            forall|j: int| 0 <= j < i ==> lex_cmp(#[trigger] rv[j].0, k@) < 0,
        decreases rows.len() - i,
    {
        let c = compare(rows[i].key.as_slice(), k);
        if c == 0 {
            proof {
                lemma_lex_zero(rv[i as int].0, k@);
            }
            return (i, true);
        }
        if c > 0 {
            proof {
                lemma_lex_antisym(rv[i as int].0, k@);
            }
            return (i, false);
        }
        i += 1;
    }
    (i, false)
}

/// Where `find` stops without a match, `k` is absent and belongs there.
proof fn lemma_absent(rows: RowsView, i: int, k: Seq<u8>, v: Seq<u8>)
    requires
        sorted(rows),
        0 <= i <= rows.len(),
        forall|j: int| 0 <= j < i ==> lex_cmp(#[trigger] rows[j].0, k) < 0,
        i < rows.len() ==> lex_cmp(k, rows[i].0) < 0,
    ensures
        !records(rows).contains_key(k),
        sorted(rows.insert(i, (k, v))),
{
    lemma_lex_refl(k);
    if records(rows).contains_key(k) {
        let j = choose|j: int| 0 <= j < rows.len() && rows[j].0 == k;
        if j > i {
            lemma_lex_trans(k, rows[i].0, rows[j].0);
        }
    }
    let w = rows.insert(i, (k, v));
    assert forall|a: int, b: int| 0 <= a < b < w.len() implies lex_cmp(
        #[trigger] w[a].0,
        #[trigger] w[b].0,
    ) < 0 by {
        if a < i && b < i {
            assert(lex_cmp(rows[a].0, rows[b].0) < 0);
        } else if a < i && b == i {
        } else if a < i {
            assert(lex_cmp(rows[a].0, rows[b - 1].0) < 0);
        } else if a == i {
            if b - 1 > i {
                assert(lex_cmp(rows[i].0, rows[b - 1].0) < 0);
                lemma_lex_trans(k, rows[i].0, rows[b - 1].0);
            }
        } else {
            assert(lex_cmp(rows[a - 1].0, rows[b - 1].0) < 0);
        }
    }
}

impl Cache {
    #[verifier::type_invariant]
    spec fn inv(self) -> bool {
        sorted(rows_of(self.db@))
    }

    /// An empty store.
    pub fn new() -> (r: Result<Cache, Error>)
        ensures
            r is Ok,
            r->Ok_0.rows() == Seq::<(Seq<u8>, Seq<u8>)>::empty(),
            r->Ok_0.reliable(),
    {
        let c = Cache { db: Vec::new() };
        assert(rows_of(c.db@) =~= Seq::<(Seq<u8>, Seq<u8>)>::empty());
        Ok(c)
    }
}

impl Store for Cache {
    closed spec fn rows(&self) -> RowsView {
        rows_of(self.db@)
    }

    open spec fn reliable(&self) -> bool {
        true
    }

    fn push(&mut self, db: &str, key: &str, value: Vec<u8>) -> (r: Result<(), Error>) {
        proof {
            use_type_invariant(&*self);
        }
        let k = slot_of(db, key);
        let mut rows: Vec<Row> = Vec::new();
        std::mem::swap(&mut rows, &mut self.db);
        let ghost rv = rows_of(rows@);
        let ghost kv = k@;
        let ghost vv = value@;
        proof {
            lemma_sorted_distinct(rv);
        }
        let (i, found) = find(&rows, k.as_slice());
        if found {
            let _ = rows.remove(i);
            rows.insert(i, Row { key: k, value });
            proof {
                assert(rows_of(rows@) =~= rv.update(i as int, (rv[i as int].0, vv)));
                lemma_records_update(rv, i as int, vv);
                assert forall|a: int, b: int| 0 <= a < b < rows@.len() implies lex_cmp(
                    #[trigger] rows_of(rows@)[a].0,
                    #[trigger] rows_of(rows@)[b].0,
                ) < 0 by {
                    assert(lex_cmp(rv[a].0, rv[b].0) < 0);
                }
            }
        } else {
            rows.insert(i, Row { key: k, value });
            proof {
                lemma_absent(rv, i as int, kv, vv);
                assert(rows_of(rows@) =~= rv.insert(i as int, (kv, vv)));
                lemma_sorted_distinct(rv.insert(i as int, (kv, vv)));
                lemma_records_insert(rv, i as int, kv, vv);
            }
        }
        self.db = rows;
        Ok(())
    }

    fn fetch(&self, db: &str, key: &str) -> (r: Result<Vec<u8>, Error>) {
        proof {
            use_type_invariant(self);
            lemma_sorted_distinct(self.rows());
        }
        let k = slot_of(db, key);
        let (i, found) = find(&self.db, k.as_slice());
        if found {
            proof {
                lemma_records_at(self.rows(), i as int);
            }
            Ok(copy_bytes(self.db[i].value.as_slice()))
        } else {
            proof {
                lemma_absent(self.rows(), i as int, k@, Seq::empty());
            }
            Err(Error::NotFound)
        }
    }

    fn scan(&self, db: &str, prefix: &str) -> (r: Result<Vec<Vec<u8>>, Error>) {
        proof {
            use_type_invariant(self);
        }
        let p = slot_of(db, prefix);
        let ghost rv = self.rows();
        let mut out: Vec<Vec<u8>> = Vec::new();
        let mut i: usize = 0;
        while i < self.db.len()
            invariant
                i <= self.db@.len(),
                rv == rows_of(self.db@),
                views(out@) == scan(rv.subrange(0, i as int), p@),
            decreases self.db.len() - i,
        {
            let ghost before = out@;
            if starts_with(self.db[i].key.as_slice(), p.as_slice()) {
                let v = copy_bytes(self.db[i].value.as_slice());
                out.push(v);
                assert(views(out@) =~= views(before).push(rv[i as int].1));
            }
            assert(rv.subrange(0, i + 1).drop_last() =~= rv.subrange(0, i as int));
            i += 1;
        }
        assert(rv.subrange(0, rv.len() as int) =~= rv);
        Ok(out)
    }

    fn rm(&mut self, db: &str, key: &str) -> (r: Result<(), Error>) {
        proof {
            use_type_invariant(&*self);
        }
        let k = slot_of(db, key);
        let mut rows: Vec<Row> = Vec::new();
        std::mem::swap(&mut rows, &mut self.db);
        let ghost rv = rows_of(rows@);
        proof {
            lemma_sorted_distinct(rv);
        }
        let (i, found) = find(&rows, k.as_slice());
        if found {
            let _ = rows.remove(i);
            proof {
                lemma_records_at(rv, i as int);
                assert(rows_of(rows@) =~= rv.remove(i as int));
                lemma_records_remove(rv, i as int);
                assert forall|a: int, b: int| 0 <= a < b < rows@.len() implies lex_cmp(
                    #[trigger] rows_of(rows@)[a].0,
                    #[trigger] rows_of(rows@)[b].0,
                ) < 0 by {
                    let aa = if a < i {
                        a
                    } else {
                        a + 1
                    };
                    let bb = if b < i {
                        b
                    } else {
                        b + 1
                    };
                    assert(lex_cmp(rv[aa].0, rv[bb].0) < 0);
                }
            }
            self.db = rows;
            Ok(())
        } else {
            proof {
                lemma_absent(rv, i as int, k@, Seq::empty());
            }
            self.db = rows;
            Err(Error::NotFound)
        }
    }
}

} // verus!
