use vstd::prelude::*;
use vstd::utf8::encode_utf8;

use crate::error::Error;

verus! {

/// What happened to the record that a signal names.
#[derive(Clone, Copy, Debug, PartialEq, Eq, Structural)]
pub enum SigType {
    Update,
    Delete,
}

/// A change event: its kind and the key of the record it concerns.
#[derive(Clone, Debug)]
pub struct Signal {
    pub type_: SigType,
    pub name: String,
}

impl View for Signal {
    type V = (SigType, Seq<char>);

    open spec fn view(&self) -> (SigType, Seq<char>) {
        (self.type_, self.name@)
    }
}

/// One subscription: its id and the callback that receives matching signals.
pub struct CallBack<F> {
    pub id: u32,
    pub callback: F,
}

/// A subscription whose callback stays on the thread that polls the bus.
pub type CallBackSync<F> = CallBack<F>;

/// All subscriptions registered under one exact prefix, in insertion order.
pub struct Topic<F> {
    prefix: String,
    subs: Vec<CallBack<F>>,
}

/// Abstract subscription table: for each prefix, in the order in which the
/// prefixes first appeared, the ids subscribed under it in insertion order.
pub type TableView = Seq<(Seq<char>, Seq<u32>)>;

/// UTF-8 bytes of a string.
pub open spec fn bytes_of(s: Seq<char>) -> Seq<u8> {
    encode_utf8(s)
}

/// `p` is a byte-wise prefix of `s`.
pub open spec fn is_prefix(p: Seq<u8>, s: Seq<u8>) -> bool {
    p.len() <= s.len() && s.subrange(0, p.len() as int) == p
}

/// A subscription on `prefix` receives the signal called `name`.
pub open spec fn matches(prefix: Seq<char>, name: Seq<char>) -> bool {
    is_prefix(bytes_of(prefix), bytes_of(name))
}

/// The ids that receive a signal called `name`, in delivery order.
pub open spec fn receivers(v: TableView, name: Seq<char>) -> Seq<u32>
    decreases v.len(),
{
    if v.len() == 0 {
        Seq::empty()
    } else {
        let rest = receivers(v.drop_last(), name);
        if matches(v.last().0, name) {
            rest + v.last().1
        } else {
            rest
        }
    }
}

/// Some list of the table holds `id`.
pub open spec fn holds_id(v: TableView, id: u32) -> bool {
    exists|i: int, k: int| 0 <= i < v.len() && 0 <= k < v[i].1.len() && v[i].1[k] == id
}

/// Prefixes are distinct, ids lie in `[1, next_id)` and no id occurs twice.
pub open spec fn table_wf(v: TableView, next_id: nat) -> bool {
    &&& forall|i: int, j: int| 0 <= i < j < v.len() ==> #[trigger] v[i].0 != #[trigger] v[j].0
    &&& forall|i: int, k: int|
        0 <= i < v.len() && 0 <= k < v[i].1.len() ==> 1 <= #[trigger] v[i].1[k] < next_id
    &&& forall|i1: int, k1: int, i2: int, k2: int|
        0 <= i1 < v.len() && 0 <= k1 < v[i1].1.len() && 0 <= i2 < v.len() && 0 <= k2
            < v[i2].1.len() && #[trigger] v[i1].1[k1] == #[trigger] v[i2].1[k2] ==> i1 == i2 && k1
            == k2
}

/// The table after `id` was subscribed under `p`: appended to the list of
/// `p`, or to a new list at the end when `p` has none.
pub open spec fn with_subscription(v: TableView, p: Seq<char>, id: u32) -> TableView {
    if exists|i: int| 0 <= i < v.len() && v[i].0 == p {
        let i = choose|i: int| 0 <= i < v.len() && v[i].0 == p;
        v.update(i, (p, v[i].1.push(id)))
    } else {
        v.push((p, seq![id]))
    }
}

/// `w` is `v` after removing the subscription `id`, if there is one.
pub open spec fn without_subscription(v: TableView, id: u32, w: TableView) -> bool {
    if holds_id(v, id) {
        exists|i: int, k: int|
            0 <= i < v.len() && 0 <= k < v[i].1.len() && v[i].1[k] == id && w == v.update(
                i,
                (v[i].0, v[i].1.remove(k)),
            )
    } else {
        w == v
    }
}

/// `w` is `v` without the list of the exact prefix `p`.
pub open spec fn without_prefix(v: TableView, p: Seq<char>, w: TableView) -> bool {
    if exists|i: int| 0 <= i < v.len() && v[i].0 == p {
        exists|i: int| 0 <= i < v.len() && v[i].0 == p && w == v.remove(i)
    } else {
        w == v
    }
}

/// Every list emptied, every prefix kept.
pub open spec fn cleared(v: TableView) -> TableView {
    Seq::new(v.len(), |i: int| (v[i].0, Seq::<u32>::empty()))
}

/// Fan-out by prefix: an id receives a signal exactly when it is subscribed
/// under a prefix that starts the signal's name, byte by byte.
pub proof fn lemma_fan_out(v: TableView, name: Seq<char>, id: u32)
    ensures
        receivers(v, name).contains(id) <==> exists|i: int, k: int|
            0 <= i < v.len() && 0 <= k < v[i].1.len() && v[i].1[k] == id && matches(v[i].0, name),
    decreases v.len(),
{
    if v.len() > 0 {
        let u = v.drop_last();
        let last = v.last();
        lemma_fan_out(u, name, id);
        let rest = receivers(u, name);
        if receivers(v, name).contains(id) {
            let j = choose|j: int| 0 <= j < receivers(v, name).len() && receivers(v, name)[j] == id;
            if j < rest.len() {
                assert(rest[j] == id);
                let (i, k) = choose|i: int, k: int|
                    0 <= i < u.len() && 0 <= k < u[i].1.len() && u[i].1[k] == id && matches(
                        u[i].0,
                        name,
                    );
                assert(v[i] == u[i]);
            } else {
                assert(matches(last.0, name));
                assert(v[v.len() - 1].1[j - rest.len()] == id);
            }
        }
        if exists|i: int, k: int|
            0 <= i < v.len() && 0 <= k < v[i].1.len() && v[i].1[k] == id && matches(v[i].0, name) {
            let (i, k) = choose|i: int, k: int|
                0 <= i < v.len() && 0 <= k < v[i].1.len() && v[i].1[k] == id && matches(
                    v[i].0,
                    name,
                );
            if i < u.len() {
                assert(u[i] == v[i]);
                assert(rest.contains(id));
                let j = choose|j: int| 0 <= j < rest.len() && rest[j] == id;
                assert(receivers(v, name)[j] == id);
            } else {
                assert(receivers(v, name)[rest.len() + k] == id);
            }
        }
    }
}

/// An unsubscribed id is gone from the table and receives no signal,
/// whatever its name; the table stays well formed.
pub proof fn lemma_unsubscribed_receives_nothing(
    v: TableView,
    next: nat,
    id: u32,
    w: TableView,
    name: Seq<char>,
)
    requires
        table_wf(v, next),
        without_subscription(v, id, w),
    ensures
        table_wf(w, next),
        !holds_id(w, id),
        !receivers(w, name).contains(id),
{
    if holds_id(v, id) {
        let (i, k) = choose|i: int, k: int|
            0 <= i < v.len() && 0 <= k < v[i].1.len() && v[i].1[k] == id && w == v.update(
                i,
                (v[i].0, v[i].1.remove(k)),
            );
        lemma_remove_sub_wf(v, i, k, next);
    }
    lemma_fan_out(w, name, id);
}

/// Ids are never reused: a new subscription takes the next id, so an id
/// that the table no longer holds stays out of it.
pub proof fn lemma_fresh_id_keeps_others_out(
    w: TableView,
    next: nat,
    id: u32,
    p: Seq<char>,
    name: Seq<char>,
)
    requires
        table_wf(w, next),
        !holds_id(w, id),
        id < next,
        next < u32::MAX,
    ensures
        !holds_id(with_subscription(w, p, next as u32), id),
        !receivers(with_subscription(w, p, next as u32), name).contains(id),
{
    let x = with_subscription(w, p, next as u32);
    if holds_id(x, id) {
        let (a, b) = choose|a: int, b: int|
            0 <= a < x.len() && 0 <= b < x[a].1.len() && x[a].1[b] == id;
        if exists|i: int| 0 <= i < w.len() && w[i].0 == p {
            let i = choose|i: int| 0 <= i < w.len() && w[i].0 == p;
            if a == i && b < w[i].1.len() {
                assert(x[a].1[b] == w[a].1[b]);
            } else if a != i {
                assert(x[a] == w[a]);
            }
        } else {
            if a < w.len() {
                assert(x[a] == w[a]);
            }
        }
    }
    lemma_fan_out(x, name, id);
}

/// After a stopped bus has torn its table down, no signal reaches anyone.
pub proof fn lemma_cleared_receives_nothing(v: TableView, name: Seq<char>)
    ensures
        receivers(cleared(v), name) == Seq::<u32>::empty(),
{
    let c = cleared(v);
    if receivers(c, name).len() > 0 {
        let id = receivers(c, name)[0];
        assert(receivers(c, name).contains(id));
        lemma_fan_out(c, name, id);
    }
}

spec fn ids_of<F>(s: Seq<CallBack<F>>) -> Seq<u32> {
    Seq::new(s.len(), |i: int| s[i].id)
}

spec fn topic_view<F>(t: Topic<F>) -> (Seq<char>, Seq<u32>) {
    (t.prefix@, ids_of(t.subs@))
}

spec fn topics_view<F>(t: Seq<Topic<F>>) -> TableView {
    t.map_values(|x: Topic<F>| topic_view(x))
}

/// Every stored callback accepts every signal.
spec fn callbacks_total<F: Fn(Signal)>(t: Seq<Topic<F>>) -> bool {
    forall|i: int, k: int, s: Signal|
        0 <= i < t.len() && 0 <= k < t[i].subs@.len() ==> #[trigger] t[i].subs@[k].callback.requires(
            (s,),
        )
}

/// Byte-wise prefix test.
pub fn starts_with(name: &[u8], prefix: &[u8]) -> (r: bool)
    ensures
        r == is_prefix(prefix@, name@),
{
    if prefix.len() > name.len() {
        return false;
    }
    let mut i: usize = 0;
    while i < prefix.len()
        invariant
            i <= prefix@.len() <= name@.len(),
            forall|j: int| 0 <= j < i ==> name@[j] == prefix@[j],
        decreases prefix.len() - i,
    {
        if name[i] != prefix[i] {
            assert(name@.subrange(0, prefix@.len() as int)[i as int] != prefix@[i as int]);
            return false;
        }
        i += 1;
    }
    assert(name@.subrange(0, prefix@.len() as int) =~= prefix@);
    true
}

fn name_matches(prefix: &String, name: &String) -> (r: bool)
    ensures
        r == matches(prefix@, name@),
{
    starts_with(name.as_str().as_bytes(), prefix.as_str().as_bytes())
}


/// Registers `c` under the exact prefix `signal`.
fn subscribe_in<F: Fn(Signal)>(topics: &mut Vec<Topic<F>>, signal: &str, c: CallBack<F>)
    requires
        table_wf(topics_view(old(topics)@), c.id as nat),
        c.id >= 1,
        callbacks_total(old(topics)@),
        forall|s: Signal| c.callback.requires((s,)),
    ensures
        topics_view(final(topics)@) == with_subscription(
            topics_view(old(topics)@),
            signal@,
            c.id,
        ),
        table_wf(topics_view(final(topics)@), (c.id + 1) as nat),
        callbacks_total(final(topics)@),
{
    let ghost v = topics_view(topics@);
    let ghost id = c.id;
    let key = signal.to_owned();
    let mut i: usize = 0;
    while i < topics.len()
        invariant
            i <= topics@.len(),
            *topics == *old(topics),
            v == topics_view(topics@),
            id == c.id,
            id >= 1,
            table_wf(v, id as nat),
            callbacks_total(topics@),
            forall|s: Signal| c.callback.requires((s,)),
            key@ == signal@,
            forall|j: int| 0 <= j < i ==> topics@[j].prefix@ != key@,
        decreases topics.len() - i,
    {
        if topics[i].prefix == key {
            let mut t = topics.remove(i);
            let ghost old_subs = t.subs@;
            t.subs.push(c);
            let ghost new_subs = t.subs@;
            topics.insert(i, t);
            proof {
                let ii = i as int;
                assert(new_subs == old_subs.push(c));
                assert forall|k: int| 0 <= k < new_subs.len() implies ids_of(new_subs)[k] == ids_of(
                    old_subs,
                ).push(id)[k] by {
                    if k < old_subs.len() {
                        assert(new_subs[k] == old_subs[k]);
                    }
                }
                assert(ids_of(new_subs) =~= ids_of(old_subs).push(id));
                assert(topics_view(topics@) =~= v.update(ii, (signal@, v[ii].1.push(id))));
                assert(v[ii].0 == signal@);
                assert(exists|j: int| 0 <= j < v.len() && v[j].0 == signal@);
                let j = choose|j: int| 0 <= j < v.len() && v[j].0 == signal@;
                if j < ii {
                    assert(v[j].0 != v[ii].0);
                } else if j > ii {
                    assert(v[ii].0 != v[j].0);
                }
                assert forall|a: int, b: int, s: Signal|
                    0 <= a < topics@.len() && 0 <= b < topics@[a].subs@.len() implies #[trigger] topics@[a].subs@[b].callback.requires((s,)) by {
                    if a == ii && b == old_subs.len() {
                    } else if a == ii {
                        assert(topics@[a].subs@[b] == old(topics)@[a].subs@[b]);
                    } else {
                        assert(topics@[a] == old(topics)@[a]);
                    }
                }
                let w = topics_view(topics@);
                assert forall|a: int, b: int|
                    0 <= a < w.len() && 0 <= b < w[a].1.len() implies 1 <= #[trigger] w[a].1[b] < id + 1 by {
                    if a == ii && b < v[ii].1.len() {
                        assert(w[a].1[b] == v[a].1[b]);
                    }
                }
                assert forall|i1: int, k1: int, i2: int, k2: int|
                    0 <= i1 < w.len() && 0 <= k1 < w[i1].1.len() && 0 <= i2 < w.len() && 0 <= k2
                        < w[i2].1.len() && #[trigger] w[i1].1[k1] == #[trigger] w[i2].1[k2] implies i1 == i2 && k1 == k2 by {
                    if i1 == ii && k1 < v[ii].1.len() {
                        assert(w[i1].1[k1] == v[i1].1[k1]);
                    }
                    if i2 == ii && k2 < v[ii].1.len() {
                        assert(w[i2].1[k2] == v[i2].1[k2]);
                    }
                }
            }
            return ;
        }
        i += 1;
    }
    let ghost old_topics = topics@;
    topics.push(Topic { prefix: key, subs: vec![c] });
    proof {
        assert(ids_of(topics@[topics@.len() - 1].subs@) =~= seq![id]);
        assert(topics_view(topics@) =~= v.push((signal@, seq![id])));
        assert(!(exists|j: int| 0 <= j < v.len() && v[j].0 == signal@));
        assert forall|a: int, b: int, s: Signal|
            0 <= a < topics@.len() && 0 <= b < topics@[a].subs@.len() implies #[trigger] topics@[a].subs@[b].callback.requires((s,)) by {
            if a < old_topics.len() {
                assert(topics@[a] == old_topics[a]);
            }
        }
    }
}


/// Removing one subscription keeps the table well formed and leaves its id
/// nowhere in the table.
proof fn lemma_remove_sub_wf(v: TableView, i: int, k: int, next: nat)
    requires
        table_wf(v, next),
        0 <= i < v.len(),
        0 <= k < v[i].1.len(),
    ensures
        table_wf(v.update(i, (v[i].0, v[i].1.remove(k))), next),
        !holds_id(v.update(i, (v[i].0, v[i].1.remove(k))), v[i].1[k]),
{
    let w = v.update(i, (v[i].0, v[i].1.remove(k)));
    let id = v[i].1[k];
    assert forall|a: int, b: int| 0 <= a < w.len() && 0 <= b < w[a].1.len() implies w[a].1[b]
        == v[a].1[if a == i && b >= k {
        b + 1
    } else {
        b
    }] by {}
    assert forall|a: int, b: int|
        0 <= a < w.len() && 0 <= b < w[a].1.len() implies 1 <= #[trigger] w[a].1[b] < next by {
        let bb = if a == i && b >= k {
            b + 1
        } else {
            b
        };
        assert(w[a].1[b] == v[a].1[bb]);
    }
    assert forall|i1: int, k1: int, i2: int, k2: int|
        0 <= i1 < w.len() && 0 <= k1 < w[i1].1.len() && 0 <= i2 < w.len() && 0 <= k2
            < w[i2].1.len() && #[trigger] w[i1].1[k1] == #[trigger] w[i2].1[k2] implies i1 == i2
        && k1 == k2 by {
        let b1 = if i1 == i && k1 >= k {
            k1 + 1
        } else {
            k1
        };
        let b2 = if i2 == i && k2 >= k {
            k2 + 1
        } else {
            k2
        };
        assert(w[i1].1[k1] == v[i1].1[b1]);
        assert(w[i2].1[k2] == v[i2].1[b2]);
    }
    assert forall|i1: int, j1: int| 0 <= i1 < j1 < w.len() implies #[trigger] w[i1].0
        != #[trigger] w[j1].0 by {
        assert(v[i1].0 != v[j1].0);
    }
    if holds_id(w, id) {
        let (a, b) = choose|a: int, b: int|
            0 <= a < w.len() && 0 <= b < w[a].1.len() && w[a].1[b] == id;
        let bb = if a == i && b >= k {
            b + 1
        } else {
            b
        };
        assert(w[a].1[b] == v[a].1[bb]);
    }
}

/// Removing the list of one prefix keeps the table well formed.
proof fn lemma_remove_topic_wf(v: TableView, i: int, next: nat)
    requires
        table_wf(v, next),
        0 <= i < v.len(),
    ensures
        table_wf(v.remove(i), next),
{
    let w = v.remove(i);
    assert forall|a: int| 0 <= a < w.len() implies w[a] == v[if a < i {
        a
    } else {
        a + 1
    }] by {}
    assert forall|i1: int, k1: int, i2: int, k2: int|
        0 <= i1 < w.len() && 0 <= k1 < w[i1].1.len() && 0 <= i2 < w.len() && 0 <= k2
            < w[i2].1.len() && #[trigger] w[i1].1[k1] == #[trigger] w[i2].1[k2] implies i1 == i2
        && k1 == k2 by {
        let a1 = if i1 < i {
            i1
        } else {
            i1 + 1
        };
        let a2 = if i2 < i {
            i2
        } else {
            i2 + 1
        };
        assert(w[i1] == v[a1]);
        assert(w[i2] == v[a2]);
    }
    assert forall|a: int, b: int|
        0 <= a < w.len() && 0 <= b < w[a].1.len() implies 1 <= #[trigger] w[a].1[b] < next by {
        let aa = if a < i {
            a
        } else {
            a + 1
        };
        assert(w[a] == v[aa]);
    }
    assert forall|i1: int, j1: int| 0 <= i1 < j1 < w.len() implies #[trigger] w[i1].0
        != #[trigger] w[j1].0 by {
        let a1 = if i1 < i {
            i1
        } else {
            i1 + 1
        };
        let a2 = if j1 < i {
            j1
        } else {
            j1 + 1
        };
        assert(w[i1] == v[a1]);
        assert(w[j1] == v[a2]);
    }
}

/// Removes the subscription `id`, wherever it stands.
fn unsubscribe_in<F: Fn(Signal)>(topics: &mut Vec<Topic<F>>, id: u32, Ghost(next): Ghost<nat>)
    requires
        table_wf(topics_view(old(topics)@), next),
        callbacks_total(old(topics)@),
    ensures
        without_subscription(topics_view(old(topics)@), id, topics_view(final(topics)@)),
        table_wf(topics_view(final(topics)@), next),
        callbacks_total(final(topics)@),
{
    let ghost v = topics_view(topics@);
    let mut i: usize = 0;
    while i < topics.len()
        invariant
            i <= topics@.len(),
            *topics == *old(topics),
            v == topics_view(topics@),
            table_wf(v, next),
            callbacks_total(topics@),
            forall|a: int, b: int| 0 <= a < i && 0 <= b < v[a].1.len() ==> v[a].1[b] != id,
        decreases topics.len() - i,
    {
        let n = topics[i].subs.len();
        let mut k: usize = 0;
        while k < n
            invariant
                i < topics@.len(),
                n == topics@[i as int].subs@.len(),
                k <= n,
                *topics == *old(topics),
                v == topics_view(topics@),
                table_wf(v, next),
                callbacks_total(topics@),
                forall|a: int, b: int| 0 <= a < i && 0 <= b < v[a].1.len() ==> v[a].1[b] != id,
                forall|b: int| 0 <= b < k ==> v[i as int].1[b] != id,
            decreases n - k,
        {
            if topics[i].subs[k].id == id {
                let mut t = topics.remove(i);
                let ghost old_subs = t.subs@;
                let _ = t.subs.remove(k);
                let ghost new_subs = t.subs@;
                topics.insert(i, t);
                proof {
                    let ii = i as int;
                    let kk = k as int;
                    assert(v[ii].1[kk] == id);
                    assert(new_subs =~= old_subs.remove(kk));
                    assert(ids_of(new_subs) =~= ids_of(old_subs).remove(kk));
                    assert(topics_view(topics@) =~= v.update(ii, (v[ii].0, v[ii].1.remove(kk))));
                    lemma_remove_sub_wf(v, ii, kk, next);
                    assert forall|a: int, b: int, s: Signal|
                        0 <= a < topics@.len() && 0 <= b < topics@[a].subs@.len() implies #[trigger] topics@[a].subs@[b].callback.requires((s,)) by {
                        if a == ii {
                            let bb = if b >= kk {
                                b + 1
                            } else {
                                b
                            };
                            assert(topics@[a].subs@[b] == old(topics)@[a].subs@[bb]);
                        } else {
                            assert(topics@[a] == old(topics)@[a]);
                        }
                    }
                }
                return ;
            }
            k += 1;
        }
        i += 1;
    }
    assert(!holds_id(v, id));
}

/// Drops the whole list of the exact prefix `signal`.
fn clear_signal_in<F: Fn(Signal)>(topics: &mut Vec<Topic<F>>, signal: &str, Ghost(next): Ghost<nat>)
    requires
        table_wf(topics_view(old(topics)@), next),
        callbacks_total(old(topics)@),
    ensures
        without_prefix(topics_view(old(topics)@), signal@, topics_view(final(topics)@)),
        table_wf(topics_view(final(topics)@), next),
        callbacks_total(final(topics)@),
{
    let ghost v = topics_view(topics@);
    let key = signal.to_owned();
    let mut i: usize = 0;
    while i < topics.len()
        invariant
            i <= topics@.len(),
            *topics == *old(topics),
            v == topics_view(topics@),
            table_wf(v, next),
            callbacks_total(topics@),
            key@ == signal@,
            forall|a: int| 0 <= a < i ==> v[a].0 != signal@,
        decreases topics.len() - i,
    {
        if topics[i].prefix == key {
            let _ = topics.remove(i);
            proof {
                let ii = i as int;
                assert(v[ii].0 == signal@);
                assert(topics_view(topics@) =~= v.remove(ii));
                lemma_remove_topic_wf(v, ii, next);
                assert forall|a: int, b: int, s: Signal|
                    0 <= a < topics@.len() && 0 <= b < topics@[a].subs@.len() implies #[trigger] topics@[a].subs@[b].callback.requires((s,)) by {
                    let aa = if a < ii {
                        a
                    } else {
                        a + 1
                    };
                    assert(topics@[a] == old(topics)@[aa]);
                }
            }
            return ;
        }
        i += 1;
    }
}

/// Empties every list, keeping the prefixes.
fn clear<F: Fn(Signal)>(topics: &mut Vec<Topic<F>>)
    requires
        callbacks_total(old(topics)@),
    ensures
        topics_view(final(topics)@) == cleared(topics_view(old(topics)@)),
        callbacks_total(final(topics)@),
{
    let ghost v = topics_view(topics@);
    let mut i: usize = 0;
    while i < topics.len()
        invariant
            i <= topics@.len(),
            topics@.len() == v.len(),
            v == topics_view(old(topics)@),
            forall|a: int|
                0 <= a < i ==> (#[trigger] topics@[a]).prefix@ == v[a].0 && topics@[a].subs@.len()
                    == 0,
            forall|a: int| i <= a < v.len() ==> #[trigger] topics@[a] == old(topics)@[a],
            callbacks_total(topics@),
        decreases topics.len() - i,
    {
        let mut t = topics.remove(i);
        t.subs = Vec::new();
        topics.insert(i, t);
        i += 1;
    }
    assert forall|a: int| 0 <= a < v.len() implies topics_view(topics@)[a] == cleared(v)[a] by {
        assert(ids_of(topics@[a].subs@) =~= Seq::<u32>::empty());
    }
    assert(topics_view(topics@) =~= cleared(v));
}

/// Every callback stored under a prefix that starts `s`'s name has run on `s`.
spec fn delivered_in<F: Fn(Signal)>(t: Seq<Topic<F>>, s: Signal) -> bool {
    forall|i: int, k: int|
        0 <= i < t.len() && 0 <= k < t[i].subs@.len() && matches(t[i].prefix@, s.name@)
            ==> #[trigger] t[i].subs@[k].callback.ensures((s,), ())
}

/// A copy of `s`.
fn copy_signal(s: &Signal) -> (r: Signal)
    ensures
        r == *s,
{
    Signal { type_: s.type_, name: s.name.clone() }
}

/// Calls, in table order, every callback whose prefix starts the signal's name.
fn signal_recv<F: Fn(Signal)>(signal: &Signal, topics: &Vec<Topic<F>>)
    requires
        callbacks_total(topics@),
    ensures
        delivered_in(topics@, *signal),
{
    let mut i: usize = 0;
    while i < topics.len()
        invariant
            i <= topics@.len(),
            callbacks_total(topics@),
            forall|a: int, k: int|
                0 <= a < i && 0 <= k < topics@[a].subs@.len() && matches(
                    topics@[a].prefix@,
                    signal.name@,
                ) ==> #[trigger] topics@[a].subs@[k].callback.ensures((*signal,), ()),
        decreases topics.len() - i,
    {
        let t = &topics[i];
        if name_matches(&t.prefix, &signal.name) {
            let mut k: usize = 0;
            while k < t.subs.len()
                invariant
                    i < topics@.len(),
                    *t == topics@[i as int],
                    k <= t.subs@.len(),
                    callbacks_total(topics@),
                    forall|a: int, b: int|
                        0 <= a < i && 0 <= b < topics@[a].subs@.len() && matches(
                            topics@[a].prefix@,
                            signal.name@,
                        ) ==> #[trigger] topics@[a].subs@[b].callback.ensures((*signal,), ()),
                    forall|b: int| 0 <= b < k ==> #[trigger] t.subs@[b].callback.ensures((*signal,), ()),
                decreases t.subs.len() - k,
            {
                let s = copy_signal(signal);
                (t.subs[k].callback)(s);
                k += 1;
            }
        }
        i += 1;
    }
}

/// The ids that `signal_recv` would call for a signal called `name`, in order.
fn receivers_in<F>(topics: &Vec<Topic<F>>, name: &String) -> (r: Vec<u32>)
    ensures
        r@ == receivers(topics_view(topics@), name@),
{
    let ghost v = topics_view(topics@);
    let mut out: Vec<u32> = Vec::new();
    let mut i: usize = 0;
    while i < topics.len()
        invariant
            i <= topics@.len(),
            v == topics_view(topics@),
            out@ == receivers(v.subrange(0, i as int), name@),
        decreases topics.len() - i,
    {
        let t = &topics[i];
        let ghost before = out@;
        if name_matches(&t.prefix, name) {
            let mut k: usize = 0;
            while k < t.subs.len()
                invariant
                    i < topics@.len(),
                    *t == topics@[i as int],
                    k <= t.subs@.len(),
                    out@ == before + ids_of(t.subs@).subrange(0, k as int),
                decreases t.subs.len() - k,
            {
                out.push(t.subs[k].id);
                proof {
                    assert(ids_of(t.subs@).subrange(0, k + 1) =~= ids_of(t.subs@).subrange(
                        0,
                        k as int,
                    ).push(t.subs@[k as int].id));
                }
                k += 1;
            }
            proof {
                assert(ids_of(t.subs@).subrange(0, t.subs@.len() as int) =~= ids_of(t.subs@));
            }
        }
        proof {
            assert(v.subrange(0, i + 1).drop_last() =~= v.subrange(0, i as int));
        }
        i += 1;
    }
    assert(v.subrange(0, v.len() as int) =~= v);
    out
}


/// Clearing keeps the table well formed.
proof fn lemma_cleared_wf(v: TableView, next: nat)
    requires
        table_wf(v, next),
    ensures
        table_wf(cleared(v), next),
{
    let w = cleared(v);
    assert forall|i1: int, j1: int| 0 <= i1 < j1 < w.len() implies #[trigger] w[i1].0
        != #[trigger] w[j1].0 by {
        assert(v[i1].0 != v[j1].0);
    }
}

/// The counter, the queue and the open flag shared by both delivery modes.
pub struct SigBase {
    id: u32,
    pending: Vec<Signal>,
    main: bool,
}

/// What one non-blocking receive found.
enum Recv {
    Got(Signal),
    Empty,
    Closed,
}

impl SigBase {
    /// The id that the next subscription gets.
    pub closed spec fn next_id(&self) -> nat {
        self.id as nat
    }

    /// Signals handed off and not yet picked up, oldest first.
    pub closed spec fn queued(&self) -> Seq<(SigType, Seq<char>)> {
        Seq::new(self.pending@.len(), |i: int| self.pending@[i]@)
    }

    /// Whether `emit` can still hand signals off.
    pub closed spec fn is_open(&self) -> bool {
        self.main
    }

    pub fn new() -> (r: SigBase)
        ensures
            r.next_id() == 1,
            r.queued() == Seq::<(SigType, Seq<char>)>::empty(),
            r.is_open(),
    {
        let r = SigBase { id: 1, pending: Vec::new(), main: true };
        assert(r.queued() =~= Seq::<(SigType, Seq<char>)>::empty());
        r
    }

    /// Queues a signal while the bus is open; drops it once stopped.
    pub fn emit(&mut self, t: SigType, signal: &str) -> (r: Result<(), Error>)
        ensures
            r is Ok,
            final(self).next_id() == old(self).next_id(),
            final(self).is_open() == old(self).is_open(),
            final(self).queued() == (if old(self).is_open() {
                old(self).queued().push((t, signal@))
            } else {
                old(self).queued()
            }),
    {
        if self.main {
            let name = signal.to_owned();
            self.pending.push(Signal { type_: t, name });
            assert(self.queued() =~= old(self).queued().push((t, signal@)));
        }
        Ok(())
    }

    /// Closes the bus for good: queued signals are dropped, later ones too.
    pub fn stop(&mut self)
        ensures
            final(self).next_id() == old(self).next_id(),
            !final(self).is_open(),
            final(self).queued() == Seq::<(SigType, Seq<char>)>::empty(),
    {
        self.main = false;
        self.pending = Vec::new();
        assert(self.queued() =~= Seq::<(SigType, Seq<char>)>::empty());
    }

    /// One non-blocking receive.
    fn try_recv(&mut self) -> (r: Recv)
        ensures
            final(self).next_id() == old(self).next_id(),
            final(self).is_open() == old(self).is_open(),
            !old(self).is_open() ==> r is Closed && final(self).queued() == old(self).queued(),
            old(self).is_open() && old(self).queued().len() == 0 ==> r is Empty
                && final(self).queued() == old(self).queued(),
            old(self).is_open() && old(self).queued().len() > 0 ==> r is Got && r->Got_0@
                == old(self).queued()[0] && final(self).queued() == old(self).queued().drop_first(),
    {
        if !self.main {
            Recv::Closed
        } else if self.pending.len() == 0 {
            Recv::Empty
        } else {
            let s = self.pending.remove(0);
            assert(self.queued() =~= old(self).queued().drop_first());
            Recv::Got(s)
        }
    }
}


/// A publish/subscribe bus: `emit` queues a change event, and delivery hands
/// it to every subscription whose prefix starts the event's name.
pub trait Signaler {
    /// The subscription table.
    spec fn table(&self) -> TableView;

    /// Signals emitted and not yet delivered, oldest first.
    spec fn queued(&self) -> Seq<(SigType, Seq<char>)>;

    /// Whether the bus still takes signals.
    spec fn is_open(&self) -> bool;

    /// Hands a signal off for delivery; once the bus is stopped the signal
    /// is dropped. Never fails.
    fn emit(&mut self, t: SigType, signal: &str) -> (r: Result<(), Error>)
        ensures
            r is Ok,
            final(self).table() == old(self).table(),
            final(self).is_open() == old(self).is_open(),
            final(self).queued() == (if old(self).is_open() {
                old(self).queued().push((t, signal@))
            } else {
                old(self).queued()
            }),
    ;
}

/// Bus whose callbacks run on a worker thread that drains the queue
/// (`signal_loop`), so they must be `Send`.
pub struct SignalerAsync<F: Fn(Signal) + Send> {
    base: SigBase,
    callbacks: Vec<Topic<F>>,
}

/// Bus whose callbacks run inside the caller's polling step
/// (`signal_loop_sync`).
pub struct SignalerSync<F: Fn(Signal)> {
    base: SigBase,
    callbacks: Vec<Topic<F>>,
}

impl<F: Fn(Signal) + Send> SignalerAsync<F> {
    #[verifier::type_invariant]
    spec fn inv(self) -> bool {
        &&& table_wf(topics_view(self.callbacks@), self.base.next_id())
        &&& callbacks_total(self.callbacks@)
        &&& self.base.next_id() >= 1
    }

    /// The id that the next subscription gets.
    pub closed spec fn next_id(&self) -> nat {
        self.base.next_id()
    }

    pub fn new() -> (r: Self)
        ensures
            r.table() == Seq::<(Seq<char>, Seq<u32>)>::empty(),
            r.next_id() == 1,
            r.queued() == Seq::<(SigType, Seq<char>)>::empty(),
            r.is_open(),
    {
        let callbacks: Vec<Topic<F>> = Vec::new();
        let base = SigBase::new();
        assert(topics_view(callbacks@) =~= Seq::<(Seq<char>, Seq<u32>)>::empty());
        SignalerAsync { base, callbacks }
    }

    /// Closes the bus: queued and later signals are never delivered.
    pub fn stop(&mut self)
        ensures
            !final(self).is_open(),
            final(self).queued() == Seq::<(SigType, Seq<char>)>::empty(),
            final(self).table() == old(self).table(),
            final(self).next_id() == old(self).next_id(),
    {
        proof {
            use_type_invariant(&*self);
        }
        let mut base = SigBase { id: self.base.id, pending: Vec::new(), main: false };
        std::mem::swap(&mut base, &mut self.base);
        base.stop();
        self.base = base;
    }

    /// Subscribes `f` to every signal whose name starts with `signal`, and
    /// returns the subscription's id: the next id, never handed out before.
    pub fn subscribe(&mut self, signal: &str, f: F) -> (r: Result<u32, Error>)
        requires
            forall|s: Signal| f.requires((s,)),
        ensures
            old(self).next_id() < u32::MAX ==> r == Ok::<u32, Error>(old(self).next_id() as u32)
                && final(self).next_id() == old(self).next_id() + 1 && final(self).table()
                == with_subscription(old(self).table(), signal@, old(self).next_id() as u32),
            old(self).next_id() >= u32::MAX ==> r == Err::<u32, Error>(Error::IdsExhausted)
                && final(self).next_id() == old(self).next_id() && final(self).table() == old(
                self,
            ).table(),
            final(self).queued() == old(self).queued(),
            final(self).is_open() == old(self).is_open(),
    {
        proof {
            use_type_invariant(&*self);
        }
        let id = self.base.id;
        if id == u32::MAX {
            return Err(Error::IdsExhausted);
        }
        let mut cbs: Vec<Topic<F>> = Vec::new();
        std::mem::swap(&mut cbs, &mut self.callbacks);
        subscribe_in(&mut cbs, signal, CallBack { id, callback: f });
        proof {
            assert(topics_view(Seq::<Topic<F>>::empty()) =~= Seq::<(Seq<char>, Seq<u32>)>::empty());
        }
        self.base.id = id + 1;
        self.callbacks = cbs;
        Ok(id)
    }

    /// Removes the subscription `id`; nothing happens when there is none.
    pub fn unsubscribe(&mut self, id: u32)
        ensures
            without_subscription(old(self).table(), id, final(self).table()),
            final(self).next_id() == old(self).next_id(),
            final(self).queued() == old(self).queued(),
            final(self).is_open() == old(self).is_open(),
    {
        proof {
            use_type_invariant(&*self);
        }
        let mut cbs: Vec<Topic<F>> = Vec::new();
        std::mem::swap(&mut cbs, &mut self.callbacks);
        unsubscribe_in(&mut cbs, id, Ghost(self.base.next_id()));
        self.callbacks = cbs;
    }

    /// Drops every subscription registered under exactly `signal`.
    pub fn clear_signal(&mut self, signal: &str)
        ensures
            without_prefix(old(self).table(), signal@, final(self).table()),
            final(self).next_id() == old(self).next_id(),
            final(self).queued() == old(self).queued(),
            final(self).is_open() == old(self).is_open(),
    {
        proof {
            use_type_invariant(&*self);
        }
        let mut cbs: Vec<Topic<F>> = Vec::new();
        std::mem::swap(&mut cbs, &mut self.callbacks);
        clear_signal_in(&mut cbs, signal, Ghost(self.base.next_id()));
        self.callbacks = cbs;
    }

    /// The ids that a signal called `name` reaches, in delivery order.
    pub fn receivers(&self, name: &str) -> (r: Vec<u32>)
        ensures
            r@ == receivers(self.table(), name@),
    {
        let n = name.to_owned();
        receivers_in(&self.callbacks, &n)
    }

    /// Delivers `signal` to every matching callback, in table order.
    fn dispatch(&self, signal: &Signal)
        ensures
            self.delivered(*signal),
    {
        proof {
            use_type_invariant(self);
        }
        signal_recv(signal, &self.callbacks);
    }

    /// The callback of the `k`-th subscription under the `i`-th prefix.
    pub closed spec fn callback_at(&self, i: int, k: int) -> F {
        self.callbacks@[i].subs@[k].callback
    }

    /// Every subscription whose prefix starts `s`'s name has had its
    /// callback run on `s`.
    pub open spec fn delivered(&self, s: Signal) -> bool {
        forall|i: int, k: int|
            0 <= i < self.table().len() && 0 <= k < self.table()[i].1.len() && matches(
                self.table()[i].0,
                s.name@,
            ) ==> #[trigger] self.callback_at(i, k).ensures((s,), ())
    }

    /// Some signal that views as `v` has been delivered.
    pub open spec fn has_delivered(&self, v: (SigType, Seq<char>)) -> bool {
        exists|s: Signal| s@ == v && #[trigger] self.delivered(s)
    }

    /// Empties every subscription list: the bus was stopped.
    fn teardown(&mut self)
        ensures
            final(self).table() == cleared(old(self).table()),
            final(self).next_id() == old(self).next_id(),
            final(self).queued() == old(self).queued(),
            final(self).is_open() == old(self).is_open(),
    {
        proof {
            use_type_invariant(&*self);
            lemma_cleared_wf(self.table(), self.base.next_id());
        }
        let mut cbs: Vec<Topic<F>> = Vec::new();
        std::mem::swap(&mut cbs, &mut self.callbacks);
        clear(&mut cbs);
        self.callbacks = cbs;
    }
}

impl<F: Fn(Signal) + Send> Signaler for SignalerAsync<F> {
    closed spec fn table(&self) -> TableView {
        topics_view(self.callbacks@)
    }

    closed spec fn queued(&self) -> Seq<(SigType, Seq<char>)> {
        self.base.queued()
    }

    closed spec fn is_open(&self) -> bool {
        self.base.is_open()
    }

    fn emit(&mut self, t: SigType, signal: &str) -> (r: Result<(), Error>) {
        proof {
            use_type_invariant(&*self);
        }
        let mut base = SigBase { id: self.base.id, pending: Vec::new(), main: false };
        std::mem::swap(&mut base, &mut self.base);
        let r = base.emit(t, signal);
        self.base = base;
        r
    }
}

impl<F: Fn(Signal)> SignalerSync<F> {
    #[verifier::type_invariant]
    spec fn inv(self) -> bool {
        &&& table_wf(topics_view(self.callbacks@), self.base.next_id())
        &&& callbacks_total(self.callbacks@)
        &&& self.base.next_id() >= 1
    }

    /// The id that the next subscription gets.
    pub closed spec fn next_id(&self) -> nat {
        self.base.next_id()
    }

    pub fn new() -> (r: Self)
        ensures
            r.table() == Seq::<(Seq<char>, Seq<u32>)>::empty(),
            r.next_id() == 1,
            r.queued() == Seq::<(SigType, Seq<char>)>::empty(),
            r.is_open(),
    {
        let callbacks: Vec<Topic<F>> = Vec::new();
        let base = SigBase::new();
        assert(topics_view(callbacks@) =~= Seq::<(Seq<char>, Seq<u32>)>::empty());
        SignalerSync { base, callbacks }
    }

    /// Closes the bus: queued and later signals are never delivered.
    pub fn stop(&mut self)
        ensures
            !final(self).is_open(),
            final(self).queued() == Seq::<(SigType, Seq<char>)>::empty(),
            final(self).table() == old(self).table(),
            final(self).next_id() == old(self).next_id(),
    {
        proof {
            use_type_invariant(&*self);
        }
        let mut base = SigBase { id: self.base.id, pending: Vec::new(), main: false };
        std::mem::swap(&mut base, &mut self.base);
        base.stop();
        self.base = base;
    }

    /// Subscribes `f` to every signal whose name starts with `signal`, and
    /// returns the subscription's id: the next id, never handed out before.
    pub fn subscribe(&mut self, signal: &str, f: F) -> (r: Result<u32, Error>)
        requires
            forall|s: Signal| f.requires((s,)),
        ensures
            old(self).next_id() < u32::MAX ==> r == Ok::<u32, Error>(old(self).next_id() as u32)
                && final(self).next_id() == old(self).next_id() + 1 && final(self).table()
                == with_subscription(old(self).table(), signal@, old(self).next_id() as u32),
            old(self).next_id() >= u32::MAX ==> r == Err::<u32, Error>(Error::IdsExhausted)
                && final(self).next_id() == old(self).next_id() && final(self).table() == old(
                self,
            ).table(),
            final(self).queued() == old(self).queued(),
            final(self).is_open() == old(self).is_open(),
    {
        proof {
            use_type_invariant(&*self);
        }
        let id = self.base.id;
        if id == u32::MAX {
            return Err(Error::IdsExhausted);
        }
        let mut cbs: Vec<Topic<F>> = Vec::new();
        std::mem::swap(&mut cbs, &mut self.callbacks);
        subscribe_in(&mut cbs, signal, CallBack { id, callback: f });
        proof {
            assert(topics_view(Seq::<Topic<F>>::empty()) =~= Seq::<(Seq<char>, Seq<u32>)>::empty());
        }
        self.base.id = id + 1;
        self.callbacks = cbs;
        Ok(id)
    }

    /// Removes the subscription `id`; nothing happens when there is none.
    pub fn unsubscribe(&mut self, id: u32)
        ensures
            without_subscription(old(self).table(), id, final(self).table()),
            final(self).next_id() == old(self).next_id(),
            final(self).queued() == old(self).queued(),
            final(self).is_open() == old(self).is_open(),
    {
        proof {
            use_type_invariant(&*self);
        }
        let mut cbs: Vec<Topic<F>> = Vec::new();
        std::mem::swap(&mut cbs, &mut self.callbacks);
        unsubscribe_in(&mut cbs, id, Ghost(self.base.next_id()));
        self.callbacks = cbs;
    }

    /// Drops every subscription registered under exactly `signal`.
    pub fn clear_signal(&mut self, signal: &str)
        ensures
            without_prefix(old(self).table(), signal@, final(self).table()),
            final(self).next_id() == old(self).next_id(),
            final(self).queued() == old(self).queued(),
            final(self).is_open() == old(self).is_open(),
    {
        proof {
            use_type_invariant(&*self);
        }
        let mut cbs: Vec<Topic<F>> = Vec::new();
        std::mem::swap(&mut cbs, &mut self.callbacks);
        clear_signal_in(&mut cbs, signal, Ghost(self.base.next_id()));
        self.callbacks = cbs;
    }

    /// The ids that a signal called `name` reaches, in delivery order.
    pub fn receivers(&self, name: &str) -> (r: Vec<u32>)
        ensures
            r@ == receivers(self.table(), name@),
    {
        let n = name.to_owned();
        receivers_in(&self.callbacks, &n)
    }

    /// Delivers `signal` to every matching callback, in table order.
    fn dispatch(&self, signal: &Signal)
        ensures
            self.delivered(*signal),
    {
        proof {
            use_type_invariant(self);
        }
        signal_recv(signal, &self.callbacks);
    }

    /// The callback of the `k`-th subscription under the `i`-th prefix.
    pub closed spec fn callback_at(&self, i: int, k: int) -> F {
        self.callbacks@[i].subs@[k].callback
    }

    /// Every subscription whose prefix starts `s`'s name has had its
    /// callback run on `s`.
    pub open spec fn delivered(&self, s: Signal) -> bool {
        forall|i: int, k: int|
            0 <= i < self.table().len() && 0 <= k < self.table()[i].1.len() && matches(
                self.table()[i].0,
                s.name@,
            ) ==> #[trigger] self.callback_at(i, k).ensures((s,), ())
    }

    /// Some signal that views as `v` has been delivered.
    pub open spec fn has_delivered(&self, v: (SigType, Seq<char>)) -> bool {
        exists|s: Signal| s@ == v && #[trigger] self.delivered(s)
    }

    /// Empties every subscription list: the bus was stopped.
    fn teardown(&mut self)
        ensures
            final(self).table() == cleared(old(self).table()),
            final(self).next_id() == old(self).next_id(),
            final(self).queued() == old(self).queued(),
            final(self).is_open() == old(self).is_open(),
    {
        proof {
            use_type_invariant(&*self);
            lemma_cleared_wf(self.table(), self.base.next_id());
        }
        let mut cbs: Vec<Topic<F>> = Vec::new();
        std::mem::swap(&mut cbs, &mut self.callbacks);
        clear(&mut cbs);
        self.callbacks = cbs;
    }
}

impl<F: Fn(Signal)> Signaler for SignalerSync<F> {
    closed spec fn table(&self) -> TableView {
        topics_view(self.callbacks@)
    }

    closed spec fn queued(&self) -> Seq<(SigType, Seq<char>)> {
        self.base.queued()
    }

    closed spec fn is_open(&self) -> bool {
        self.base.is_open()
    }

    fn emit(&mut self, t: SigType, signal: &str) -> (r: Result<(), Error>) {
        proof {
            use_type_invariant(&*self);
        }
        let mut base = SigBase { id: self.base.id, pending: Vec::new(), main: false };
        std::mem::swap(&mut base, &mut self.base);
        let r = base.emit(t, signal);
        self.base = base;
        r
    }
}

impl<F: Fn(Signal)> SignalerSync<F> {
    /// One polling step. A queued signal is taken and delivered; with none
    /// queued nothing happens. Both answer `true`: keep polling. On a
    /// stopped bus every subscription list is emptied and the answer is
    /// `false`.
    pub fn signal_loop_sync(&mut self) -> (r: bool)
        ensures
            r == old(self).is_open(),
            final(self).next_id() == old(self).next_id(),
            final(self).is_open() == old(self).is_open(),
            !old(self).is_open() ==> final(self).table() == cleared(old(self).table())
                && final(self).queued() == old(self).queued(),
            old(self).is_open() ==> final(self).table() == old(self).table(),
            old(self).is_open() ==> final(self).queued() == (if old(self).queued().len() > 0 {
                old(self).queued().drop_first()
            } else {
                old(self).queued()
            }),
            old(self).is_open() && old(self).queued().len() > 0 ==> final(self).has_delivered(
                old(self).queued()[0],
            ),
    {
        proof {
            use_type_invariant(&*self);
        }
        let mut base = SigBase { id: self.base.id, pending: Vec::new(), main: false };
        std::mem::swap(&mut base, &mut self.base);
        let got = base.try_recv();
        self.base = base;
        match got {
            Recv::Got(signal) => {
                self.dispatch(&signal);
                true
            },
            Recv::Empty => true,
            Recv::Closed => {
                self.teardown();
                false
            },
        }
    }
}

impl<F: Fn(Signal) + Send> SignalerAsync<F> {
    /// Delivery depends on the subscriptions alone.
    proof fn lemma_delivered_frame(a: Self, b: Self, s: Signal)
        requires
            a.callbacks@ == b.callbacks@,
            a.delivered(s),
        ensures
            b.delivered(s),
    {
        assert(a.table() == b.table());
        assert forall|i: int, k: int|
            0 <= i < b.table().len() && 0 <= k < b.table()[i].1.len() && matches(
                b.table()[i].0,
                s.name@,
            ) implies #[trigger] b.callback_at(i, k).ensures((s,), ()) by {
            assert(a.callback_at(i, k) == b.callback_at(i, k));
        }
    }

    /// Worker step of the background mode: delivers every queued signal in
    /// order and answers `true`; on a stopped bus empties every subscription
    /// list and answers `false`, after which the worker ends.
    pub fn signal_loop(&mut self) -> (r: bool)
        ensures
            r == old(self).is_open(),
            final(self).next_id() == old(self).next_id(),
            final(self).is_open() == old(self).is_open(),
            !old(self).is_open() ==> final(self).table() == cleared(old(self).table())
                && final(self).queued() == old(self).queued(),
            old(self).is_open() ==> final(self).table() == old(self).table()
                && final(self).queued() == Seq::<(SigType, Seq<char>)>::empty(),
            old(self).is_open() ==> forall|j: int|
                0 <= j < old(self).queued().len() ==> final(self).has_delivered(
                    #[trigger] old(self).queued()[j],
                ),
    {
        loop
            invariant
                self.table() == old(self).table(),
                self.callbacks@ == old(self).callbacks@,
                self.next_id() == old(self).next_id(),
                self.is_open() == old(self).is_open(),
                !self.is_open() ==> self.queued() == old(self).queued(),
                self.queued().len() <= old(self).queued().len(),
                self.is_open() ==> self.queued() == old(self).queued().subrange(
                    old(self).queued().len() - self.queued().len(),
                    old(self).queued().len() as int,
                ),
                self.is_open() ==> forall|j: int|
                    0 <= j < old(self).queued().len() - self.queued().len() ==> self.has_delivered(
                        #[trigger] old(self).queued()[j],
                    ),
            decreases self.queued().len(),
        {
            proof {
                use_type_invariant(&*self);
            }
            let ghost before = *self;
            let mut base = SigBase { id: self.base.id, pending: Vec::new(), main: false };
            std::mem::swap(&mut base, &mut self.base);
            let got = base.try_recv();
            self.base = base;
            match got {
                Recv::Got(signal) => {
                    self.dispatch(&signal);
                    proof {
                        let n = old(self).queued().len();
                        let j0 = n - before.queued().len();
                        assert(old(self).queued()[j0] == before.queued()[0]);
                        assert forall|j: int| 0 <= j < n - self.queued().len() implies self.has_delivered(
                            #[trigger] old(self).queued()[j],
                        ) by {
                            if j < j0 {
                                assert(before.has_delivered(old(self).queued()[j]));
                                let s = choose|s: Signal|
                                    s@ == old(self).queued()[j] && before.delivered(s);
                                Self::lemma_delivered_frame(before, *self, s);
                            } else {
                                assert(signal@ == old(self).queued()[j]);
                                assert(self.delivered(signal));
                            }
                        }
                        assert(self.queued() =~= old(self).queued().subrange(
                            n - self.queued().len(),
                            n as int,
                        ));
                    }
                },
                Recv::Empty => {
                    proof {
                        let n = old(self).queued().len();
                        assert forall|j: int| 0 <= j < n implies self.has_delivered(
                            #[trigger] old(self).queued()[j],
                        ) by {
                            assert(before.has_delivered(old(self).queued()[j]));
                            let s = choose|s: Signal|
                                s@ == old(self).queued()[j] && before.delivered(s);
                            Self::lemma_delivered_frame(before, *self, s);
                        }
                    }
                    return true;
                },
                Recv::Closed => {
                    self.teardown();
                    return false;
                },
            }
        }
    }
}

} // verus!
