//! The key/value store with lazy expiry.
use crate::frame::{lemma_wire_valid, wire, Frame};
use crate::payload::Payload;
use crate::redis_type::{inner_text, type_reply, RedisType, ValueModel};
use crate::text::{all_ascii, ascii_string};
use crate::traits::RedisEncodable;
use vstd::utf8::{encode_utf8, encode_utf8_valid_utf8};
use vstd::prelude::*;

verus! {

broadcast use vstd::std_specs::vec::group_vec_axioms, vstd::seq::group_seq_axioms;

/// The entries of the store's table.
pub type Entries = Seq<(String, RedisType)>;

/// No two entries share a key.
pub open spec fn keys_unique(d: Entries) -> bool {
    forall|i: int, j: int|
        0 <= i < d.len() && 0 <= j < d.len() && i != j ==> #[trigger] d[i].0@ != #[trigger] d[j].0@
}

/// Whether some entry has key `k`.
pub open spec fn has_key(d: Entries, k: Seq<char>) -> bool {
    exists|i: int| 0 <= i < d.len() && #[trigger] d[i].0@ == k
}

/// The table as a map from key to value.
pub open spec fn map_of(d: Entries) -> Map<Seq<char>, ValueModel> {
    Map::new(
        |k: Seq<char>| has_key(d, k),
        |k: Seq<char>| d[choose|i: int| 0 <= i < d.len() && #[trigger] d[i].0@ == k].1.model(),
    )
}

proof fn lemma_map_of_at(d: Entries, i: int)
    requires
        keys_unique(d),
        0 <= i < d.len(),
    ensures
        map_of(d).contains_key(d[i].0@),
        map_of(d)[d[i].0@] == d[i].1.model(),
{
    let k = d[i].0@;
    assert(has_key(d, k));
    let c = choose|c: int| 0 <= c < d.len() && #[trigger] d[c].0@ == k;
    assert(d[c].0@ == d[i].0@);
}

proof fn lemma_map_of_remove(d: Entries, j: int)
    requires
        keys_unique(d),
        0 <= j < d.len(),
    ensures
        keys_unique(d.remove(j)),
        map_of(d.remove(j)) == map_of(d).remove(d[j].0@),
{
    let n = d.remove(j);
    let k = d[j].0@;
    assert forall|a: int, b: int| 0 <= a < n.len() && 0 <= b < n.len() && a != b implies #[trigger] n[a].0@ != #[trigger] n[b].0@ by {
        let a2 = if a < j { a } else { a + 1 };
        let b2 = if b < j { b } else { b + 1 };
        assert(n[a] == d[a2] && n[b] == d[b2]);
    }
    assert forall|x: Seq<char>| #[trigger] map_of(n).contains_key(x) <==> map_of(d).remove(k).contains_key(x) by {
        if has_key(n, x) {
            let a = choose|a: int| 0 <= a < n.len() && #[trigger] n[a].0@ == x;
            let a2 = if a < j { a } else { a + 1 };
            assert(n[a] == d[a2]);
            assert(d[a2].0@ != d[j].0@);
            assert(has_key(d, x));
        }
        if has_key(d, x) && x != k {
            let a = choose|a: int| 0 <= a < d.len() && #[trigger] d[a].0@ == x;
            assert(a != j);
            let a2 = if a < j { a } else { a - 1 };
            assert(n[a2] == d[a]);
            assert(has_key(n, x));
        }
    }
    assert forall|x: Seq<char>| #[trigger] map_of(n).contains_key(x) implies map_of(n)[x] == map_of(d).remove(k)[x] by {
        let a = choose|a: int| 0 <= a < n.len() && #[trigger] n[a].0@ == x;
        let a2 = if a < j { a } else { a + 1 };
        assert(n[a] == d[a2]);
        lemma_map_of_at(n, a);
        lemma_map_of_at(d, a2);
    }
    assert(map_of(n) =~= map_of(d).remove(k));
}

proof fn lemma_map_of_update(d: Entries, j: int, e: (String, RedisType))
    requires
        keys_unique(d),
        0 <= j < d.len(),
        e.0@ == d[j].0@,
    ensures
        keys_unique(d.update(j, e)),
        map_of(d.update(j, e)) == map_of(d).insert(e.0@, e.1.model()),
{
    let n = d.update(j, e);
    let k = e.0@;
    assert forall|a: int, b: int| 0 <= a < n.len() && 0 <= b < n.len() && a != b implies #[trigger] n[a].0@ != #[trigger] n[b].0@ by {
        assert(n[a].0@ == d[a].0@ && n[b].0@ == d[b].0@);
    }
    assert forall|x: Seq<char>| #[trigger] map_of(n).contains_key(x) <==> map_of(d).insert(k, e.1.model()).contains_key(x) by {
        if has_key(n, x) {
            let a = choose|a: int| 0 <= a < n.len() && #[trigger] n[a].0@ == x;
            assert(d[a].0@ == x);
        }
        if has_key(d, x) {
            let a = choose|a: int| 0 <= a < d.len() && #[trigger] d[a].0@ == x;
            assert(n[a].0@ == x);
        }
        if x == k {
            assert(n[j].0@ == x);
        }
    }
    assert forall|x: Seq<char>| #[trigger] map_of(n).contains_key(x) implies map_of(n)[x] == map_of(d).insert(k, e.1.model())[x] by {
        let a = choose|a: int| 0 <= a < n.len() && #[trigger] n[a].0@ == x;
        lemma_map_of_at(n, a);
        if a != j {
            lemma_map_of_at(d, a);
        }
    }
    assert(map_of(n) =~= map_of(d).insert(k, e.1.model()));
}

proof fn lemma_map_of_push(d: Entries, e: (String, RedisType))
    requires
        keys_unique(d),
        !has_key(d, e.0@),
    ensures
        keys_unique(d.push(e)),
        map_of(d.push(e)) == map_of(d).insert(e.0@, e.1.model()),
{
    let n = d.push(e);
    let k = e.0@;
    assert forall|a: int, b: int| 0 <= a < n.len() && 0 <= b < n.len() && a != b implies #[trigger] n[a].0@ != #[trigger] n[b].0@ by {
        if a < d.len() && b < d.len() {
            assert(n[a] == d[a] && n[b] == d[b]);
        } else if a < d.len() {
            assert(n[a] == d[a]);
        } else {
            assert(n[b] == d[b]);
        }
    }
    assert forall|x: Seq<char>| #[trigger] map_of(n).contains_key(x) <==> map_of(d).insert(k, e.1.model()).contains_key(x) by {
        if has_key(n, x) {
            let a = choose|a: int| 0 <= a < n.len() && #[trigger] n[a].0@ == x;
            if a < d.len() {
                assert(n[a] == d[a]);
            }
        }
        if has_key(d, x) {
            let a = choose|a: int| 0 <= a < d.len() && #[trigger] d[a].0@ == x;
            assert(n[a] == d[a]);
        }
        if x == k {
            assert(n[d.len() as int].0@ == x);
        }
    }
    assert forall|x: Seq<char>| #[trigger] map_of(n).contains_key(x) implies map_of(n)[x] == map_of(d).insert(k, e.1.model())[x] by {
        let a = choose|a: int| 0 <= a < n.len() && #[trigger] n[a].0@ == x;
        lemma_map_of_at(n, a);
        if a < d.len() {
            assert(n[a] == d[a]);
            lemma_map_of_at(d, a);
        }
    }
    assert(map_of(n) =~= map_of(d).insert(k, e.1.model()));
}

/// The index of the entry with key `key`, if there is one.
fn find_key(d: &Vec<(String, RedisType)>, key: &String) -> (r: Option<usize>)
    ensures
        r matches Some(j) ==> j < d@.len() && d@[j as int].0@ == key@,
        r is None ==> !has_key(d@, key@),
{
    let mut j: usize = 0;
    while j < d.len()
        invariant
            j <= d@.len(),
            forall|q: int| 0 <= q < j ==> #[trigger] d@[q].0@ != key@,
        decreases d@.len() - j,
    {
        if d[j].0 == *key {
            return Some(j);
        }
        j = j + 1;
    }
    None
}

/// Sets `key` to `value` in the table.
fn put(d: &mut Vec<(String, RedisType)>, key: String, value: RedisType)
    requires
        keys_unique(old(d)@),
    ensures
        keys_unique(final(d)@),
        map_of(final(d)@) == map_of(old(d)@).insert(key@, value.model()),
{
    let ghost k = key@;
    let ghost e = (key, value);
    match find_key(d, &key) {
        Some(j) => {
            proof {
                lemma_map_of_update(d@, j as int, e);
            }
            d.set(j, (key, value));
        },
        None => {
            proof {
                lemma_map_of_push(d@, e);
            }
            d.push((key, value));
        },
    }
}

/// Removes `key` from the table, if it is there.
fn remove_key(d: &mut Vec<(String, RedisType)>, key: &String)
    requires
        keys_unique(old(d)@),
    ensures
        keys_unique(final(d)@),
        map_of(final(d)@) == map_of(old(d)@).remove(key@),
{
    match find_key(d, key) {
        Some(j) => {
            proof {
                lemma_map_of_remove(d@, j as int);
            }
            d.remove(j);
        },
        None => {
            assert(map_of(d@).remove(key@) =~= map_of(d@));
        },
    }
}

/// Scheduled expiries: `(instant, key)` pairs, instants in milliseconds.
pub type Schedule = Seq<(int, Seq<char>)>;

/// The instants never decrease along the schedule.
pub open spec fn sorted(e: Schedule) -> bool {
    forall|i: int, j: int| 0 <= i <= j < e.len() ==> #[trigger] e[i].0 <= #[trigger] e[j].0
}

/// The length of the run of entries at the front of `e` whose instant is at
/// or before `now`.
pub open spec fn due_count(e: Schedule, now: int) -> nat
    decreases e.len(),
{
    if e.len() == 0 || e[0].0 > now {
        0
    } else {
        1 + due_count(e.drop_first(), now)
    }
}

/// The keys whose expiry is due at `now`.
pub open spec fn due_keys(e: Schedule, now: int) -> Set<Seq<char>> {
    Set::new(|k: Seq<char>| exists|i: int| 0 <= i < due_count(e, now) && #[trigger] e[i].1 == k)
}

/// What the store holds.
pub struct StoreModel {
    /// Each key's value.
    pub data: Map<Seq<char>, ValueModel>,
    /// The expiries still to come, in order of instant.
    pub expiries: Schedule,
}

impl StoreModel {
    /// The store as it starts: nothing in it.
    pub open spec fn empty() -> StoreModel {
        StoreModel { data: Map::empty(), expiries: Seq::empty() }
    }

    /// The schedule is in order.
    pub open spec fn wf(self) -> bool {
        sorted(self.expiries)
    }

    /// The store after a sweep at `now`: every key due by then is gone, and
    /// so are the entries that were due.
    pub open spec fn swept(self, now: int) -> StoreModel {
        StoreModel {
            data: self.data.remove_keys(due_keys(self.expiries, now)),
            expiries: self.expiries.subrange(due_count(self.expiries, now) as int, self.expiries.len() as int),
        }
    }

    /// The store with `k` scheduled to expire at `at`, after every entry due
    /// by then.
    pub open spec fn scheduled(self, at: int, k: Seq<char>) -> StoreModel {
        StoreModel {
            data: self.data,
            expiries: self.expiries.insert(due_count(self.expiries, at) as int, (at, k)),
        }
    }

    /// The store after `k` is set to `v`, to expire at `at` if that is given.
    /// An expiry scheduled before for `k` stays.
    pub open spec fn stored(self, k: Seq<char>, v: ValueModel, at: Option<int>) -> StoreModel {
        let s = match at {
            Some(t) => self.scheduled(t, k),
            None => self,
        };
        StoreModel { data: s.data.insert(k, v), expiries: s.expiries }
    }
}

/// The instant `ms` milliseconds after `now`, if `ms` is given.
pub open spec fn expiry_at(ms: Option<i64>, now: int) -> Option<int> {
    match ms {
        Some(m) => Some(now + m),
        None => None,
    }
}

/// The null bulk string, `$-1\r\n`: no such key.
pub open spec fn null_bulk() -> Seq<u8> {
    seq![36u8, 45u8, 49u8, 13u8, 10u8]
}

/// The reply to a read of `k`: its value as a bulk string, or the null bulk
/// string.
pub open spec fn get_reply(data: Map<Seq<char>, ValueModel>, k: Seq<char>) -> Seq<u8> {
    if data.contains_key(k) {
        wire(Frame::Bulk(encode_utf8(inner_text(data[k]))))
    } else {
        null_bulk()
    }
}

/// The reply to a type query on `k`.
pub open spec fn type_of_reply(data: Map<Seq<char>, ValueModel>, k: Seq<char>) -> Seq<char> {
    if data.contains_key(k) {
        type_reply(data[k])
    } else {
        "+none\r\n"@
    }
}

proof fn lemma_due_count_is(e: Schedule, now: int, p: int)
    requires
        0 <= p <= e.len(),
        forall|i: int| 0 <= i < p ==> #[trigger] e[i].0 <= now,
        p == e.len() || e[p].0 > now,
    ensures
        due_count(e, now) == p,
    decreases p,
{
    if p > 0 {
        assert(e[0].0 <= now);
        let t = e.drop_first();
        assert forall|i: int| 0 <= i < p - 1 implies #[trigger] t[i].0 <= now by {
            assert(t[i] == e[i + 1]);
        }
        if p < e.len() {
            assert(t[p - 1] == e[p]);
        }
        lemma_due_count_is(t, now, p - 1);
    }
}

/// In a sorted schedule the due entries are exactly those at or before `now`.
pub proof fn lemma_due_prefix(e: Schedule, now: int)
    requires
        sorted(e),
    ensures
        due_count(e, now) <= e.len(),
        forall|i: int| 0 <= i < due_count(e, now) ==> #[trigger] e[i].0 <= now,
        forall|i: int| due_count(e, now) <= i < e.len() ==> #[trigger] e[i].0 > now,
    decreases e.len(),
{
    if e.len() > 0 && e[0].0 <= now {
        let t = e.drop_first();
        assert(sorted(t)) by {
            assert forall|i: int, j: int| 0 <= i <= j < t.len() implies #[trigger] t[i].0 <= #[trigger] t[j].0 by {
                assert(t[i] == e[i + 1] && t[j] == e[j + 1]);
            }
        }
        lemma_due_prefix(t, now);
        assert forall|i: int| 0 <= i < due_count(e, now) implies #[trigger] e[i].0 <= now by {
            if i > 0 {
                assert(e[i] == t[i - 1]);
            }
        }
        assert forall|i: int| due_count(e, now) <= i < e.len() implies #[trigger] e[i].0 > now by {
            assert(e[i] == t[i - 1]);
        }
    } else if e.len() > 0 {
        assert forall|i: int| 0 <= i < e.len() implies #[trigger] e[i].0 > now by {
            assert(e[0].0 <= e[i].0);
        }
    }
}

proof fn lemma_scheduled_sorted(e: Schedule, at: int, k: Seq<char>)
    requires
        sorted(e),
    ensures
        sorted(e.insert(due_count(e, at) as int, (at, k))),
{
    lemma_due_prefix(e, at);
    let p = due_count(e, at) as int;
    let n = e.insert(p, (at, k));
    assert forall|i: int, j: int| 0 <= i <= j < n.len() implies #[trigger] n[i].0 <= #[trigger] n[j].0 by {
        let i2 = if i < p { i } else { i - 1 };
        let j2 = if j < p { j } else { j - 1 };
        if i == p && j > p {
            assert(n[j] == e[j2]);
        } else if j == p && i < p {
            assert(n[i] == e[i2]);
        } else if i != p && j != p {
            assert(n[i] == e[i2] && n[j] == e[j2]);
        }
    }
}

/// Keys and their values, with lazy expiry.
pub struct KeyValueStore {
    data: Vec<(String, RedisType)>,
    expiries: Vec<(i128, String)>,
}

/// The schedule that a vector of expiries holds.
pub open spec fn schedule_of(v: Seq<(i128, String)>) -> Schedule {
    v.map_values(|e: (i128, String)| (e.0 as int, e.1@))
}

impl KeyValueStore {
    /// What the store holds.
    pub closed spec fn model(&self) -> StoreModel {
        StoreModel { data: map_of(self.data@), expiries: schedule_of(self.expiries@) }
    }

    /// Keys are unique and the schedule is in order.
    pub closed spec fn wf(&self) -> bool {
        keys_unique(self.data@) && sorted(schedule_of(self.expiries@))
    }

    /// The model of a well-formed store is well formed.
    pub proof fn lemma_model_wf(&self)
        requires
            self.wf(),
        ensures
            self.model().wf(),
    {
    }

    /// An empty store.
    pub fn new() -> (r: KeyValueStore)
        ensures
            r.wf(),
            r.model() == StoreModel::empty(),
    {
        let r = KeyValueStore { data: Vec::new(), expiries: Vec::new() };
        assert(map_of(r.data@) =~= Map::<Seq<char>, ValueModel>::empty());
        assert(schedule_of(r.expiries@) =~= Seq::<(int, Seq<char>)>::empty());
        r
    }

    /// The number of schedule entries due at `now`.
    fn due_len(&self, now: i128) -> (r: usize)
        ensures
            r as nat == due_count(schedule_of(self.expiries@), now as int),
            r <= self.expiries@.len(),
    {
        let ghost e = schedule_of(self.expiries@);
        let mut p: usize = 0;
        while p < self.expiries.len() && self.expiries[p].0 <= now
            invariant
                p <= self.expiries@.len(),
                e == schedule_of(self.expiries@),
                forall|i: int| 0 <= i < p ==> #[trigger] e[i].0 <= now,
            decreases self.expiries@.len() - p,
        {
            p = p + 1;
        }
        proof {
            lemma_due_count_is(e, now as int, p as int);
        }
        p
    }

    /// Schedules `key` to expire `expiry_ms` milliseconds after `now`.
    pub fn set_expiry(&mut self, key: &str, expiry_ms: i64, now: i64) -> (r: String)
        requires
            old(self).wf(),
        ensures
            final(self).wf(),
            final(self).model() == old(self).model().scheduled(now + expiry_ms, key@),
            r@ == "+OK\r\n"@,
    {
        let at: i128 = now as i128 + expiry_ms as i128;
        let p = self.due_len(at);
        let ghost e = schedule_of(self.expiries@);
        self.expiries.insert(p, (at, key.to_owned()));
        proof {
            lemma_scheduled_sorted(e, at as int, key@);
            assert(schedule_of(self.expiries@) =~= e.insert(p as int, (at as int, key@)));
        }
        "+OK\r\n".to_owned()
    }

    /// Sets `key` to `value`, to expire `expiry_ms` milliseconds after `now`
    /// if that is given.
    pub fn set(&mut self, key: &str, value: RedisType, expiry_ms: Option<i64>, now: i64) -> (r: String)
        requires
            old(self).wf(),
        ensures
            final(self).wf(),
            final(self).model() == old(self).model().stored(key@, value.model(), expiry_at(expiry_ms, now as int)),
            r@ == "+OK\r\n"@,
    {
        if let Some(ms) = expiry_ms {
            self.set_expiry(key, ms, now);
        }
        put(&mut self.data, key.to_owned(), value);
        "+OK\r\n".to_owned()
    }

    /// Drops every key whose expiry is due at `now`, and the entries that were
    /// due.
    pub fn clean_expiries(&mut self, now: i64)
        requires
            old(self).wf(),
        ensures
            final(self).wf(),
            final(self).model() == old(self).model().swept(now as int),
    {
        let p = self.due_len(now as i128);
        let ghost e = schedule_of(self.expiries@);
        let ghost m0 = map_of(self.data@);
        let mut i: usize = 0;
        assert(m0.remove_keys(Set::new(|k: Seq<char>| exists|j: int| 0 <= j < 0 && #[trigger] e[j].1 == k)) =~= m0);
        while i < p
            invariant
                i <= p <= self.expiries@.len(),
                p == due_count(e, now as int),
                e == schedule_of(self.expiries@),
                keys_unique(self.data@),
                map_of(self.data@) == m0.remove_keys(
                    Set::new(|k: Seq<char>| exists|j: int| 0 <= j < i && #[trigger] e[j].1 == k),
                ),
            decreases p - i,
        {
            remove_key(&mut self.data, &self.expiries[i].1);
            proof {
                let s0 = Set::new(|k: Seq<char>| exists|j: int| 0 <= j < i && #[trigger] e[j].1 == k);
                let s1 = Set::new(|k: Seq<char>| exists|j: int| 0 <= j < i + 1 && #[trigger] e[j].1 == k);
                assert(e[i as int].1 == self.expiries@[i as int].1@);
                assert(s1 =~= s0.insert(e[i as int].1)) by {
                    assert forall|k: Seq<char>| s1.contains(k) implies #[trigger] s0.insert(e[i as int].1).contains(k) by {
                        let j = choose|j: int| 0 <= j < i + 1 && #[trigger] e[j].1 == k;
                        if j < i {
                            assert(s0.contains(k));
                        }
                    }
                }
                assert(m0.remove_keys(s1) =~= m0.remove_keys(s0).remove(e[i as int].1));
            }
            i = i + 1;
        }
        assert(Set::new(|k: Seq<char>| exists|j: int| 0 <= j < p && #[trigger] e[j].1 == k) =~= due_keys(e, now as int));
        let tail = self.expiries.split_off(p);
        self.expiries = tail;
        proof {
            assert(schedule_of(self.expiries@) =~= e.subrange(p as int, e.len() as int));
            assert(sorted(schedule_of(self.expiries@))) by {
                let t = schedule_of(self.expiries@);
                assert forall|a: int, b: int| 0 <= a <= b < t.len() implies #[trigger] t[a].0 <= #[trigger] t[b].0 by {
                    assert(t[a] == e[a + p] && t[b] == e[b + p]);
                }
            }
        }
    }

    /// Reads `key` after a sweep at `now`: its value as a bulk string, or the
    /// null bulk string.
    pub fn get(&mut self, key: &str, now: i64) -> (r: String)
        requires
            old(self).wf(),
        ensures
            final(self).wf(),
            final(self).model() == old(self).model().swept(now as int),
            encode_utf8(r@) == get_reply(final(self).model().data, key@),
    {
        self.clean_expiries(now);
        let k = key.to_owned();
        match find_key(&self.data, &k) {
            Some(j) => {
                let text = self.data[j].1.as_inner().to_owned();
                let p = Payload::BulkString(text);
                proof {
                    lemma_map_of_at(self.data@, j as int);
                    encode_utf8_valid_utf8(text@);
                    lemma_wire_valid(p.frame());
                }
                p.redis_encode()
            },
            None => {
                let b = vec![36u8, 45u8, 49u8, 13u8, 10u8];
                assert(b@ =~= null_bulk());
                assert(all_ascii(b@));
                ascii_string(b)
            },
        }
    }

    /// The reply naming the type of `key`'s value: `+string\r\n`,
    /// `+stream\r\n`, or `+none\r\n` when there is no such key. No sweep is
    /// made.
    pub fn get_type(&self, key: &str) -> (r: String)
        requires
            self.wf(),
        ensures
            r@ == type_of_reply(self.model().data, key@),
    {
        let k = key.to_owned();
        match find_key(&self.data, &k) {
            Some(j) => {
                proof {
                    lemma_map_of_at(self.data@, j as int);
                }
                self.data[j].1.type_str()
            },
            None => "+none\r\n".to_owned(),
        }
    }

}

/// Setting a key with no expiry and then reading it gives the value back as a
/// bulk string, unless an expiry scheduled earlier for that key is due at the
/// read.
pub proof fn lemma_set_then_get(s: StoreModel, k: Seq<char>, v: ValueModel, t: int)
    requires
        s.wf(),
        !due_keys(s.expiries, t).contains(k),
    ensures
        get_reply(s.stored(k, v, None).swept(t).data, k) == wire(Frame::Bulk(encode_utf8(inner_text(v)))),
{
}

/// A key set to expire `m` milliseconds after `t0` reads as absent from
/// `t0 + m` on; before that it reads as its value, unless an expiry scheduled
/// earlier for that key is due at the read.
pub proof fn lemma_expiry(s: StoreModel, k: Seq<char>, v: ValueModel, t0: int, m: int, t1: int)
    requires
        s.wf(),
        m > 0,
    ensures
        t1 >= t0 + m ==> get_reply(s.stored(k, v, Some(t0 + m)).swept(t1).data, k) == null_bulk(),
        t1 < t0 + m && !due_keys(s.expiries, t1).contains(k) ==> get_reply(
            s.stored(k, v, Some(t0 + m)).swept(t1).data,
            k,
        ) == wire(Frame::Bulk(encode_utf8(inner_text(v)))),
{
    let e = s.expiries;
    let at = t0 + m;
    let p = due_count(e, at) as int;
    lemma_due_prefix(e, at);
    let e2 = e.insert(p, (at, k));
    lemma_scheduled_sorted(e, at, k);
    lemma_due_prefix(e2, t1);
    lemma_due_prefix(e, t1);
    assert(s.stored(k, v, Some(at)).expiries == e2);
    assert(e2[p] == (at, k));
    assert(e2[p].0 == at);
    assert(e2[p].1 == k);
    if t1 >= at {
        if due_count(e2, t1) <= p {
            assert(e2[p].0 > t1);
        }
        assert(p < due_count(e2, t1));
        assert(exists|i: int| 0 <= i < due_count(e2, t1) && #[trigger] e2[i].1 == k);
        assert(due_keys(e2, t1).contains(k));
    }
    if t1 < at && !due_keys(e, t1).contains(k) {
        if due_keys(e2, t1).contains(k) {
            let i = choose|i: int| 0 <= i < due_count(e2, t1) && #[trigger] e2[i].1 == k;
            assert(e2[i].0 <= t1);
            assert(i != p);
            let i2 = if i < p { i } else { i - 1 };
            assert(e2[i] == e[i2]);
            assert(i2 < due_count(e, t1));
            assert(due_keys(e, t1).contains(k));
        }
    }
}

} // verus!
