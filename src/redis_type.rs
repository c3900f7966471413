//! The values the store holds: strings and streams.
use crate::payload::Payload;
use vstd::prelude::*;

verus! {

broadcast use vstd::std_specs::vec::group_vec_axioms, vstd::seq::group_seq_axioms;

/// A stored value.
pub enum RedisType {
    String(String),
    Stream(Stream),
}

/// A stream entry: its id and its fields, in the order they were first given.
pub struct Stream {
    pub key: String,
    pub entries: Vec<(String, String)>,
}

/// The fields of a stream as text.
pub type Fields = Seq<(Seq<char>, Seq<char>)>;

/// The text of a simple or bulk string; empty for other payloads.
pub open spec fn payload_text(p: Payload) -> Seq<char> {
    match p {
        Payload::SimpleString(s) => s@,
        Payload::BulkString(s) => s@,
        _ => Seq::empty(),
    }
}

/// Whether `m` holds a field named `k`.
pub open spec fn has_field(m: Fields, k: Seq<char>) -> bool {
    exists|i: int| 0 <= i < m.len() && #[trigger] m[i].0 == k
}

/// No two fields of `m` share a name.
pub open spec fn fields_unique(m: Fields) -> bool {
    forall|i: int, j: int| 0 <= i < m.len() && 0 <= j < m.len() && i != j ==> #[trigger] m[i].0 != #[trigger] m[j].0
}

/// `m` with field `k` set to `v`: in place when `k` is there, at the end
/// otherwise.
pub open spec fn insert_field(m: Fields, k: Seq<char>, v: Seq<char>) -> Fields {
    if has_field(m, k) {
        let i = choose|i: int| 0 <= i < m.len() && #[trigger] m[i].0 == k;
        m.update(i, (k, v))
    } else {
        m.push((k, v))
    }
}

/// The pairs that a flat `field value field value ...` list gives; an odd
/// last element is left out.
pub open spec fn pairs_of(args: Seq<Payload>) -> Fields {
    Seq::new(args.len() / 2, |i: int| (payload_text(args[2 * i]), payload_text(args[2 * i + 1])))
}

/// The fields that setting each of `pairs` in turn gives.
pub open spec fn fields_from(pairs: Fields) -> Fields
    decreases pairs.len(),
{
    if pairs.len() == 0 {
        Seq::empty()
    } else {
        insert_field(fields_from(pairs.drop_last()), pairs.last().0, pairs.last().1)
    }
}

/// A stored value as mathematics.
pub enum ValueModel {
    /// A string.
    Text(Seq<char>),
    /// A stream entry: its id and its fields.
    Entry(Seq<char>, Fields),
}

/// What `as_inner` gives for a stream.
pub open spec fn stream_inner() -> Seq<char> {
    "Invalid call for stream."@
}

/// The text that reading a value as a string gives.
pub open spec fn inner_text(t: ValueModel) -> Seq<char> {
    match t {
        ValueModel::Text(s) => s,
        ValueModel::Entry(_, _) => stream_inner(),
    }
}

/// The reply naming the type of a value: `+string\r\n` or `+stream\r\n`.
pub open spec fn type_reply(t: ValueModel) -> Seq<char> {
    match t {
        ValueModel::Text(_) => "+string\r\n"@,
        ValueModel::Entry(_, _) => "+stream\r\n"@,
    }
}

/// The index of the field named `field`, if there is one.
fn find_field(entries: &Vec<(String, String)>, field: &String) -> (r: Option<usize>)
    ensures
        r matches Some(j) ==> j < entries@.len() && entries@[j as int].0@ == field@,
        r is None ==> forall|q: int| 0 <= q < entries@.len() ==> #[trigger] entries@[q].0@ != field@,
{
    let mut j: usize = 0;
    while j < entries.len()
        invariant
            j <= entries@.len(),
            forall|q: int| 0 <= q < j ==> #[trigger] entries@[q].0@ != field@,
        decreases entries@.len() - j,
    {
        if entries[j].0 == *field {
            return Some(j);
        }
        j = j + 1;
    }
    None
}

impl Stream {
    /// The fields as text, in order.
    pub open spec fn fields(&self) -> Fields {
        self.entries@.map_values(|e: (String, String)| (e.0@, e.1@))
    }

    /// A stream entry with id `key` whose fields come from the flat
    /// `field value ...` list in `args`, which is drained.
    pub fn new(key: &str, args: &mut Vec<Payload>) -> (r: Stream)
        ensures
            r.key@ == key@,
            r.fields() == fields_from(pairs_of(old(args)@)),
            fields_unique(r.fields()),
            final(args)@.len() == 0,
    {
        let ghost all = args@;
        let mut entries: Vec<(String, String)> = Vec::new();
        let mut i: usize = 0;
        let n = args.len() / 2;
        assert(pairs_of(all).subrange(0, 0) =~= Seq::<(Seq<char>, Seq<char>)>::empty());
        assert(entries@.map_values(|e: (String, String)| (e.0@, e.1@)) =~= Seq::<(Seq<char>, Seq<char>)>::empty());
        while i < n
            invariant
                n == all.len() / 2,
                i <= n,
                args@ == all.subrange(2 * i as int, all.len() as int),
                entries@.map_values(|e: (String, String)| (e.0@, e.1@)) == fields_from(pairs_of(all).subrange(0, i as int)),
                fields_unique(entries@.map_values(|e: (String, String)| (e.0@, e.1@))),
            decreases n - i,
        {
            let k = args.remove(0);
            let v = args.remove(0);
            let field = k.to_string();
            let value = v.to_string();
            let ghost m = entries@.map_values(|e: (String, String)| (e.0@, e.1@));
            let ghost pairs = pairs_of(all).subrange(0, i + 1);
            assert(pairs.drop_last() =~= pairs_of(all).subrange(0, i as int));
            assert(pairs.last() == (field@, value@));
            let found = find_field(&entries, &field);
            if let Some(j) = found {
                assert(m[j as int].0 == field@);
                assert(has_field(m, field@));
                let ghost c = choose|c: int| 0 <= c < m.len() && #[trigger] m[c].0 == field@;
                assert(m[c].0 == m[j as int].0);
                assert(c == j);
                entries.set(j, (field, value));
                assert(entries@.map_values(|e: (String, String)| (e.0@, e.1@)) =~= m.update(j as int, (m[j as int].0, value@)));
            } else {
                assert(!has_field(m, field@));
                entries.push((field, value));
                assert(entries@.map_values(|e: (String, String)| (e.0@, e.1@)) =~= m.push((field@, value@)));
            }
            i = i + 1;
            assert(args@ =~= all.subrange(2 * i as int, all.len() as int));
        }
        assert(pairs_of(all).subrange(0, n as int) =~= pairs_of(all));
        args.clear();
        Stream { key: key.to_owned(), entries }
    }
}

impl RedisType {
    /// This value as mathematics.
    pub open spec fn model(self) -> ValueModel {
        match self {
            RedisType::String(s) => ValueModel::Text(s@),
            RedisType::Stream(st) => ValueModel::Entry(st.key@, st.fields()),
        }
    }

    /// The value read as a string; a stream gives a fixed notice.
    pub fn as_inner(&self) -> (r: &str)
        ensures
            r@ == inner_text(self.model()),
    {
        match self {
            RedisType::String(s) => s.as_str(),
            RedisType::Stream(_) => "Invalid call for stream.",
        }
    }

    /// The reply that names this value's type.
    pub fn type_str(&self) -> (r: String)
        ensures
            r@ == type_reply(self.model()),
    {
        match self {
            RedisType::String(_) => "+string\r\n".to_owned(),
            RedisType::Stream(_) => "+stream\r\n".to_owned(),
        }
    }
}

} // verus!
