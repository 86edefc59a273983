//! Bencode values: the executable types and their mathematical model.
use crate::error::BencodeError;
use crate::text::{lemma_lex_irreflexive, lemma_lex_transitive, lemma_lex_trichotomy, lex_lt};
use vstd::prelude::*;
use vstd::string::StringSliceAdditionalSpecFns;

verus! {

/// The mathematical model of a bencode value.
pub enum BValue {
    Int(int),
    Bytes(Seq<u8>),
    List(Seq<BValue>),
    /// Entries in stored order: keys with their values.
    Dict(Seq<(Seq<u8>, BValue)>),
}

/// Keys strictly increasing in byte-lexicographic order (so also unique).
pub open spec fn sorted_keys(d: Seq<(Seq<u8>, BValue)>) -> bool {
    forall|i: int, j: int| 0 <= i < j < d.len() ==> lex_lt(#[trigger] d[i].0, #[trigger] d[j].0)
}

impl BValue {
    /// A value that this library can hold and encode canonically: integers fit in
    /// an `isize` and every dictionary keeps its keys sorted.
    pub open spec fn wf(self) -> bool
        decreases self,
    {
        match self {
            BValue::Int(i) => isize::MIN <= i <= isize::MAX,
            BValue::Bytes(_) => true,
            BValue::List(l) => forall|i: int| 0 <= i < l.len() ==> (#[trigger] l[i]).wf(),
            BValue::Dict(d) => sorted_keys(d) && forall|i: int|
                0 <= i < d.len() ==> (#[trigger] d[i]).1.wf(),
        }
    }
}

/// The value stored under `k`: the first entry with that key.
pub open spec fn dict_lookup(d: Seq<(Seq<u8>, BValue)>, k: Seq<u8>) -> Option<BValue>
    decreases d.len(),
{
    if d.len() == 0 {
        None
    } else if d[0].0 == k {
        Some(d[0].1)
    } else {
        dict_lookup(d.drop_first(), k)
    }
}

/// Inserts `(k, v)` in key order, replacing the value of an equal key.
pub open spec fn dict_insert(d: Seq<(Seq<u8>, BValue)>, k: Seq<u8>, v: BValue) -> Seq<(Seq<u8>, BValue)>
    decreases d.len(),
{
    if d.len() == 0 {
        seq![(k, v)]
    } else if d[0].0 == k {
        d.update(0, (k, v))
    } else if lex_lt(k, d[0].0) {
        seq![(k, v)] + d
    } else {
        seq![d[0]] + dict_insert(d.drop_first(), k, v)
    }
}

/// Bencoded integer.
#[derive(Debug, Clone, Copy, PartialEq, Eq, Structural)]
pub struct Integer(pub isize);

/// Bencoded byte string.
#[derive(Debug, PartialEq, Eq)]
pub struct ByteString(pub Vec<u8>);

/// Bencoded list.
#[derive(Debug, PartialEq, Eq)]
pub struct List(pub Vec<Value>);

/// Bencoded dictionary: its entries are always in strictly ascending byte
/// order of their keys (so each key is there once); [`Dictionary::insert`]
/// keeps them so.
#[derive(Debug, PartialEq, Eq)]
pub struct Dictionary(Vec<(ByteString, Value)>);

/// A bencoded value.
#[derive(Debug, PartialEq, Eq)]
pub enum Value {
    /// Bencoded integer variant.
    Integer(Integer),
    /// Bencoded byte string variant.
    ByteString(ByteString),
    /// Bencoded list variant.
    List(List),
    /// Bencoded dictionary variant.
    Dictionary(Dictionary),
}

pub open spec fn value_view(v: Value) -> BValue
    decreases v,
{
    match v {
        Value::Integer(i) => BValue::Int(i.0 as int),
        Value::ByteString(b) => BValue::Bytes(b.0@),
        Value::List(l) => BValue::List(values_view(l.0@)),
        Value::Dictionary(d) => BValue::Dict(entries_view(d.entries())),
    }
}

pub open spec fn values_view(s: Seq<Value>) -> Seq<BValue>
    decreases s,
{
    if s.len() == 0 {
        Seq::empty()
    } else {
        values_view(s.drop_last()).push(value_view(s.last()))
    }
}

pub open spec fn entries_view(s: Seq<(ByteString, Value)>) -> Seq<(Seq<u8>, BValue)>
    decreases s,
{
    if s.len() == 0 {
        Seq::empty()
    } else {
        entries_view(s.drop_last()).push((s.last().0.0@, value_view(s.last().1)))
    }
}

impl View for Value {
    type V = BValue;

    open spec fn view(&self) -> BValue {
        value_view(*self)
    }
}

impl View for ByteString {
    type V = Seq<u8>;

    open spec fn view(&self) -> Seq<u8> {
        self.0@
    }
}

impl View for List {
    type V = Seq<BValue>;

    open spec fn view(&self) -> Seq<BValue> {
        values_view(self.0@)
    }
}

impl View for Dictionary {
    type V = Seq<(Seq<u8>, BValue)>;

    open spec fn view(&self) -> Seq<(Seq<u8>, BValue)> {
        entries_view(self.entries())
    }
}

/// A dictionary's values are smaller than the dictionary.
pub proof fn lemma_entry_decreases(d: Dictionary, i: int)
    requires
        0 <= i < d.entries().len(),
    ensures
        decreases_to!(d => d.entries()[i].1),
{
    assert(decreases_to!(d => d.0));
    assert(decreases_to!(d.0 => d.0@));
    assert(decreases_to!(d.0@ => d.0@[i]));
    assert(decreases_to!(d.0@[i] => d.0@[i].1));
}

pub proof fn lemma_values_view(s: Seq<Value>)
    ensures
        values_view(s).len() == s.len(),
        forall|i: int| 0 <= i < s.len() ==> #[trigger] values_view(s)[i] == value_view(s[i]),
    decreases s.len(),
{
    if s.len() > 0 {
        lemma_values_view(s.drop_last());
    }
}

pub proof fn lemma_entries_view(s: Seq<(ByteString, Value)>)
    ensures
        entries_view(s).len() == s.len(),
        forall|i: int|
            0 <= i < s.len() ==> #[trigger] entries_view(s)[i] == (s[i].0.0@, value_view(s[i].1)),
    decreases s.len(),
{
    if s.len() > 0 {
        lemma_entries_view(s.drop_last());
    }
}

pub proof fn lemma_values_view_push(s: Seq<Value>, v: Value)
    ensures
        values_view(s.push(v)) == values_view(s).push(value_view(v)),
{
    assert(s.push(v).drop_last() =~= s);
}

pub proof fn lemma_entries_view_push(s: Seq<(ByteString, Value)>, e: (ByteString, Value))
    ensures
        entries_view(s.push(e)) == entries_view(s).push((e.0.0@, value_view(e.1))),
{
    assert(s.push(e).drop_last() =~= s);
}

pub proof fn lemma_lookup_none(d: Seq<(Seq<u8>, BValue)>, k: Seq<u8>)
    requires
        forall|i: int| 0 <= i < d.len() ==> (#[trigger] d[i]).0 != k,
    ensures
        dict_lookup(d, k) is None,
    decreases d.len(),
{
    if d.len() > 0 {
        assert(d[0].0 != k);
        lemma_lookup_none(d.drop_first(), k);
    }
}

pub proof fn lemma_lookup_at(d: Seq<(Seq<u8>, BValue)>, k: Seq<u8>, i: int)
    requires
        0 <= i < d.len(),
        d[i].0 == k,
        forall|j: int| 0 <= j < i ==> (#[trigger] d[j]).0 != k,
    ensures
        dict_lookup(d, k) == Some(d[i].1),
    decreases i,
{
    if i > 0 {
        assert(d[0].0 != k);
        lemma_lookup_at(d.drop_first(), k, i - 1);
    }
}

/// The key slot where `k` goes: after every smaller key.
pub proof fn lemma_insert_skip(d: Seq<(Seq<u8>, BValue)>, k: Seq<u8>, v: BValue, i: int)
    requires
        0 <= i <= d.len(),
        forall|j: int| 0 <= j < i ==> lex_lt(#[trigger] d[j].0, k),
    ensures
        dict_insert(d, k, v) == d.subrange(0, i) + dict_insert(d.subrange(i, d.len() as int), k, v),
    decreases i,
{
    if i == 0 {
        assert(d.subrange(0, 0) + d.subrange(0, d.len() as int) =~= d.subrange(0, d.len() as int));
        assert(d.subrange(0, d.len() as int) =~= d);
        assert(Seq::<(Seq<u8>, BValue)>::empty() + dict_insert(d, k, v) =~= dict_insert(d, k, v));
    } else {
        let t = d.drop_first();
        assert(lex_lt(d[0].0, k));
        lemma_lex_irreflexive(k);
        lemma_lex_trichotomy(k, d[0].0);
        assert forall|j: int| 0 <= j < i - 1 implies lex_lt(#[trigger] t[j].0, k) by {
            assert(t[j] == d[j + 1]);
        }
        lemma_insert_skip(t, k, v, i - 1);
        assert(t.subrange(i - 1, t.len() as int) =~= d.subrange(i, d.len() as int));
        assert(seq![d[0]] + t.subrange(0, i - 1) =~= d.subrange(0, i));
        assert(seq![d[0]] + (t.subrange(0, i - 1) + dict_insert(d.subrange(i, d.len() as int), k, v))
            =~= d.subrange(0, i) + dict_insert(d.subrange(i, d.len() as int), k, v));
    }
}

/// Inserting keeps the keys sorted; every key of the result is `k`, or the
/// first key of `d`, or sorts after it.
pub proof fn lemma_insert_sorted(d: Seq<(Seq<u8>, BValue)>, k: Seq<u8>, v: BValue)
    requires
        sorted_keys(d),
    ensures
        sorted_keys(dict_insert(d, k, v)),
        forall|i: int|
            0 <= i < dict_insert(d, k, v).len() ==> (#[trigger] dict_insert(d, k, v)[i]).0 == k
                || lex_lt(d[0].0, dict_insert(d, k, v)[i].0) || dict_insert(d, k, v)[i].0 == d[0].0,
    decreases d.len(),
{
    let r = dict_insert(d, k, v);
    lemma_lex_trichotomy(k, d[0].0);
    if d.len() == 0 {
    } else if d[0].0 == k {
        assert forall|i: int, j: int| 0 <= i < j < r.len() implies lex_lt(#[trigger] r[i].0, #[trigger] r[j].0) by {
            assert(d[i].0 == r[i].0);
        }
        assert forall|i: int| 0 <= i < r.len() implies (#[trigger] r[i]).0 == k
            || lex_lt(d[0].0, r[i].0) || r[i].0 == d[0].0 by {
            if i > 0 {
                assert(d[i] == r[i]);
            }
        }
    } else if lex_lt(k, d[0].0) {
        assert forall|i: int, j: int| 0 <= i < j < r.len() implies lex_lt(#[trigger] r[i].0, #[trigger] r[j].0) by {
            if i == 0 {
                if j > 1 {
                    lemma_lex_transitive(k, d[0].0, d[j - 1].0);
                }
            } else {
                assert(r[i] == d[i - 1] && r[j] == d[j - 1]);
            }
        }
        assert forall|i: int| 0 <= i < r.len() implies (#[trigger] r[i]).0 == k
            || lex_lt(d[0].0, r[i].0) || r[i].0 == d[0].0 by {
            if i > 1 {
                assert(r[i] == d[i - 1]);
            }
        }
    } else {
        let t = d.drop_first();
        assert(sorted_keys(t)) by {
            assert forall|i: int, j: int| 0 <= i < j < t.len() implies lex_lt(#[trigger] t[i].0, #[trigger] t[j].0) by {
                assert(t[i] == d[i + 1] && t[j] == d[j + 1]);
            }
        }
        lemma_insert_sorted(t, k, v);
        let rt = dict_insert(t, k, v);
        assert(r == seq![d[0]] + rt);
        assert forall|i: int, j: int| 0 <= i < j < r.len() implies lex_lt(#[trigger] r[i].0, #[trigger] r[j].0) by {
            if i == 0 {
                assert(r[j] == rt[j - 1]);
                if rt[j - 1].0 != k && t.len() > 0 {
                    assert(t[0] == d[1]);
                    if lex_lt(t[0].0, rt[j - 1].0) {
                        lemma_lex_transitive(d[0].0, t[0].0, rt[j - 1].0);
                    }
                }
            } else {
                assert(r[i] == rt[i - 1] && r[j] == rt[j - 1]);
            }
        }
        assert forall|i: int| 0 <= i < r.len() implies (#[trigger] r[i]).0 == k
            || lex_lt(d[0].0, r[i].0) || r[i].0 == d[0].0 by {
            if i > 0 {
                assert(r[i] == rt[i - 1]);
                if rt[i - 1].0 != k && t.len() > 0 {
                    assert(t[0] == d[1]);
                    if lex_lt(t[0].0, rt[i - 1].0) {
                        lemma_lex_transitive(d[0].0, t[0].0, rt[i - 1].0);
                    }
                }
            }
        }
    }
}

/// Compares two byte strings in byte-lexicographic order: negative, zero or
/// positive as `a` sorts before, equal to, or after `b`.
pub fn compare_bytes(a: &[u8], b: &[u8]) -> (r: i8)
    ensures
        r < 0 <==> lex_lt(a@, b@),
        r == 0 <==> a@ == b@,
        r > 0 <==> lex_lt(b@, a@),
{
    let mut i: usize = 0;
    assert(a@.subrange(0, a@.len() as int) =~= a@);
    assert(b@.subrange(0, b@.len() as int) =~= b@);
    while i < a.len() && i < b.len()
        invariant
            i <= a@.len(),
            i <= b@.len(),
            a@.subrange(0, i as int) == b@.subrange(0, i as int),
            lex_lt(a@, b@) == lex_lt(a@.subrange(i as int, a@.len() as int), b@.subrange(i as int, b@.len() as int)),
            lex_lt(b@, a@) == lex_lt(b@.subrange(i as int, b@.len() as int), a@.subrange(i as int, a@.len() as int)),
        decreases a@.len() - i,
    {
        let ghost sa = a@.subrange(i as int, a@.len() as int);
        let ghost sb = b@.subrange(i as int, b@.len() as int);
        assert(sa[0] == a@[i as int] && sb[0] == b@[i as int]);
        if a[i] != b[i] {
            proof {
                if a@ == b@ {
                    assert(a@[i as int] == b@[i as int]);
                }
            }
            if a[i] < b[i] {
                return -1;
            } else {
                return 1;
            }
        }
        assert(sa.drop_first() =~= a@.subrange(i + 1, a@.len() as int));
        assert(sb.drop_first() =~= b@.subrange(i + 1, b@.len() as int));
        assert(a@.subrange(0, i + 1) =~= a@.subrange(0, i as int).push(a@[i as int]));
        assert(b@.subrange(0, i + 1) =~= b@.subrange(0, i as int).push(b@[i as int]));
        i = i + 1;
    }
    let ghost sa = a@.subrange(i as int, a@.len() as int);
    let ghost sb = b@.subrange(i as int, b@.len() as int);
    if a.len() == b.len() {
        assert(a@ =~= a@.subrange(0, i as int));
        assert(b@ =~= b@.subrange(0, i as int));
        assert(sa.len() == 0 && sb.len() == 0);
        0
    } else if a.len() < b.len() {
        assert(sa.len() == 0 && sb.len() > 0);
        proof {
            if a@ == b@ {
                assert(a@.len() == b@.len());
            }
        }
        -1
    } else {
        assert(sa.len() > 0 && sb.len() == 0);
        1
    }
}

impl Clone for ByteString {
    fn clone(&self) -> (r: Self)
        ensures
            r@ == self@,
    {
        let mut out: Vec<u8> = Vec::new();
        let mut i: usize = 0;
        while i < self.0.len()
            invariant
                i <= self.0@.len(),
                out@ == self.0@.subrange(0, i as int),
            decreases self.0@.len() - i,
        {
            out.push(self.0[i]);
            i = i + 1;
            assert(out@ =~= self.0@.subrange(0, i as int));
        }
        assert(self.0@.subrange(0, i as int) =~= self.0@);
        ByteString(out)
    }
}

impl Clone for Value {
    fn clone(&self) -> (r: Self)
        ensures
            r@ == self@,
        decreases self,
    {
        match self {
            Value::Integer(i) => Value::Integer(*i),
            Value::ByteString(b) => Value::ByteString(b.clone()),
            Value::List(l) => {
                let mut out: Vec<Value> = Vec::new();
                let mut i: usize = 0;
                while i < l.0.len()
                    invariant
                        i <= l.0@.len(),
                        *self == Value::List(*l),
                        values_view(out@) == values_view(l.0@.subrange(0, i as int)),
                    decreases l.0@.len() - i,
                {
                    proof {
                        let s = *self;
                        assert(decreases_to!(s => s->List_0));
                        assert(decreases_to!(s->List_0 => s->List_0.0));
                        assert(decreases_to!(s->List_0.0 => s->List_0.0@));
                        assert(decreases_to!(s->List_0.0@ => s->List_0.0@[i as int]));
                    }
                    let c = l.0[i].clone();
                    proof {
                        lemma_values_view_push(out@, c);
                        lemma_values_view_push(l.0@.subrange(0, i as int), l.0@[i as int]);
                        assert(l.0@.subrange(0, i + 1) =~= l.0@.subrange(0, i as int).push(l.0@[i as int]));
                    }
                    out.push(c);
                    i = i + 1;
                }
                assert(l.0@.subrange(0, i as int) =~= l.0@);
                Value::List(List(out))
            },
            Value::Dictionary(d) => {
                let mut out: Vec<(ByteString, Value)> = Vec::new();
                let mut i: usize = 0;
                while i < d.0.len()
                    invariant
                        i <= d.0@.len(),
                        *self == Value::Dictionary(*d),
                        entries_view(out@) == entries_view(d.0@.subrange(0, i as int)),
                    decreases d.0@.len() - i,
                {
                    let k = d.0[i].0.clone();
                    proof {
                        let s = *self;
                        assert(decreases_to!(s => s->Dictionary_0));
                        assert(decreases_to!(s->Dictionary_0 => s->Dictionary_0.0));
                        assert(decreases_to!(s->Dictionary_0.0 => s->Dictionary_0.0@));
                        assert(decreases_to!(s->Dictionary_0.0@ => s->Dictionary_0.0@[i as int]));
                        assert(decreases_to!(s->Dictionary_0.0@[i as int] => s->Dictionary_0.0@[i as int].1));
                    }
                    let c = d.0[i].1.clone();
                    proof {
                        lemma_entries_view_push(out@, (k, c));
                        lemma_entries_view_push(d.0@.subrange(0, i as int), d.0@[i as int]);
                        assert(d.0@.subrange(0, i + 1) =~= d.0@.subrange(0, i as int).push(d.0@[i as int]));
                    }
                    out.push((k, c));
                    i = i + 1;
                }
                assert(d.0@.subrange(0, i as int) =~= d.0@);
                proof {
                    use_type_invariant(d);
                }
                Value::Dictionary(Dictionary(out))
            },
        }
    }
}

impl Dictionary {
    /// The entries, in stored order.
    pub closed spec fn entries(&self) -> Seq<(ByteString, Value)> {
        self.0@
    }

    /// Keys strictly ascending.
    #[verifier::type_invariant]
    pub open spec fn inv(self) -> bool {
        sorted_keys(self@)
    }

    /// The entry at position `i`.
    pub fn entry(&self, i: usize) -> (r: &(ByteString, Value))
        requires
            i < self@.len(),
        ensures
            *r == self.entries()[i as int],
            r.0@ == self@[i as int].0,
            r.1@ == self@[i as int].1,
    {
        proof {
            lemma_entries_view(self.0@);
        }
        &self.0[i]
    }

    /// An empty dictionary.
    pub fn new() -> (r: Dictionary)
        ensures
            r@ == Seq::<(Seq<u8>, BValue)>::empty(),
    {
        Dictionary(Vec::new())
    }

    /// Number of entries.
    pub fn len(&self) -> (r: usize)
        ensures
            r == self@.len(),
    {
        proof {
            lemma_entries_view(self.0@);
        }
        self.0.len()
    }

    /// Inserts `value` under `key`, keeping the keys in ascending byte order and
    /// replacing the value of an equal key.
    pub fn insert(&mut self, key: ByteString, value: Value)
        ensures
            final(self)@ == dict_insert(old(self)@, key@, value@),
    {
        proof {
            use_type_invariant(&*self);
        }
        let ghost d = self@;
        let mut entries: Vec<(ByteString, Value)> = Vec::new();
        core::mem::swap(&mut self.0, &mut entries);
        proof {
            lemma_entries_view(entries@);
        }
        let mut i: usize = 0;
        while i < entries.len() && compare_bytes(entries[i].0.0.as_slice(), key.0.as_slice()) < 0
            invariant
                i <= entries@.len(),
                d == entries_view(entries@),
                d.len() == entries@.len(),
                forall|j: int| 0 <= j < i ==> lex_lt(#[trigger] d[j].0, key@),
            decreases entries@.len() - i,
        {
            proof {
                lemma_entries_view(entries@);
            }
            assert(d[i as int] == entries_view(entries@)[i as int]);
            i = i + 1;
        }
        proof {
            lemma_insert_skip(d, key@, value@, i as int);
            lemma_entries_view(entries@);
        }
        let ghost rest = d.subrange(i as int, d.len() as int);
        if i < entries.len() && compare_bytes(entries[i].0.0.as_slice(), key.0.as_slice()) == 0 {
            proof {
                assert(rest[0] == d[i as int]);
                assert(dict_insert(rest, key@, value@) == rest.update(0, (key@, value@)));
            }
            let ghost old_entries = entries@;
            entries.set(i, (key, value));
            proof {
                lemma_entries_view(entries@);
                assert(entries_view(entries@) =~= d.subrange(0, i as int) + rest.update(0, (old_entries[i as int].0.0@, value_view(entries@[i as int].1))));
            }
        } else {
            proof {
                if i < d.len() {
                    lemma_lex_trichotomy(d[i as int].0, key@);
                    assert(rest[0] == d[i as int]);
                } else {
                    assert(rest =~= Seq::<(Seq<u8>, BValue)>::empty());
                }
                assert(dict_insert(rest, key@, value@) == seq![(key@, value@)] + rest);
            }
            let ghost kv = key@;
            let ghost vv = value@;
            entries.insert(i, (key, value));
            proof {
                lemma_entries_view(entries@);
                assert(entries_view(entries@) =~= d.subrange(0, i as int) + (seq![(kv, vv)] + rest));
            }
        }
        proof {
            lemma_insert_sorted(d, key@, value@);
        }
        self.0 = entries;
    }

    /// Try getting the value stored under `key`.
    pub fn try_get(&self, key: &str) -> (r: Result<&Value, BencodeError>)
        ensures
            match dict_lookup(self@, key.spec_bytes()) {
                Some(v) => r is Ok && r->Ok_0@ == v,
                None => r == Err::<&Value, BencodeError>(BencodeError::MissingKey),
            },
    {
        let k = key.as_bytes();
        proof {
            lemma_entries_view(self.0@);
        }
        let mut i: usize = 0;
        while i < self.0.len()
            invariant
                i <= self.0@.len(),
                self@.len() == self.0@.len(),
                k@ == key.spec_bytes(),
                forall|j: int| 0 <= j < i ==> (#[trigger] self@[j]).0 != k@,
            decreases self.0@.len() - i,
        {
            proof {
                lemma_entries_view(self.0@);
            }
            assert(self@[i as int] == (self.0@[i as int].0.0@, value_view(self.0@[i as int].1)));
            if compare_bytes(self.0[i].0.0.as_slice(), k) == 0 {
                proof {
                    lemma_lookup_at(self@, k@, i as int);
                }
                return Ok(&self.0[i].1);
            }
            i = i + 1;
        }
        proof {
            lemma_lookup_none(self@, k@);
        }
        Err(BencodeError::MissingKey)
    }

    /// Whether a value is stored under `key`.
    pub fn has(&self, key: &str) -> (r: bool)
        ensures
            r == dict_lookup(self@, key.spec_bytes()) is Some,
    {
        self.try_get(key).is_ok()
    }

    /// Try getting the value stored under `key` as the kind `T`.
    pub fn try_get_as<T: FromValue>(&self, key: &str) -> (r: Result<T, BencodeError>)
        ensures
            match dict_lookup(self@, key.spec_bytes()) {
                Some(v) => match r {
                    Ok(t) => T::kind_of(v) && t.model() == v,
                    Err(e) => !T::kind_of(v) && e == BencodeError::WrongType,
                },
                None => r is Err && r->Err_0 == BencodeError::MissingKey,
            },
    {
        match self.try_get(key) {
            Ok(v) => T::try_from_value(v.clone()),
            Err(e) => Err(e),
        }
    }
}

/// A kind of bencode value that can be taken out of a [`Value`].
pub trait FromValue: Sized {
    /// Whether a value of this kind is modelled by `v`.
    spec fn kind_of(v: BValue) -> bool;

    /// The model of this value as a bencode value.
    spec fn model(&self) -> BValue;

    fn try_from_value(v: Value) -> (r: Result<Self, BencodeError>)
        ensures
            match r {
                Ok(t) => Self::kind_of(v@) && t.model() == v@,
                Err(e) => !Self::kind_of(v@) && e == BencodeError::WrongType,
            },
    ;
}

impl FromValue for Integer {
    open spec fn kind_of(v: BValue) -> bool {
        v is Int
    }

    open spec fn model(&self) -> BValue {
        BValue::Int(self.0 as int)
    }

    fn try_from_value(v: Value) -> (r: Result<Self, BencodeError>) {
        match v {
            Value::Integer(out) => Ok(out),
            _ => Err(BencodeError::WrongType),
        }
    }
}

impl FromValue for ByteString {
    open spec fn kind_of(v: BValue) -> bool {
        v is Bytes
    }

    open spec fn model(&self) -> BValue {
        BValue::Bytes(self@)
    }

    fn try_from_value(v: Value) -> (r: Result<Self, BencodeError>) {
        match v {
            Value::ByteString(out) => Ok(out),
            _ => Err(BencodeError::WrongType),
        }
    }
}

impl FromValue for List {
    open spec fn kind_of(v: BValue) -> bool {
        v is List
    }

    open spec fn model(&self) -> BValue {
        BValue::List(self@)
    }

    fn try_from_value(v: Value) -> (r: Result<Self, BencodeError>) {
        match v {
            Value::List(out) => Ok(out),
            _ => Err(BencodeError::WrongType),
        }
    }
}

impl FromValue for Dictionary {
    open spec fn kind_of(v: BValue) -> bool {
        v is Dict
    }

    open spec fn model(&self) -> BValue {
        BValue::Dict(self@)
    }

    fn try_from_value(v: Value) -> (r: Result<Self, BencodeError>) {
        match v {
            Value::Dictionary(out) => Ok(out),
            _ => Err(BencodeError::WrongType),
        }
    }
}

/// Every item is a byte string.
pub open spec fn all_bytes(l: Seq<BValue>) -> bool {
    forall|i: int| 0 <= i < l.len() ==> (#[trigger] l[i]) is Bytes
}

/// Every item is a dictionary.
pub open spec fn all_dicts(l: Seq<BValue>) -> bool {
    forall|i: int| 0 <= i < l.len() ==> (#[trigger] l[i]) is Dict
}

impl Value {
    /// Try getting the value as the kind `T`.
    pub fn try_as<T: FromValue>(self) -> (r: Result<T, BencodeError>)
        ensures
            match r {
                Ok(t) => T::kind_of(self@) && t.model() == self@,
                Err(e) => !T::kind_of(self@) && e == BencodeError::WrongType,
            },
    {
        T::try_from_value(self)
    }

    /// Try getting the value as a list whose items are all of the kind `T`.
    pub fn as_list_of<T: FromValue>(self) -> (r: Result<Vec<T>, BencodeError>)
        ensures
            !(self@ is List) ==> r is Err && r->Err_0 == BencodeError::WrongType,
            self@ is List ==> match r {
                Ok(v) => v@.len() == self@->List_0.len() && forall|i: int|
                    0 <= i < self@->List_0.len() ==> (#[trigger] v@[i]).model() == self@->List_0[i],
                Err(e) => e == BencodeError::WrongType && exists|i: int|
                    0 <= i < self@->List_0.len() && !T::kind_of(#[trigger] self@->List_0[i]),
            },
    {
        match self {
            Value::List(l) => {
                proof {
                    lemma_values_view(l.0@);
                }
                let mut out: Vec<T> = Vec::new();
                let mut i: usize = 0;
                while i < l.0.len()
                    invariant
                        i <= l.0@.len(),
                        self@ == BValue::List(values_view(l.0@)),
                        values_view(l.0@).len() == l.0@.len(),
                        forall|j: int| 0 <= j < l.0@.len() ==> #[trigger] values_view(l.0@)[j] == value_view(l.0@[j]),
                        out@.len() == i,
                        forall|j: int| 0 <= j < i ==> T::kind_of(value_view(l.0@[j])) && (#[trigger] out@[j]).model() == value_view(l.0@[j]),
                    decreases l.0@.len() - i,
                {
                    let item = l.0[i].clone();
                    assert(item@ == value_view(l.0@[i as int]));
                    match T::try_from_value(item) {
                        Ok(t) => out.push(t),
                        Err(e) => {
                            assert(!T::kind_of(values_view(l.0@)[i as int]));
                            assert(self@->List_0 == values_view(l.0@));
                            assert(!T::kind_of(self@->List_0[i as int]));
                            assert(exists|k: int| 0 <= k < self@->List_0.len() && !T::kind_of(#[trigger] self@->List_0[k]));
                            return Err(e);
                        },
                    }
                    i = i + 1;
                }
                assert(self@ == BValue::List(values_view(l.0@)));
                assert(out@.len() == values_view(l.0@).len());
                assert forall|k: int| 0 <= k < self@->List_0.len() implies (#[trigger] out@[k]).model()
                    == self@->List_0[k] by {
                    assert(values_view(l.0@)[k] == value_view(l.0@[k]));
                }
                Ok(out)
            },
            _ => Err(BencodeError::WrongType),
        }
    }

    /// Try getting the value as an integer.
    pub fn as_integer(self) -> (r: Result<isize, BencodeError>)
        ensures
            match self@ {
                BValue::Int(x) => r == Ok::<isize, BencodeError>(x as isize),
                _ => r == Err::<isize, BencodeError>(BencodeError::WrongType),
            },
    {
        match self {
            Value::Integer(integer) => Ok(integer.0),
            _ => Err(BencodeError::WrongType),
        }
    }

    /// Try getting the value as a byte string.
    pub fn as_byte_string(self) -> (r: Result<Vec<u8>, BencodeError>)
        ensures
            match self@ {
                BValue::Bytes(b) => r is Ok && r->Ok_0@ == b,
                _ => r is Err && r->Err_0 == BencodeError::WrongType,
            },
    {
        match self {
            Value::ByteString(byte_string) => Ok(byte_string.0),
            _ => Err(BencodeError::WrongType),
        }
    }

    /// Try getting the value as a list.
    pub fn as_list(self) -> (r: Result<Vec<Value>, BencodeError>)
        ensures
            match self@ {
                BValue::List(l) => r is Ok && values_view(r->Ok_0@) == l,
                _ => r is Err && r->Err_0 == BencodeError::WrongType,
            },
    {
        match self {
            Value::List(list) => Ok(list.0),
            _ => Err(BencodeError::WrongType),
        }
    }

    /// Try getting the value as a dictionary.
    pub fn as_dictionary(self) -> (r: Result<Dictionary, BencodeError>)
        ensures
            match self@ {
                BValue::Dict(d) => r is Ok && r->Ok_0@ == d,
                _ => r is Err && r->Err_0 == BencodeError::WrongType,
            },
    {
        match self {
            Value::Dictionary(dictionary) => Ok(dictionary),
            _ => Err(BencodeError::WrongType),
        }
    }

    /// Try getting the value as a list of byte strings.
    pub fn as_list_of_byte_strings(self) -> (r: Result<Vec<Vec<u8>>, BencodeError>)
        ensures
            match r {
                Ok(v) => self@ matches BValue::List(l) && all_bytes(l) && v@.len() == l.len()
                    && forall|i: int| 0 <= i < l.len() ==> (#[trigger] v@[i])@ == l[i]->Bytes_0,
                Err(e) => e == BencodeError::WrongType && !(self@ matches BValue::List(l) && all_bytes(l)),
            },
    {
        let ghost m = self@;
        match self.as_list_of::<ByteString>() {
            Ok(items) => {
                let mut out: Vec<Vec<u8>> = Vec::new();
                let mut i: usize = 0;
                while i < items.len()
                    invariant
                        i <= items@.len(),
                        out@.len() == i,
                        m is List,
                        items@.len() == m->List_0.len(),
                        forall|j: int| 0 <= j < items@.len() ==> (#[trigger] items@[j]).model() == m->List_0[j],
                        forall|j: int| 0 <= j < i ==> (#[trigger] out@[j])@ == items@[j]@,
                    decreases items@.len() - i,
                {
                    out.push(items[i].0.clone());
                    i = i + 1;
                }
                assert forall|j: int| 0 <= j < m->List_0.len() implies (#[trigger] m->List_0[j]) is Bytes by {
                    assert(items@[j].model() == m->List_0[j]);
                }
                assert forall|j: int| 0 <= j < m->List_0.len() implies (#[trigger] out@[j])@ == m->List_0[j]->Bytes_0 by {
                    assert(items@[j].model() == m->List_0[j]);
                }
                Ok(out)
            },
            Err(e) => Err(e),
        }
    }

    /// Try getting the value as a list of dictionaries.
    pub fn as_list_of_dictionaries(&self) -> (r: Result<Vec<Dictionary>, BencodeError>)
        ensures
            match r {
                Ok(v) => self@ matches BValue::List(l) && all_dicts(l) && v@.len() == l.len()
                    && forall|i: int| 0 <= i < l.len() ==> (#[trigger] v@[i])@ == l[i]->Dict_0,
                Err(e) => e == BencodeError::WrongType && !(self@ matches BValue::List(l) && all_dicts(l)),
            },
    {
        let r = self.clone().as_list_of::<Dictionary>();
        proof {
            if r is Ok {
                let l = self@->List_0;
                assert forall|j: int| 0 <= j < l.len() implies (#[trigger] l[j]) is Dict by {
                    assert(r->Ok_0@[j].model() == l[j]);
                }
                assert forall|j: int| 0 <= j < l.len() implies (#[trigger] r->Ok_0@[j])@ == l[j]->Dict_0 by {
                    assert(r->Ok_0@[j].model() == l[j]);
                }
            }
        }
        r
    }
}

} // verus!
