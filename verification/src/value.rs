use vstd::prelude::*;
use crate::integer::Integer;
use crate::text::str_eq;
use vstd::utf8::encode_utf8;

verus! {

/// A key-value collection that keeps its keys in insertion order and holds
/// each key at most once.  Inserting an existing key replaces its value and
/// leaves the key where it was; inserting a new key appends it.
#[derive(Debug)]
pub struct Object {
    entries: Vec<(String, Value)>,
}

/// A configuration value.
///
/// A float literal is kept as the text it was written with; turning that
/// text into a binary floating-point number is left to the caller.
#[derive(Debug)]
pub enum Value {
    /// A UTF-8 string value.
    String(String),
    /// A 64-bit signed integer (a text gives only values that fit in an `i64`).
    Integer(Integer),
    /// A floating point number, as written in the source.
    Float(String),
    /// A boolean value.
    Boolean(bool),
    /// A key-value collection that preserves insertion order.
    Object(Object),
    /// An ordered collection of values.
    Array(Vec<Value>),
    /// The absence of a value.
    Null,
}

/// The mathematical view of a [`Value`]: strings become character sequences,
/// objects become sequences of key-value pairs in order, arrays sequences.
pub enum SValue {
    String(Seq<char>),
    Integer(Integer),
    Float(Seq<char>),
    Boolean(bool),
    Object(Seq<(Seq<char>, SValue)>),
    Array(Seq<SValue>),
    Null,
}

/// The view of a value.
pub open spec fn value_view(v: Value) -> SValue
    decreases v, 0nat,
{
    match v {
        Value::String(s) => SValue::String(s@),
        Value::Integer(i) => SValue::Integer(i),
        Value::Float(s) => SValue::Float(s@),
        Value::Boolean(b) => SValue::Boolean(b),
        Value::Object(o) => SValue::Object(object_view(o)),
        Value::Array(a) => SValue::Array(values_view(a@)),
        Value::Null => SValue::Null,
    }
}

/// The view of an object: its entries in order.
pub closed spec fn object_view(o: Object) -> Seq<(Seq<char>, SValue)>
    decreases o, 1nat,
{
    entries_view(o.entries@)
}

/// The view of a sequence of key-value pairs.
pub open spec fn entries_view(s: Seq<(String, Value)>) -> Seq<(Seq<char>, SValue)>
    decreases s, 0nat,
{
    if s.len() == 0 {
        seq![]
    } else {
        entries_view(s.drop_last()).push((s.last().0@, value_view(s.last().1)))
    }
}

/// The view of a sequence of values.
pub open spec fn values_view(s: Seq<Value>) -> Seq<SValue>
    decreases s, 0nat,
{
    if s.len() == 0 {
        seq![]
    } else {
        values_view(s.drop_last()).push(value_view(s.last()))
    }
}

impl View for Value {
    type V = SValue;

    open spec fn view(&self) -> SValue {
        value_view(*self)
    }
}

impl View for Object {
    type V = Seq<(Seq<char>, SValue)>;

    open spec fn view(&self) -> Seq<(Seq<char>, SValue)> {
        object_view(*self)
    }
}

/// Viewing a sequence of pairs keeps its length and views each pair.
pub proof fn lemma_entries_view(s: Seq<(String, Value)>)
    ensures
        entries_view(s).len() == s.len(),
        forall|i: int| 0 <= i < s.len() ==> #[trigger] entries_view(s)[i] == (s[i].0@, value_view(s[i].1)),
    decreases s.len(),
{
    if s.len() > 0 {
        lemma_entries_view(s.drop_last());
    }
}

/// Viewing a sequence of values keeps its length and views each value.
pub proof fn lemma_values_view(s: Seq<Value>)
    ensures
        values_view(s).len() == s.len(),
        forall|i: int| 0 <= i < s.len() ==> #[trigger] values_view(s)[i] == value_view(s[i]),
    decreases s.len(),
{
    if s.len() > 0 {
        lemma_values_view(s.drop_last());
    }
}

/// The first position holding `key`, or -1 when no entry has it.
pub open spec fn key_index(s: Seq<(Seq<char>, SValue)>, key: Seq<char>) -> int
    decreases s.len(),
{
    if s.len() == 0 {
        -1
    } else {
        let r = key_index(s.drop_last(), key);
        if r >= 0 {
            r
        } else if s.last().0 == key {
            s.len() - 1
        } else {
            -1
        }
    }
}

/// No key occurs twice.
pub open spec fn keys_distinct(s: Seq<(Seq<char>, SValue)>) -> bool {
    forall|i: int, j: int| 0 <= i < j < s.len() ==> #[trigger] s[i].0 != #[trigger] s[j].0
}

/// The value stored under `key`, if any.
pub open spec fn lookup(s: Seq<(Seq<char>, SValue)>, key: Seq<char>) -> Option<SValue> {
    let i = key_index(s, key);
    if i >= 0 {
        Some(s[i].1)
    } else {
        None
    }
}

/// Inserting a key: an existing key keeps its place and gets the new value,
/// a new key is appended at the end.
pub open spec fn insert_entry(s: Seq<(Seq<char>, SValue)>, key: Seq<char>, v: SValue) -> Seq<
    (Seq<char>, SValue),
> {
    let i = key_index(s, key);
    if i >= 0 {
        s.update(i, (key, v))
    } else {
        s.push((key, v))
    }
}

/// Inserting every entry of `other`, in order.
pub open spec fn extend_entries(s: Seq<(Seq<char>, SValue)>, other: Seq<(Seq<char>, SValue)>) -> Seq<
    (Seq<char>, SValue),
>
    decreases other.len(),
{
    if other.len() == 0 {
        s
    } else {
        let prev = extend_entries(s, other.drop_last());
        insert_entry(prev, other.last().0, other.last().1)
    }
}

/// What `key_index` says: the index holds the key and no earlier one does;
/// -1 means no index holds it.
pub proof fn lemma_key_index(s: Seq<(Seq<char>, SValue)>, key: Seq<char>)
    ensures
        -1 <= key_index(s, key) < s.len(),
        key_index(s, key) >= 0 ==> s[key_index(s, key)].0 == key,
        forall|j: int| 0 <= j < s.len() && j < key_index(s, key) ==> #[trigger] s[j].0 != key,
        key_index(s, key) < 0 ==> forall|j: int| 0 <= j < s.len() ==> #[trigger] s[j].0 != key,
    decreases s.len(),
{
    if s.len() > 0 {
        lemma_key_index(s.drop_last(), key);
        assert forall|j: int| 0 <= j < s.len() - 1 implies s.drop_last()[j] == #[trigger] s[j] by {}
    }
}

/// A key index is found among a prefix as soon as that prefix holds the key.
pub proof fn lemma_key_index_prefix(s: Seq<(Seq<char>, SValue)>, key: Seq<char>, n: int)
    requires
        0 <= n <= s.len(),
    ensures
        key_index(s.take(n), key) >= 0 ==> key_index(s, key) == key_index(s.take(n), key),
        key_index(s.take(n), key) < 0 ==> (key_index(s, key) < 0 || key_index(s, key) >= n),
    decreases s.len() - n,
{
    if n < s.len() {
        lemma_key_index_prefix(s, key, n + 1);
        assert(s.take(n + 1).drop_last() =~= s.take(n));
    } else {
        assert(s.take(n) =~= s);
    }
}

/// `key_index` is determined by where the key first occurs.
pub proof fn lemma_key_index_at(s: Seq<(Seq<char>, SValue)>, key: Seq<char>, i: int)
    requires
        0 <= i < s.len(),
        s[i].0 == key,
        forall|j: int| 0 <= j < i ==> #[trigger] s[j].0 != key,
    ensures
        key_index(s, key) == i,
{
    lemma_key_index(s, key);
}

/// Inserting keeps keys distinct.
pub proof fn lemma_insert_distinct(s: Seq<(Seq<char>, SValue)>, key: Seq<char>, v: SValue)
    requires
        keys_distinct(s),
    ensures
        keys_distinct(insert_entry(s, key, v)),
        lookup(insert_entry(s, key, v), key) == Some(v),
        forall|k: Seq<char>| k != key ==> lookup(insert_entry(s, key, v), k) == lookup(s, k),
{
    lemma_key_index(s, key);
    let t = insert_entry(s, key, v);
    let i = key_index(s, key);
    if i >= 0 {
        assert forall|j: int| 0 <= j < i implies #[trigger] t[j].0 != key by {
            assert(t[j] == s[j]);
        }
        lemma_key_index_at(t, key, i);
    } else {
        assert forall|j: int| 0 <= j < s.len() implies #[trigger] t[j].0 != key by {
            assert(t[j] == s[j]);
        }
        lemma_key_index_at(t, key, s.len() as int);
    }
    lemma_key_index(t, key);
    assert forall|k: Seq<char>| k != key implies lookup(t, k) == lookup(s, k) by {
        lemma_key_index(s, k);
        lemma_key_index(t, k);
        if key_index(s, k) >= 0 {
            assert(t[key_index(s, k)].0 == k);
        }
        if key_index(t, k) >= 0 {
            assert(t[key_index(t, k)].0 == k);
            assert(key_index(t, k) < s.len());
        }
    }
}

/// Reading a key right after inserting it gives the inserted value, whether
/// or not keys repeat.
pub proof fn lemma_lookup_after_insert(s: Seq<(Seq<char>, SValue)>, key: Seq<char>, v: SValue)
    ensures
        lookup(insert_entry(s, key, v), key) == Some(v),
{
    lemma_key_index(s, key);
    let t = insert_entry(s, key, v);
    let i = key_index(s, key);
    if i >= 0 {
        assert forall|j: int| 0 <= j < i implies #[trigger] t[j].0 != key by {
            assert(t[j] == s[j]);
        }
        lemma_key_index_at(t, key, i);
    } else {
        assert forall|j: int| 0 <= j < s.len() implies #[trigger] t[j].0 != key by {
            assert(t[j] == s[j]);
        }
        lemma_key_index_at(t, key, s.len() as int);
    }
}

/// Inserting a key leaves what every other key reads unchanged, whether or not
/// keys repeat.
pub proof fn lemma_lookup_other_after_insert(s: Seq<(Seq<char>, SValue)>, key: Seq<char>, v: SValue, k: Seq<char>)
    requires
        k != key,
    ensures
        lookup(insert_entry(s, key, v), k) == lookup(s, k),
{
    lemma_key_index(s, key);
    lemma_key_index(s, k);
    let t = insert_entry(s, key, v);
    assert forall|j: int| 0 <= j < s.len() implies (#[trigger] t[j]).0 == k <==> s[j].0 == k by {}
    if key_index(s, k) >= 0 {
        let i = key_index(s, k);
        assert(t[i] == s[i]);
        assert forall|j: int| 0 <= j < i implies #[trigger] t[j].0 != k by {
            assert(s[j].0 != k);
        }
        lemma_key_index_at(t, k, i);
    } else {
        lemma_key_index(t, k);
        if key_index(t, k) >= 0 {
            let i = key_index(t, k);
            if i < s.len() {
                assert(s[i].0 == k);
            } else {
                assert(t[i] == (key, v));
            }
        }
    }
}

/// After extending entries with entries whose keys are distinct, every key of
/// the added entries reads the added value, and every other key reads what it
/// read before.
pub proof fn lemma_extend_lookup(s: Seq<(Seq<char>, SValue)>, other: Seq<(Seq<char>, SValue)>)
    requires
        keys_distinct(other),
    ensures
        forall|j: int| 0 <= j < other.len() ==> lookup(extend_entries(s, other), #[trigger] other[j].0) == Some(
            other[j].1,
        ),
        forall|k: Seq<char>|
            (forall|j: int| 0 <= j < other.len() ==> #[trigger] other[j].0 != k) ==> lookup(
                extend_entries(s, other),
                k,
            ) == lookup(s, k),
    decreases other.len(),
{
    if other.len() > 0 {
        let prefix = other.drop_last();
        let last = other.last();
        assert forall|i: int, j: int| 0 <= i < j < prefix.len() implies #[trigger] prefix[i].0 != #[trigger] prefix[j].0 by {
            assert(prefix[i] == other[i] && prefix[j] == other[j]);
        }
        lemma_extend_lookup(s, prefix);
        let prev = extend_entries(s, prefix);
        assert forall|j: int| 0 <= j < other.len() implies lookup(extend_entries(s, other), #[trigger] other[j].0)
            == Some(other[j].1) by {
            if j == other.len() - 1 {
                lemma_lookup_after_insert(prev, last.0, last.1);
            } else {
                assert(other[j] == prefix[j]);
                assert(other[j].0 != other[other.len() - 1].0);
                lemma_lookup_other_after_insert(prev, last.0, last.1, other[j].0);
            }
        }
        assert forall|k: Seq<char>|
            (forall|j: int| 0 <= j < other.len() ==> #[trigger] other[j].0 != k) implies lookup(
                extend_entries(s, other),
                k,
            ) == lookup(s, k) by {
            assert(other[other.len() - 1].0 != k);
            assert forall|j: int| 0 <= j < prefix.len() implies #[trigger] prefix[j].0 != k by {
                assert(prefix[j] == other[j]);
            }
            lemma_lookup_other_after_insert(prev, last.0, last.1, k);
        }
    }
}

/// Inserting keeps the order of the keys: every key stays where it was, and
/// a key that was absent is added after all of them.
pub proof fn lemma_insert_keeps_order(s: Seq<(Seq<char>, SValue)>, key: Seq<char>, v: SValue)
    ensures
        forall|j: int| 0 <= j < s.len() ==> #[trigger] insert_entry(s, key, v)[j].0 == s[j].0,
        lookup(s, key) is Some ==> insert_entry(s, key, v).len() == s.len(),
        lookup(s, key) is None ==> insert_entry(s, key, v).len() == s.len() + 1
            && insert_entry(s, key, v).last() == (key, v),
{
    lemma_key_index(s, key);
}

/// A configuration value as evaluation builds it: every object in it, nested
/// ones included, holds each key at most once, and every integer in it fits
/// in a signed 64-bit integer.
pub open spec fn value_wf(v: SValue) -> bool
    decreases v, 1nat,
{
    match v {
        SValue::Integer(i) => i64::MIN <= i.value() <= i64::MAX,
        SValue::Object(es) => keys_distinct(es) && entry_values_wf(es),
        SValue::Array(vs) => values_wf(vs),
        _ => true,
    }
}

/// Every value of the entries satisfies [`value_wf`].
pub open spec fn entry_values_wf(es: Seq<(Seq<char>, SValue)>) -> bool
    decreases es, 0nat,
{
    if es.len() == 0 {
        true
    } else {
        entry_values_wf(es.drop_last()) && value_wf(es.last().1)
    }
}

/// Every value of the sequence satisfies [`value_wf`].
pub open spec fn values_wf(vs: Seq<SValue>) -> bool
    decreases vs, 0nat,
{
    if vs.len() == 0 {
        true
    } else {
        values_wf(vs.drop_last()) && value_wf(vs.last())
    }
}

/// [`entry_values_wf`] holds exactly when each value satisfies [`value_wf`].
pub proof fn lemma_entry_values_wf(es: Seq<(Seq<char>, SValue)>)
    ensures
        entry_values_wf(es) <==> forall|i: int| 0 <= i < es.len() ==> #[trigger] value_wf(es[i].1),
    decreases es.len(),
{
    if es.len() > 0 {
        lemma_entry_values_wf(es.drop_last());
        if forall|i: int| 0 <= i < es.len() ==> #[trigger] value_wf(es[i].1) {
            assert forall|i: int| 0 <= i < es.drop_last().len() implies #[trigger] value_wf(es.drop_last()[i].1) by {
                assert(es.drop_last()[i] == es[i]);
            }
            assert(value_wf(es[es.len() - 1].1));
        }
        if entry_values_wf(es) {
            assert forall|i: int| 0 <= i < es.len() implies #[trigger] value_wf(es[i].1) by {
                if i < es.len() - 1 {
                    assert(es.drop_last()[i] == es[i]);
                }
            }
        }
    }
}

/// [`values_wf`] holds exactly when each value satisfies [`value_wf`].
pub proof fn lemma_values_wf(vs: Seq<SValue>)
    ensures
        values_wf(vs) <==> forall|i: int| 0 <= i < vs.len() ==> #[trigger] value_wf(vs[i]),
    decreases vs.len(),
{
    if vs.len() > 0 {
        lemma_values_wf(vs.drop_last());
        if forall|i: int| 0 <= i < vs.len() ==> #[trigger] value_wf(vs[i]) {
            assert forall|i: int| 0 <= i < vs.drop_last().len() implies #[trigger] value_wf(vs.drop_last()[i]) by {
                assert(vs.drop_last()[i] == vs[i]);
            }
            assert(value_wf(vs[vs.len() - 1]));
        }
        if values_wf(vs) {
            assert forall|i: int| 0 <= i < vs.len() implies #[trigger] value_wf(vs[i]) by {
                if i < vs.len() - 1 {
                    assert(vs.drop_last()[i] == vs[i]);
                }
            }
        }
    }
}

/// Inserting a well-formed value into well-formed entries keeps them well formed.
pub proof fn lemma_insert_value_wf(s: Seq<(Seq<char>, SValue)>, key: Seq<char>, v: SValue)
    requires
        value_wf(SValue::Object(s)),
        value_wf(v),
    ensures
        value_wf(SValue::Object(insert_entry(s, key, v))),
{
    lemma_entry_values_wf(s);
    lemma_insert_distinct(s, key, v);
    lemma_key_index(s, key);
    let t = insert_entry(s, key, v);
    assert forall|j: int| 0 <= j < t.len() implies #[trigger] value_wf(t[j].1) by {
        if j < s.len() && t[j] != s[j] {
            assert(t[j].1 == v);
        } else if j < s.len() {
            assert(value_wf(s[j].1));
        }
    }
    lemma_entry_values_wf(t);
}

/// Extending well-formed entries with well-formed entries keeps them well formed.
pub proof fn lemma_extend_value_wf(s: Seq<(Seq<char>, SValue)>, other: Seq<(Seq<char>, SValue)>)
    requires
        value_wf(SValue::Object(s)),
        value_wf(SValue::Object(other)),
    ensures
        value_wf(SValue::Object(extend_entries(s, other))),
    decreases other.len(),
{
    if other.len() > 0 {
        let prefix = other.drop_last();
        assert forall|i: int, j: int| 0 <= i < j < prefix.len() implies #[trigger] prefix[i].0 != #[trigger] prefix[j].0 by {
            assert(prefix[i] == other[i] && prefix[j] == other[j]);
        }
        lemma_extend_value_wf(s, prefix);
        lemma_insert_value_wf(extend_entries(s, prefix), other.last().0, other.last().1);
    }
}

impl Object {
    /// The entries are keyed uniquely.
    pub open spec fn wf(&self) -> bool {
        keys_distinct(self@)
    }

    /// An empty object.
    pub fn new() -> (o: Object)
        ensures
            o@ == Seq::<(Seq<char>, SValue)>::empty(),
            o.wf(),
    {
        Object { entries: Vec::new() }
    }

    /// The number of entries.
    pub fn len(&self) -> (n: usize)
        ensures
            n == self@.len(),
    {
        proof {
            lemma_entries_view(self.entries@);
        }
        self.entries.len()
    }

    /// Whether the object has no entries.
    pub fn is_empty(&self) -> (b: bool)
        ensures
            b == (self@.len() == 0),
    {
        proof {
            lemma_entries_view(self.entries@);
        }
        self.entries.len() == 0
    }

    /// The position of `key`, if present.
    pub fn index_of(&self, key: &str) -> (r: Option<usize>)
        ensures
            match r {
                Some(i) => i == key_index(self@, key@),
                None => key_index(self@, key@) < 0,
            },
    {
        proof {
            lemma_entries_view(self.entries@);
        }
        let ghost s = self@;
        let mut i: usize = 0;
        while i < self.entries.len()
            invariant
                i <= self.entries@.len(),
                s == self@,
                s.len() == self.entries@.len(),
                forall|j: int| 0 <= j < s.len() ==> #[trigger] s[j] == (self.entries@[j].0@, value_view(self.entries@[j].1)),
                key_index(s.take(i as int), key@) < 0,
            decreases self.entries@.len() - i,
        {
            let ghost t = s.take(i + 1);
            proof {
                assert(t.drop_last() =~= s.take(i as int));
            }
            if str_eq(self.entries[i].0.as_str(), key) {
                proof {
                    lemma_key_index_prefix(s, key@, i + 1);
                }
                return Some(i);
            }
            i = i + 1;
        }
        proof {
            assert(s.take(i as int) =~= s);
        }
        None
    }

    /// The value stored under `key`, if any.
    pub fn get(&self, key: &str) -> (r: Option<&Value>)
        ensures
            match r {
                Some(v) => lookup(self@, key@) == Some(v@),
                None => lookup(self@, key@) is None,
            },
    {
        proof {
            lemma_entries_view(self.entries@);
            lemma_key_index(self@, key@);
        }
        match self.index_of(key) {
            Some(i) => Some(&self.entries[i].1),
            None => None,
        }
    }

    /// The key and value at position `index`, if in range.
    pub fn get_index(&self, index: usize) -> (r: Option<(&String, &Value)>)
        ensures
            match r {
                Some((k, v)) => index < self@.len() && self@[index as int] == (k@, v@),
                None => index >= self@.len(),
            },
    {
        proof {
            lemma_entries_view(self.entries@);
        }
        if index < self.entries.len() {
            let e = &self.entries[index];
            Some((&e.0, &e.1))
        } else {
            None
        }
    }

    /// Stores `value` under `key`; an existing key keeps its place.
    /// Returns the value that was stored under `key` before, if any.
    pub fn insert(&mut self, key: String, value: Value) -> (r: Option<Value>)
        ensures
            final(self)@ == insert_entry(old(self)@, key@, value@),
            match r {
                Some(v) => lookup(old(self)@, key@) == Some(v@),
                None => lookup(old(self)@, key@) is None,
            },
            old(self).wf() ==> final(self).wf(),
    {
        proof {
            lemma_entries_view(self.entries@);
            lemma_key_index(self@, key@);
            if old(self).wf() {
                lemma_insert_distinct(old(self)@, key@, value@);
            }
        }
        match self.index_of(key.as_str()) {
            Some(i) => {
                let mut pair = (key, value);
                self.entries.set_and_swap(i, &mut pair);
                proof {
                    lemma_entries_view(self.entries@);
                    assert(self@ =~= insert_entry(old(self)@, key@, value@));
                }
                Some(pair.1)
            },
            None => {
                self.entries.push((key, value));
                proof {
                    lemma_entries_view(self.entries@);
                    assert(self@ =~= insert_entry(old(self)@, key@, value@));
                }
                None
            },
        }
    }

    /// Inserts every entry of `other`, in order.
    pub fn extend(&mut self, other: Object)
        ensures
            final(self)@ == extend_entries(old(self)@, other@),
            old(self).wf() ==> final(self).wf(),
            other.wf() ==> forall|j: int|
                0 <= j < other@.len() ==> lookup(final(self)@, #[trigger] other@[j].0) == Some(other@[j].1),
    {
        proof {
            if other.wf() {
                lemma_extend_lookup(self@, other@);
            }
        }
        let ghost start = self@;
        let ghost es = other.entries@;
        proof {
            lemma_entries_view(es);
        }
        for pair in it: other.entries.into_iter()
            invariant
                it.seq() == es,
                entries_view(es).len() == es.len(),
                forall|j: int| 0 <= j < es.len() ==> #[trigger] entries_view(es)[j] == (es[j].0@, value_view(es[j].1)),
                self@ == extend_entries(start, entries_view(es).take(it.index() as int)),
                old(self).wf() ==> self.wf(),
        {
            let ghost k = it.index();
            proof {
                let o = entries_view(es);
                assert(o.take(k + 1).drop_last() =~= o.take(k as int));
                assert(o.take(k + 1).last() == o[k as int]);
            }
            self.insert(pair.0, pair.1);
        }
        proof {
            assert(entries_view(es).take(es.len() as int) =~= entries_view(es));
        }
    }

    /// The position and value stored under `key`, taken out of the object
    /// (the entry keeps its key and holds `Value::Null` until put back).
    pub fn take_at(&mut self, index: usize) -> (r: Value)
        requires
            index < old(self)@.len(),
        ensures
            r@ == old(self)@[index as int].1,
            final(self)@ == old(self)@.update(index as int, (old(self)@[index as int].0, SValue::Null)),
            old(self).wf() ==> final(self).wf(),
    {
        proof {
            lemma_entries_view(self.entries@);
        }
        let key = self.entries[index].0.clone();
        let mut pair = (key, Value::Null);
        self.entries.set_and_swap(index, &mut pair);
        proof {
            lemma_entries_view(self.entries@);
            assert(self@ =~= old(self)@.update(index as int, (old(self)@[index as int].0, SValue::Null)));
        }
        pair.1
    }

    /// Puts `value` at position `index`, keeping the key there.
    pub fn put_at(&mut self, index: usize, value: Value)
        requires
            index < old(self)@.len(),
        ensures
            final(self)@ == old(self)@.update(index as int, (old(self)@[index as int].0, value@)),
            old(self).wf() ==> final(self).wf(),
    {
        proof {
            lemma_entries_view(self.entries@);
        }
        let key = self.entries[index].0.clone();
        self.entries.set(index, (key, value));
        proof {
            lemma_entries_view(self.entries@);
            assert(self@ =~= old(self)@.update(index as int, (old(self)@[index as int].0, value@)));
        }
    }

    /// The entries, in order.
    pub fn into_entries(self) -> (v: Vec<(String, Value)>)
        ensures
            entries_view(v@) == self@,
    {
        self.entries
    }
}

impl Value {
    /// Whether the value is a string.
    pub fn is_string(&self) -> (b: bool)
        ensures
            b == (*self is String),
    {
        matches!(self, Value::String(_))
    }

    /// Whether the value is an integer.
    pub fn is_integer(&self) -> (b: bool)
        ensures
            b == (*self is Integer),
    {
        matches!(self, Value::Integer(_))
    }

    /// Whether the value is a float.
    pub fn is_float(&self) -> (b: bool)
        ensures
            b == (*self is Float),
    {
        matches!(self, Value::Float(_))
    }

    /// Whether the value is a boolean.
    pub fn is_boolean(&self) -> (b: bool)
        ensures
            b == (*self is Boolean),
    {
        matches!(self, Value::Boolean(_))
    }

    /// Whether the value is an object.
    pub fn is_object(&self) -> (b: bool)
        ensures
            b == (*self is Object),
    {
        matches!(self, Value::Object(_))
    }

    /// Whether the value is an array.
    pub fn is_array(&self) -> (b: bool)
        ensures
            b == (*self is Array),
    {
        matches!(self, Value::Array(_))
    }

    /// Whether the value is null.
    pub fn is_null(&self) -> (b: bool)
        ensures
            b == (*self is Null),
    {
        matches!(self, Value::Null)
    }

    /// The string, if the value is one.
    pub fn as_string(&self) -> (r: Option<&String>)
        ensures
            r is Some == (*self is String),
            r matches Some(x) ==> *self == Value::String(*x),
    {
        match self {
            Value::String(s) => Some(s),
            _ => None,
        }
    }

    /// The integer, if the value is one.
    pub fn as_integer(&self) -> (r: Option<&Integer>)
        ensures
            r is Some == (*self is Integer),
            r matches Some(x) ==> *self == Value::Integer(*x),
    {
        match self {
            Value::Integer(i) => Some(i),
            _ => None,
        }
    }

    /// The text of the float, if the value is one.
    pub fn as_float(&self) -> (r: Option<&String>)
        ensures
            r is Some == (*self is Float),
            r matches Some(x) ==> *self == Value::Float(*x),
    {
        match self {
            Value::Float(f) => Some(f),
            _ => None,
        }
    }

    /// The boolean, if the value is one.
    pub fn as_boolean(&self) -> (r: Option<&bool>)
        ensures
            r is Some == (*self is Boolean),
            r matches Some(x) ==> *self == Value::Boolean(*x),
    {
        match self {
            Value::Boolean(b) => Some(b),
            _ => None,
        }
    }

    /// The object, if the value is one.
    pub fn as_object(&self) -> (r: Option<&Object>)
        ensures
            r is Some == (*self is Object),
            r matches Some(x) ==> *self == Value::Object(*x),
    {
        match self {
            Value::Object(o) => Some(o),
            _ => None,
        }
    }

    /// The array, if the value is one.
    pub fn as_array(&self) -> (r: Option<&Vec<Value>>)
        ensures
            r is Some == (*self is Array),
            r matches Some(x) ==> *self == Value::Array(*x),
    {
        match self {
            Value::Array(a) => Some(a),
            _ => None,
        }
    }

    /// The string, for changing in place, if the value is one.
    pub fn as_string_mut(&mut self) -> (r: Option<&mut String>)
        ensures
            r is Some == (*old(self) is String),
            r matches Some(x) ==> *old(self) == Value::String(*x) && *final(self) == Value::String(*final(x)),
            r is None ==> *final(self) == *old(self),
    {
        match self {
            Value::String(s) => Some(s),
            _ => None,
        }
    }

    /// The integer, for changing in place, if the value is one.
    pub fn as_integer_mut(&mut self) -> (r: Option<&mut Integer>)
        ensures
            r is Some == (*old(self) is Integer),
            r matches Some(x) ==> *old(self) == Value::Integer(*x) && *final(self) == Value::Integer(*final(x)),
            r is None ==> *final(self) == *old(self),
    {
        match self {
            Value::Integer(x) => Some(x),
            _ => None,
        }
    }

    /// The text of the float, for changing in place, if the value is one.
    pub fn as_float_mut(&mut self) -> (r: Option<&mut String>)
        ensures
            r is Some == (*old(self) is Float),
            r matches Some(x) ==> *old(self) == Value::Float(*x) && *final(self) == Value::Float(*final(x)),
            r is None ==> *final(self) == *old(self),
    {
        match self {
            Value::Float(x) => Some(x),
            _ => None,
        }
    }

    /// The boolean, for changing in place, if the value is one.
    pub fn as_boolean_mut(&mut self) -> (r: Option<&mut bool>)
        ensures
            r is Some == (*old(self) is Boolean),
            r matches Some(x) ==> *old(self) == Value::Boolean(*x) && *final(self) == Value::Boolean(*final(x)),
            r is None ==> *final(self) == *old(self),
    {
        match self {
            Value::Boolean(x) => Some(x),
            _ => None,
        }
    }

    /// The object, for changing in place, if the value is one.
    pub fn as_object_mut(&mut self) -> (r: Option<&mut Object>)
        ensures
            r is Some == (*old(self) is Object),
            r matches Some(x) ==> *old(self) == Value::Object(*x) && *final(self) == Value::Object(*final(x)),
            r is None ==> *final(self) == *old(self),
    {
        match self {
            Value::Object(x) => Some(x),
            _ => None,
        }
    }

    /// The array, for changing in place, if the value is one.
    pub fn as_array_mut(&mut self) -> (r: Option<&mut Vec<Value>>)
        ensures
            r is Some == (*old(self) is Array),
            r matches Some(x) ==> *old(self) == Value::Array(*x) && *final(self) == Value::Array(*final(x)),
            r is None ==> *final(self) == *old(self),
    {
        match self {
            Value::Array(x) => Some(x),
            _ => None,
        }
    }

    /// The string, if the value is one.
    pub fn take_string(self) -> (r: Option<String>)
        ensures
            r is Some == (self is String),
            r matches Some(x) ==> self == Value::String(x),
    {
        match self {
            Value::String(s) => Some(s),
            _ => None,
        }
    }

    /// The integer, if the value is one.
    pub fn take_integer(self) -> (r: Option<Integer>)
        ensures
            r is Some == (self is Integer),
            r matches Some(x) ==> self == Value::Integer(x),
    {
        match self {
            Value::Integer(i) => Some(i),
            _ => None,
        }
    }

    /// The text of the float, if the value is one.
    pub fn take_float(self) -> (r: Option<String>)
        ensures
            r is Some == (self is Float),
            r matches Some(x) ==> self == Value::Float(x),
    {
        match self {
            Value::Float(f) => Some(f),
            _ => None,
        }
    }

    /// The boolean, if the value is one.
    pub fn take_boolean(self) -> (r: Option<bool>)
        ensures
            r is Some == (self is Boolean),
            r matches Some(x) ==> self == Value::Boolean(x),
    {
        match self {
            Value::Boolean(b) => Some(b),
            _ => None,
        }
    }

    /// The object, if the value is one.
    pub fn take_object(self) -> (r: Option<Object>)
        ensures
            r is Some == (self is Object),
            r matches Some(x) ==> self == Value::Object(x),
    {
        match self {
            Value::Object(o) => Some(o),
            _ => None,
        }
    }

    /// The array, if the value is one.
    pub fn take_array(self) -> (r: Option<Vec<Value>>)
        ensures
            r is Some == (self is Array),
            r matches Some(x) ==> self == Value::Array(x),
    {
        match self {
            Value::Array(a) => Some(a),
            _ => None,
        }
    }

    /// Whether the value is empty: an empty string, object or array, or null.
    pub fn is_empty(&self) -> (b: bool)
        ensures
            b == value_is_empty(self@),
    {
        match self {
            Value::String(s) => s.as_str().is_empty(),
            Value::Object(o) => o.is_empty(),
            Value::Array(a) => {
                proof {
                    lemma_values_view(a@);
                }
                a.len() == 0
            },
            Value::Null => true,
            _ => false,
        }
    }

    /// The number of elements: bytes of a string, entries of an object,
    /// elements of an array, and 0 for everything else.
    pub fn len(&self) -> (n: usize)
        ensures
            n as int == value_len(self@),
    {
        match self {
            Value::String(s) => s.as_str().as_bytes().len(),
            Value::Object(o) => o.len(),
            Value::Array(a) => {
                proof {
                    lemma_values_view(a@);
                }
                a.len()
            },
            _ => 0,
        }
    }

    /// The value under `key`, if this is an object holding that key.
    pub fn get(&self, key: &str) -> (r: Option<&Value>)
        ensures
            match self@ {
                SValue::Object(o) => match r {
                    Some(v) => lookup(o, key@) == Some(v@),
                    None => lookup(o, key@) is None,
                },
                _ => r is None,
            },
    {
        match self {
            Value::Object(o) => o.get(key),
            _ => None,
        }
    }

    /// The element at `index`, if this is an array that long.
    pub fn get_index(&self, index: usize) -> (r: Option<&Value>)
        ensures
            match self@ {
                SValue::Array(a) => match r {
                    Some(v) => index < a.len() && a[index as int] == v@,
                    None => index >= a.len(),
                },
                _ => r is None,
            },
    {
        match self {
            Value::Array(a) => {
                proof {
                    lemma_values_view(a@);
                }
                if index < a.len() {
                    Some(&a[index])
                } else {
                    None
                }
            },
            _ => None,
        }
    }
}

/// A string has no bytes exactly when it has no characters.
pub proof fn lemma_byte_length_zero(s: Seq<char>)
    ensures
        (encode_utf8(s).len() == 0) == (s.len() == 0),
{
    if s.len() > 0 {
        assert(vstd::utf8::encode_scalar(s[0] as u32).len() >= 1);
    }
}

/// An empty value: an empty string, object or array, or null.
pub open spec fn value_is_empty(v: SValue) -> bool {
    match v {
        SValue::String(s) => s.len() == 0,
        SValue::Object(o) => o.len() == 0,
        SValue::Array(a) => a.len() == 0,
        SValue::Null => true,
        _ => false,
    }
}

/// The number of elements: bytes of a string, entries of an object,
/// elements of an array, and 0 for everything else.
pub open spec fn value_len(v: SValue) -> int {
    match v {
        SValue::String(s) => encode_utf8(s).len() as int,
        SValue::Object(o) => o.len() as int,
        SValue::Array(a) => a.len() as int,
        _ => 0,
    }
}

/// An empty value has no elements; a string, object or array without
/// elements is empty.
pub proof fn lemma_empty_iff_no_elements(v: SValue)
    ensures
        value_is_empty(v) ==> value_len(v) == 0,
        (v is String || v is Object || v is Array) ==> (value_is_empty(v) == (value_len(v) == 0)),
{
    if let SValue::String(s) = v {
        lemma_byte_length_zero(s);
    }
}

} // verus!
