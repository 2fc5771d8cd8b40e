//! The value model: the tagged union that is decoded into and encoded from.
use vstd::prelude::*;
use vstd::utf8::*;
use core::cmp::Ordering;

verus! {

broadcast use vstd::std_specs::vec::group_vec_axioms;

/// A decoded or encodable value.
///
/// The entries of a `Mapping` are kept in ascending order of their keys' UTF-8
/// bytes, each key once; `insert_entry` keeps that order.
#[derive(Debug, PartialEq, Eq)]
pub enum Value {
    Null,
    Int(u32),
    Bytes(Vec<u8>),
    String(String),
    Array(Vec<Value>),
    Mapping(Vec<(String, Value)>),
}

/// The mathematical content of a `Value`.
pub enum ValueModel {
    Null,
    Int(u32),
    Bytes(Seq<u8>),
    Text(Seq<char>),
    Array(Seq<ValueModel>),
    Mapping(Seq<(Seq<char>, ValueModel)>),
}

pub open spec fn model_of(v: Value) -> ValueModel
    decreases v,
{
    match v {
        Value::Null => ValueModel::Null,
        Value::Int(n) => ValueModel::Int(n),
        Value::Bytes(b) => ValueModel::Bytes(b@),
        Value::String(s) => ValueModel::Text(s@),
        Value::Array(items) => ValueModel::Array(model_of_items(items@)),
        Value::Mapping(entries) => ValueModel::Mapping(model_of_entries(entries@)),
    }
}

pub open spec fn model_of_items(items: Seq<Value>) -> Seq<ValueModel>
    decreases items,
{
    if items.len() == 0 {
        Seq::empty()
    } else {
        seq![model_of(items[0])] + model_of_items(items.drop_first())
    }
}

pub open spec fn model_of_entries(entries: Seq<(String, Value)>) -> Seq<(Seq<char>, ValueModel)>
    decreases entries,
{
    if entries.len() == 0 {
        Seq::empty()
    } else {
        seq![(entries[0].0@, model_of(entries[0].1))] + model_of_entries(entries.drop_first())
    }
}

impl View for Value {
    type V = ValueModel;

    open spec fn view(&self) -> ValueModel {
        model_of(*self)
    }
}

/// Strict lexicographic order on byte sequences (a proper prefix comes first).
pub open spec fn bytes_lt(a: Seq<u8>, b: Seq<u8>) -> bool
    decreases a.len(),
{
    if b.len() == 0 {
        false
    } else if a.len() == 0 {
        true
    } else if a[0] != b[0] {
        a[0] < b[0]
    } else {
        bytes_lt(a.drop_first(), b.drop_first())
    }
}

/// The order of map keys: that of their UTF-8 bytes.
pub open spec fn key_lt(a: Seq<char>, b: Seq<char>) -> bool {
    bytes_lt(encode_utf8(a), encode_utf8(b))
}

/// Keys strictly ascending: sorted, each key once.
pub open spec fn keys_ascending(m: Seq<(Seq<char>, ValueModel)>) -> bool {
    forall|i: int, j: int| 0 <= i < j < m.len() ==> key_lt(#[trigger] m[i].0, #[trigger] m[j].0)
}

/// Every map inside `v`, at any depth, has its keys strictly ascending.
pub open spec fn well_formed(v: ValueModel) -> bool
    decreases v,
{
    match v {
        ValueModel::Array(items) => well_formed_items(items),
        ValueModel::Mapping(m) => keys_ascending(m) && well_formed_entries(m),
        _ => true,
    }
}

pub open spec fn well_formed_items(items: Seq<ValueModel>) -> bool
    decreases items,
{
    items.len() == 0 || (well_formed(items[0]) && well_formed_items(items.drop_first()))
}

pub open spec fn well_formed_entries(m: Seq<(Seq<char>, ValueModel)>) -> bool
    decreases m,
{
    m.len() == 0 || (well_formed(m[0].1) && well_formed_entries(m.drop_first()))
}

pub proof fn lemma_bytes_lt_asymmetric(a: Seq<u8>, b: Seq<u8>)
    ensures
        !(bytes_lt(a, b) && bytes_lt(b, a)),
    decreases a.len(),
{
    if a.len() > 0 && b.len() > 0 && a[0] == b[0] {
        lemma_bytes_lt_asymmetric(a.drop_first(), b.drop_first());
    }
}

pub proof fn lemma_bytes_lt_transitive(a: Seq<u8>, b: Seq<u8>, c: Seq<u8>)
    requires
        bytes_lt(a, b),
        bytes_lt(b, c),
    ensures
        bytes_lt(a, c),
    decreases a.len(),
{
    if a.len() > 0 && a[0] == b[0] && b[0] == c[0] {
        lemma_bytes_lt_transitive(a.drop_first(), b.drop_first(), c.drop_first());
    }
}

pub proof fn lemma_bytes_lt_total(a: Seq<u8>, b: Seq<u8>)
    requires
        a != b,
    ensures
        bytes_lt(a, b) || bytes_lt(b, a),
    decreases a.len(),
{
    if a.len() > 0 && b.len() > 0 && a[0] == b[0] {
        if a.drop_first() == b.drop_first() {
            assert(a =~= seq![a[0]] + a.drop_first());
            assert(b =~= seq![b[0]] + b.drop_first());
        } else {
            lemma_bytes_lt_total(a.drop_first(), b.drop_first());
        }
    } else if a.len() == 0 && b.len() == 0 {
        assert(a =~= b);
    }
}

/// Map keys are totally ordered: of two different keys, one comes first.
pub proof fn lemma_key_order(a: Seq<char>, b: Seq<char>, c: Seq<char>)
    ensures
        !(key_lt(a, b) && key_lt(b, a)),
        !key_lt(a, a),
        a != b ==> key_lt(a, b) || key_lt(b, a),
        key_lt(a, b) && key_lt(b, c) ==> key_lt(a, c),
{
    lemma_bytes_lt_asymmetric(encode_utf8(a), encode_utf8(b));
    lemma_bytes_lt_asymmetric(encode_utf8(a), encode_utf8(a));
    if a != b {
        vstd::utf8::encode_utf8_decode_utf8(a);
        vstd::utf8::encode_utf8_decode_utf8(b);
        lemma_bytes_lt_total(encode_utf8(a), encode_utf8(b));
    }
    if key_lt(a, b) && key_lt(b, c) {
        lemma_bytes_lt_transitive(encode_utf8(a), encode_utf8(b), encode_utf8(c));
    }
}

/// The content of map entries as a mathematical map.
pub open spec fn entries_map(m: Seq<(Seq<char>, ValueModel)>) -> Map<Seq<char>, ValueModel>
    decreases m.len(),
{
    if m.len() == 0 {
        Map::empty()
    } else {
        entries_map(m.drop_first()).insert(m[0].0, m[0].1)
    }
}

/// The entries with `(k, v)` put in: it replaces the entry of an equal key,
/// or goes just before the first entry with a greater key.
pub open spec fn map_insert(
    m: Seq<(Seq<char>, ValueModel)>,
    k: Seq<char>,
    v: ValueModel,
) -> Seq<(Seq<char>, ValueModel)>
    decreases m.len(),
{
    if m.len() == 0 {
        seq![(k, v)]
    } else if m[0].0 == k {
        seq![(k, v)] + m.drop_first()
    } else if key_lt(k, m[0].0) {
        seq![(k, v)] + m
    } else {
        seq![m[0]] + map_insert(m.drop_first(), k, v)
    }
}

proof fn lemma_map_insert_bound(
    m: Seq<(Seq<char>, ValueModel)>,
    k: Seq<char>,
    v: ValueModel,
    b: Seq<char>,
)
    requires
        key_lt(b, k),
        forall|i: int| 0 <= i < m.len() ==> key_lt(b, #[trigger] m[i].0),
    ensures
        forall|j: int|
            0 <= j < map_insert(m, k, v).len() ==> key_lt(b, #[trigger] map_insert(m, k, v)[j].0),
    decreases m.len(),
{
    let r = map_insert(m, k, v);
    if m.len() == 0 {
    } else if m[0].0 == k {
        assert forall|j: int| 0 <= j < r.len() implies key_lt(b, #[trigger] r[j].0) by {
            if j > 0 {
                assert(r[j] == m[j]);
            }
        }
    } else if key_lt(k, m[0].0) {
        assert forall|j: int| 0 <= j < r.len() implies key_lt(b, #[trigger] r[j].0) by {
            if j > 0 {
                assert(r[j] == m[j - 1]);
            }
        }
    } else {
        let rest = m.drop_first();
        assert forall|i: int| 0 <= i < rest.len() implies key_lt(b, #[trigger] rest[i].0) by {
            assert(rest[i] == m[i + 1]);
        }
        lemma_map_insert_bound(rest, k, v, b);
        let r2 = map_insert(rest, k, v);
        assert forall|j: int| 0 <= j < r.len() implies key_lt(b, #[trigger] r[j].0) by {
            if j > 0 {
                assert(r[j] == r2[j - 1]);
            }
        }
    }
}

/// Putting an entry into ascending entries keeps them ascending, and the
/// content becomes the old content with `k` mapped to `v`.
pub proof fn lemma_map_insert(m: Seq<(Seq<char>, ValueModel)>, k: Seq<char>, v: ValueModel)
    requires
        keys_ascending(m),
    ensures
        keys_ascending(map_insert(m, k, v)),
        entries_map(map_insert(m, k, v)) == entries_map(m).insert(k, v),
    decreases m.len(),
{
    let r = map_insert(m, k, v);
    reveal_with_fuel(entries_map, 2);
    if m.len() == 0 {
        assert(r.drop_first() =~= Seq::<(Seq<char>, ValueModel)>::empty());
        assert(entries_map(r) =~= entries_map(m).insert(k, v));
    } else if m[0].0 == k {
        let rest = m.drop_first();
        assert(r.drop_first() =~= rest);
        assert forall|i: int, j: int| 0 <= i < j < r.len() implies key_lt(
            #[trigger] r[i].0,
            #[trigger] r[j].0,
        ) by {
            assert(r[j] == m[j]);
            if i > 0 {
                assert(r[i] == m[i]);
            }
        }
        assert(entries_map(r) =~= entries_map(m).insert(k, v));
    } else if key_lt(k, m[0].0) {
        assert(r.drop_first() =~= m);
        assert forall|i: int, j: int| 0 <= i < j < r.len() implies key_lt(
            #[trigger] r[i].0,
            #[trigger] r[j].0,
        ) by {
            assert(r[j] == m[j - 1]);
            if i > 0 {
                assert(r[i] == m[i - 1]);
            } else if j > 1 {
                lemma_key_order(k, m[0].0, m[j - 1].0);
            }
        }
        assert(entries_map(r) =~= entries_map(m).insert(k, v));
    } else {
        let rest = m.drop_first();
        lemma_key_order(k, m[0].0, k);
        assert(key_lt(m[0].0, k));
        assert forall|i: int, j: int| 0 <= i < j < rest.len() implies key_lt(
            #[trigger] rest[i].0,
            #[trigger] rest[j].0,
        ) by {
            assert(rest[i] == m[i + 1] && rest[j] == m[j + 1]);
        }
        assert forall|i: int| 0 <= i < rest.len() implies key_lt(m[0].0, #[trigger] rest[i].0) by {
            assert(rest[i] == m[i + 1]);
        }
        lemma_map_insert(rest, k, v);
        lemma_map_insert_bound(rest, k, v, m[0].0);
        let r2 = map_insert(rest, k, v);
        assert(r.drop_first() =~= r2);
        assert forall|i: int, j: int| 0 <= i < j < r.len() implies key_lt(
            #[trigger] r[i].0,
            #[trigger] r[j].0,
        ) by {
            assert(r[j] == r2[j - 1]);
            if i > 0 {
                assert(r[i] == r2[i - 1]);
            }
        }
        assert(entries_map(r) =~= entries_map(m).insert(k, v));
    }
}

proof fn lemma_entries_map_key(m: Seq<(Seq<char>, ValueModel)>, key: Seq<char>) -> (i: int)
    requires
        entries_map(m).contains_key(key),
    ensures
        0 <= i < m.len(),
        m[i].0 == key,
    decreases m.len(),
{
    if m[0].0 == key {
        0
    } else {
        let i = lemma_entries_map_key(m.drop_first(), key);
        i + 1
    }
}

/// Ascending entries are fixed by their content: two with the same content
/// are the same sequence.
pub proof fn lemma_ascending_entries_unique(
    m1: Seq<(Seq<char>, ValueModel)>,
    m2: Seq<(Seq<char>, ValueModel)>,
)
    requires
        keys_ascending(m1),
        keys_ascending(m2),
        entries_map(m1) == entries_map(m2),
    ensures
        m1 == m2,
    decreases m1.len(),
{
    if m1.len() == 0 || m2.len() == 0 {
        if m1.len() > 0 {
            assert(entries_map(m1).contains_key(m1[0].0));
        }
        if m2.len() > 0 {
            assert(entries_map(m2).contains_key(m2[0].0));
        }
        assert(m1 =~= m2);
    } else {
        let k1 = m1[0].0;
        let k2 = m2[0].0;
        assert(entries_map(m1).contains_key(k1));
        assert(entries_map(m2).contains_key(k2));
        let j = lemma_entries_map_key(m2, k1);
        let i = lemma_entries_map_key(m1, k2);
        lemma_key_order(k1, k2, k1);
        if k1 != k2 {
            assert(key_lt(k2, m2[j].0));
            assert(key_lt(k1, m1[i].0));
        }
        let t1 = m1.drop_first();
        let t2 = m2.drop_first();
        if entries_map(t1).contains_key(k1) {
            let x = lemma_entries_map_key(t1, k1);
            assert(m1[x + 1] == t1[x]);
            lemma_key_order(k1, k1, k1);
        }
        if entries_map(t2).contains_key(k2) {
            let x = lemma_entries_map_key(t2, k2);
            assert(m2[x + 1] == t2[x]);
            lemma_key_order(k2, k2, k2);
        }
        assert(entries_map(t1) =~= entries_map(m1).remove(k1));
        assert(entries_map(t2) =~= entries_map(m2).remove(k2));
        assert(m1[0].1 == entries_map(m1)[k1]);
        assert(m2[0].1 == entries_map(m2)[k2]);
        assert forall|a: int, b: int| 0 <= a < b < t1.len() implies key_lt(
            #[trigger] t1[a].0,
            #[trigger] t1[b].0,
        ) by {
            assert(t1[a] == m1[a + 1] && t1[b] == m1[b + 1]);
        }
        assert forall|a: int, b: int| 0 <= a < b < t2.len() implies key_lt(
            #[trigger] t2[a].0,
            #[trigger] t2[b].0,
        ) by {
            assert(t2[a] == m2[a + 1] && t2[b] == m2[b + 1]);
        }
        lemma_ascending_entries_unique(t1, t2);
        assert(m1 =~= seq![m1[0]] + t1);
        assert(m2 =~= seq![m2[0]] + t2);
    }
}

pub proof fn lemma_model_of_items_concat(a: Seq<Value>, b: Seq<Value>)
    ensures
        model_of_items(a + b) == model_of_items(a) + model_of_items(b),
    decreases a.len(),
{
    if a.len() == 0 {
        assert(a + b =~= b);
        assert(model_of_items(a) + model_of_items(b) =~= model_of_items(b));
    } else {
        assert((a + b).drop_first() =~= a.drop_first() + b);
        lemma_model_of_items_concat(a.drop_first(), b);
        assert(model_of_items(a + b) =~= model_of_items(a) + model_of_items(b));
    }
}

pub proof fn lemma_model_of_entries_concat(a: Seq<(String, Value)>, b: Seq<(String, Value)>)
    ensures
        model_of_entries(a + b) == model_of_entries(a) + model_of_entries(b),
    decreases a.len(),
{
    if a.len() == 0 {
        assert(a + b =~= b);
        assert(model_of_entries(a) + model_of_entries(b) =~= model_of_entries(b));
    } else {
        assert((a + b).drop_first() =~= a.drop_first() + b);
        lemma_model_of_entries_concat(a.drop_first(), b);
        assert(model_of_entries(a + b) =~= model_of_entries(a) + model_of_entries(b));
    }
}

pub proof fn lemma_model_of_entries_single(e: (String, Value))
    ensures
        model_of_entries(seq![e]) == seq![(e.0@, model_of(e.1))],
{
    reveal_with_fuel(model_of_entries, 2);
    assert(seq![e].drop_first() =~= Seq::<(String, Value)>::empty());
    assert(model_of_entries(seq![e]) =~= seq![(e.0@, model_of(e.1))]);
}

pub proof fn lemma_model_of_items_single(e: Value)
    ensures
        model_of_items(seq![e]) == seq![model_of(e)],
{
    reveal_with_fuel(model_of_items, 2);
    assert(seq![e].drop_first() =~= Seq::<Value>::empty());
    assert(model_of_items(seq![e]) =~= seq![model_of(e)]);
}

pub proof fn lemma_model_of_items_index(s: Seq<Value>)
    ensures
        model_of_items(s).len() == s.len(),
        forall|i: int| 0 <= i < s.len() ==> #[trigger] model_of_items(s)[i] == model_of(s[i]),
    decreases s.len(),
{
    if s.len() > 0 {
        lemma_model_of_items_index(s.drop_first());
    }
}

pub proof fn lemma_model_of_entries_index(s: Seq<(String, Value)>)
    ensures
        model_of_entries(s).len() == s.len(),
        forall|i: int|
            0 <= i < s.len() ==> #[trigger] model_of_entries(s)[i] == (s[i].0@, model_of(s[i].1)),
    decreases s.len(),
{
    if s.len() > 0 {
        lemma_model_of_entries_index(s.drop_first());
    }
}

/// Compares two byte sequences in lexicographic order.
pub fn compare_bytes(a: &[u8], b: &[u8]) -> (r: Ordering)
    ensures
        (r == Ordering::Less) == bytes_lt(a@, b@),
        (r == Ordering::Equal) == (a@ == b@),
        (r == Ordering::Greater) == bytes_lt(b@, a@),
{
    assert(a@.skip(0) =~= a@ && b@.skip(0) =~= b@);
    let mut i: usize = 0;
    while i < a.len() && i < b.len()
        invariant
            i <= a@.len(),
            i <= b@.len(),
            a@.take(i as int) == b@.take(i as int),
            bytes_lt(a@, b@) == bytes_lt(a@.skip(i as int), b@.skip(i as int)),
            bytes_lt(b@, a@) == bytes_lt(b@.skip(i as int), a@.skip(i as int)),
        decreases a@.len() - i,
    {
        if a[i] != b[i] {
            assert(a@[i as int] != b@[i as int]);
            assert(a@.skip(i as int)[0] == a@[i as int]);
            assert(b@.skip(i as int)[0] == b@[i as int]);
            if a[i] < b[i] {
                return Ordering::Less;
            } else {
                return Ordering::Greater;
            }
        }
        assert(a@.skip(i as int).drop_first() =~= a@.skip(i + 1));
        assert(b@.skip(i as int).drop_first() =~= b@.skip(i + 1));
        assert(a@.take(i + 1) =~= a@.take(i as int).push(a@[i as int]));
        assert(b@.take(i + 1) =~= b@.take(i as int).push(b@[i as int]));
        i = i + 1;
    }
    if i == a.len() && i == b.len() {
        assert(a@ =~= a@.take(i as int));
        assert(b@ =~= b@.take(i as int));
        Ordering::Equal
    } else if i == a.len() {
        Ordering::Less
    } else {
        Ordering::Greater
    }
}

/// Compares two map keys by their UTF-8 bytes.
pub fn compare_keys(a: &String, b: &String) -> (r: Ordering)
    ensures
        (r == Ordering::Less) == key_lt(a@, b@),
        (r == Ordering::Equal) == (a@ == b@),
        (r == Ordering::Greater) == key_lt(b@, a@),
{
    broadcast use vstd::utf8::encode_utf8_decode_utf8;

    let r = compare_bytes(a.as_str().as_bytes(), b.as_str().as_bytes());
    proof {
        if encode_utf8(a@) == encode_utf8(b@) {
            assert(decode_utf8(encode_utf8(a@)) == decode_utf8(encode_utf8(b@)));
        }
    }
    r
}

/// Puts `key` and `value` into map entries: an entry with an equal key is
/// replaced, otherwise the new entry goes before the first greater key.
pub fn insert_entry(entries: &mut Vec<(String, Value)>, key: String, value: Value)
    ensures
        model_of_entries(final(entries)@) == map_insert(
            model_of_entries(old(entries)@),
            key@,
            value@,
        ),
        keys_ascending(model_of_entries(old(entries)@)) ==> keys_ascending(
            model_of_entries(final(entries)@),
        ) && entries_map(model_of_entries(final(entries)@)) == entries_map(
            model_of_entries(old(entries)@),
        ).insert(key@, value@),
{
    proof {
        if keys_ascending(model_of_entries(entries@)) {
            lemma_map_insert(model_of_entries(entries@), key@, value@);
        }
    }
    let ghost s = entries@;
    let ghost k = key@;
    let ghost v = value@;
    assert(s =~= s.take(0) + s.skip(0));
    let mut i: usize = 0;
    while i < entries.len()
        invariant
            entries@ == s,
            s == old(entries)@,
            keys_ascending(model_of_entries(s)) ==> keys_ascending(
                map_insert(model_of_entries(s), k, v),
            ) && entries_map(map_insert(model_of_entries(s), k, v)) == entries_map(
                model_of_entries(s),
            ).insert(k, v),
            i <= s.len(),
            k == key@,
            v == value@,
            map_insert(model_of_entries(s), k, v) == model_of_entries(s.take(i as int))
                + map_insert(model_of_entries(s.skip(i as int)), k, v),
        decreases s.len() - i,
    {
        let ghost rest = s.skip(i as int);
        assert(rest.drop_first() =~= s.skip(i + 1));
        assert(rest[0] == s[i as int]);
        match compare_keys(&key, &entries[i].0) {
            Ordering::Less => {
                entries.insert(i, (key, value));
                proof {
                    assert(entries@ =~= s.take(i as int) + (seq![(key, value)] + rest));
                    lemma_model_of_entries_concat(s.take(i as int), seq![(key, value)] + rest);
                    lemma_model_of_entries_concat(seq![(key, value)], rest);
                    lemma_model_of_entries_single((key, value));
                    assert(map_insert(model_of_entries(rest), k, v) == seq![(k, v)]
                        + model_of_entries(rest));
                    assert(model_of_entries(seq![(key, value)] + rest) == seq![(k, v)]
                        + model_of_entries(rest));
                    assert(model_of_entries(entries@) == model_of_entries(s.take(i as int))
                        + (seq![(k, v)] + model_of_entries(rest)));
                    assert(model_of_entries(entries@) =~= map_insert(model_of_entries(s), k, v));
                }
                return;
            },
            Ordering::Equal => {
                entries.set(i, (key, value));
                proof {
                    let tail = s.skip(i + 1);
                    assert(entries@ =~= s.take(i as int) + (seq![(key, value)] + tail));
                    lemma_model_of_entries_concat(s.take(i as int), seq![(key, value)] + tail);
                    lemma_model_of_entries_concat(seq![(key, value)], tail);
                    lemma_model_of_entries_single((key, value));
                    assert(model_of_entries(rest).drop_first() =~= model_of_entries(tail));
                    assert(map_insert(model_of_entries(rest), k, v) == seq![(k, v)]
                        + model_of_entries(tail));
                }
                return;
            },
            Ordering::Greater => {},
        }
        proof {
            assert(s.take(i + 1) =~= s.take(i as int) + seq![s[i as int]]);
            lemma_model_of_entries_concat(s.take(i as int), seq![s[i as int]]);
            lemma_model_of_entries_single(s[i as int]);
            assert(model_of_entries(rest).drop_first() =~= model_of_entries(s.skip(i + 1)));
            assert(model_of_entries(rest)[0] == (s[i as int].0@, model_of(s[i as int].1)));
            assert(map_insert(model_of_entries(rest), k, v) == seq![model_of_entries(rest)[0]]
                + map_insert(model_of_entries(s.skip(i + 1)), k, v));
            assert(model_of_entries(s.take(i + 1)) + map_insert(model_of_entries(s.skip(i + 1)), k, v)
                =~= model_of_entries(s.take(i as int)) + map_insert(model_of_entries(rest), k, v));
        }
        i = i + 1;
    }
    entries.push((key, value));
    proof {
        assert(s.take(i as int) =~= s);
        assert(s.skip(i as int) =~= Seq::<(String, Value)>::empty());
        lemma_model_of_entries_concat(s, seq![(key, value)]);
        assert(entries@ =~= s + seq![(key, value)]);
        lemma_model_of_entries_single((key, value));
    }
}

} // verus!
