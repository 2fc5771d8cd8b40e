//! Laws of the codec: what holds across the encoder and the decoder.
use vstd::prelude::*;
use vstd::utf8::*;
use crate::bytes::{be16, be32};
use crate::grammar::{
    MAJOR_ARRAY, MAJOR_BYTES, MAJOR_MAP, MAJOR_SIMPLE, MAJOR_TEXT, MAJOR_UNSIGNED, SIMPLE_NULL,
    argument_value, argument_width, encodable, encodable_entries, encodable_items,
    encoded_header, encoding, encoding_entries, encoding_items, parse_body, parse_entries,
    parse_item, parse_items, supported_major, text_encoding,
};
use crate::value::{
    ValueModel, entries_map, key_lt, keys_ascending, lemma_ascending_entries_unique,
    lemma_map_insert, lemma_bytes_lt_asymmetric, map_insert, well_formed,
    well_formed_entries, well_formed_items,
};

verus! {

proof fn lemma_header(major: u8, n: nat, rest: Seq<u8>)
    requires
        supported_major(major),
        n <= 255,
    ensures
        ({
            let s = encoded_header(major, n) + rest;
            let a = s[0] % 32;
            &&& s.len() > 0
            &&& s[0] / 32 == major
            &&& a <= 26
            &&& s.drop_first().len() >= argument_width(a)
            &&& argument_value(a, s.drop_first()) == n
            &&& s.drop_first().skip(argument_width(a) as int) == rest
        }),
{
    let s = encoded_header(major, n) + rest;
    if n <= 23 {
        let b = (major as int * 32 + n) as u8;
        assert(b as int == major as int * 32 + n);
        assert(b / 32 == major && b % 32 == n);
        assert(s.drop_first() =~= rest);
        assert(s.drop_first().skip(0) =~= rest);
    } else {
        let b = (major as int * 32 + 24) as u8;
        assert(b as int == major as int * 32 + 24);
        assert(b / 32 == major && b % 32 == 24);
        assert(s.drop_first()[0] == n as u8);
        assert(s.drop_first().skip(1) =~= rest);
    }
}

proof fn lemma_encoding_nonempty(v: ValueModel)
    ensures
        encoding(v).len() >= 1,
{
    match v {
        ValueModel::Bytes(b) => assert((encoded_header(MAJOR_BYTES, b.len()) + b).len() >= 1),
        ValueModel::Array(items) => assert((encoded_header(MAJOR_ARRAY, items.len())
            + encoding_items(items)).len() >= 1),
        ValueModel::Mapping(m) => assert((encoded_header(MAJOR_MAP, m.len()) + encoding_entries(
            m,
        )).len() >= 1),
        _ => {},
    }
}

proof fn lemma_text_round_trip(c: Seq<char>, t: Seq<u8>)
    requires
        encode_utf8(c).len() <= 255,
    ensures
        parse_item(text_encoding(c) + t) == Ok::<(ValueModel, Seq<u8>), crate::error::Error>(
            (ValueModel::Text(c), t),
        ),
{
    let b = encode_utf8(c);
    let body = b + t;
    lemma_header(MAJOR_TEXT, b.len(), body);
    assert(text_encoding(c) + t =~= encoded_header(MAJOR_TEXT, b.len()) + body);
    vstd::utf8::encode_utf8_valid_utf8(c);
    vstd::utf8::encode_utf8_decode_utf8(c);
    assert(body.take(b.len() as int) =~= b);
    assert(body.skip(b.len() as int) =~= t);
}

proof fn lemma_insert_greatest(acc: Seq<(Seq<char>, ValueModel)>, k: Seq<char>, v: ValueModel)
    requires
        forall|i: int| 0 <= i < acc.len() ==> key_lt(#[trigger] acc[i].0, k),
    ensures
        map_insert(acc, k, v) == acc.push((k, v)),
    decreases acc.len(),
{
    if acc.len() > 0 {
        assert(key_lt(acc[0].0, k));
        lemma_bytes_lt_asymmetric(encode_utf8(acc[0].0), encode_utf8(k));
        assert(acc[0].0 != k);
        assert forall|i: int| 0 <= i < acc.drop_first().len() implies key_lt(
            #[trigger] acc.drop_first()[i].0,
            k,
        ) by {
            assert(acc.drop_first()[i] == acc[i + 1]);
        }
        lemma_insert_greatest(acc.drop_first(), k, v);
        assert(seq![acc[0]] + acc.drop_first().push((k, v)) =~= acc.push((k, v)));
    }
}

proof fn lemma_scalar_round_trip(v: ValueModel, t: Seq<u8>)
    requires
        encodable(v),
        v is Null || v is Int || v is Bytes,
    ensures
        parse_item(encoding(v) + t) == Ok::<(ValueModel, Seq<u8>), crate::error::Error>((v, t)),
{
    match v {
        ValueModel::Null => {
            lemma_header(MAJOR_SIMPLE, SIMPLE_NULL as nat, t);
        },
        ValueModel::Int(n) => {
            lemma_header(MAJOR_UNSIGNED, n as nat, t);
        },
        ValueModel::Bytes(b) => {
            let body = b + t;
            lemma_header(MAJOR_BYTES, b.len(), body);
            assert(encoding(v) + t =~= encoded_header(MAJOR_BYTES, b.len()) + body);
            assert(body.take(b.len() as int) =~= b);
            assert(body.skip(b.len() as int) =~= t);
        },
        _ => {},
    }
}

proof fn lemma_array_header(items: Seq<ValueModel>, t: Seq<u8>)
    requires
        items.len() <= 255,
        parse_items(encoding_items(items) + t, items.len(), Seq::empty()) == Ok::<
            (Seq<ValueModel>, Seq<u8>),
            crate::error::Error,
        >((items, t)),
    ensures
        parse_item(encoding(ValueModel::Array(items)) + t) == Ok::<
            (ValueModel, Seq<u8>),
            crate::error::Error,
        >((ValueModel::Array(items), t)),
{
    let body = encoding_items(items) + t;
    lemma_header(MAJOR_ARRAY, items.len(), body);
    assert(encoding(ValueModel::Array(items)) + t =~= encoded_header(MAJOR_ARRAY, items.len())
        + body);
}

proof fn lemma_map_header(m: Seq<(Seq<char>, ValueModel)>, t: Seq<u8>)
    requires
        m.len() <= 255,
        parse_entries(encoding_entries(m) + t, m.len(), Seq::empty()) == Ok::<
            (Seq<(Seq<char>, ValueModel)>, Seq<u8>),
            crate::error::Error,
        >((m, t)),
    ensures
        parse_item(encoding(ValueModel::Mapping(m)) + t) == Ok::<
            (ValueModel, Seq<u8>),
            crate::error::Error,
        >((ValueModel::Mapping(m), t)),
{
    let body = encoding_entries(m) + t;
    lemma_header(MAJOR_MAP, m.len(), body);
    assert(encoding(ValueModel::Mapping(m)) + t =~= encoded_header(MAJOR_MAP, m.len()) + body);
}

/// Decoding the encoding of an encodable, well-formed value gives the value
/// back, and leaves whatever followed it.
pub proof fn lemma_round_trip(v: ValueModel, t: Seq<u8>)
    requires
        encodable(v),
        well_formed(v),
    ensures
        parse_item(encoding(v) + t) == Ok::<(ValueModel, Seq<u8>), crate::error::Error>((v, t)),
    decreases v,
{
    match v {
        ValueModel::Text(c) => {
            lemma_text_round_trip(c, t);
        },
        ValueModel::Array(items) => {
            lemma_round_trip_items(items, t, Seq::empty());
            assert(Seq::<ValueModel>::empty() + items =~= items);
            lemma_array_header(items, t);
        },
        ValueModel::Mapping(m) => {
            assert(Seq::<(Seq<char>, ValueModel)>::empty() + m =~= m);
            lemma_round_trip_entries(m, t, Seq::empty());
            lemma_map_header(m, t);
        },
        _ => {
            lemma_scalar_round_trip(v, t);
        },
    }
}

/// Two maps with the same key/value pairs, each kept in ascending key order
/// (as `insert_entry` keeps them, whatever order the pairs were put in),
/// encode to the same bytes.
pub proof fn lemma_map_encoding_canonical(
    m1: Seq<(Seq<char>, ValueModel)>,
    m2: Seq<(Seq<char>, ValueModel)>,
)
    requires
        keys_ascending(m1),
        keys_ascending(m2),
        entries_map(m1) == entries_map(m2),
    ensures
        encoding(ValueModel::Mapping(m1)) == encoding(ValueModel::Mapping(m2)),
{
    lemma_ascending_entries_unique(m1, m2);
}

proof fn lemma_round_trip_items(items: Seq<ValueModel>, t: Seq<u8>, acc: Seq<ValueModel>)
    requires
        encodable_items(items),
        well_formed_items(items),
    ensures
        parse_items(encoding_items(items) + t, items.len(), acc) == Ok::<
            (Seq<ValueModel>, Seq<u8>),
            crate::error::Error,
        >((acc + items, t)),
    decreases items,
{
    if items.len() == 0 {
        assert(encoding_items(items) + t =~= t);
        assert(acc + items =~= acc);
    } else {
        let rest = items.drop_first();
        let tail = encoding_items(rest) + t;
        assert(encoding_items(items) + t =~= encoding(items[0]) + tail);
        lemma_round_trip(items[0], tail);
        lemma_encoding_nonempty(items[0]);
        lemma_round_trip_items(rest, t, acc.push(items[0]));
        assert(acc.push(items[0]) + rest =~= acc + items);
    }
}

proof fn lemma_round_trip_entries(
    m: Seq<(Seq<char>, ValueModel)>,
    t: Seq<u8>,
    acc: Seq<(Seq<char>, ValueModel)>,
)
    requires
        encodable_entries(m),
        well_formed_entries(m),
        keys_ascending(acc + m),
    ensures
        parse_entries(encoding_entries(m) + t, m.len(), acc) == Ok::<
            (Seq<(Seq<char>, ValueModel)>, Seq<u8>),
            crate::error::Error,
        >((acc + m, t)),
    decreases m,
{
    if m.len() == 0 {
        assert(encoding_entries(m) + t =~= t);
        assert(acc + m =~= acc);
    } else {
        let rest = m.drop_first();
        let tail = encoding_entries(rest) + t;
        let mid = encoding(m[0].1) + tail;
        assert(encoding_entries(m) + t =~= text_encoding(m[0].0) + mid);
        lemma_text_round_trip(m[0].0, mid);
        lemma_round_trip(m[0].1, tail);
        lemma_encoding_nonempty(m[0].1);
        assert(text_encoding(m[0].0).len() >= 1);
        assert forall|i: int| 0 <= i < acc.len() implies key_lt(#[trigger] acc[i].0, m[0].0) by {
            assert((acc + m)[i] == acc[i]);
            assert((acc + m)[acc.len() as int] == m[0]);
        }
        lemma_insert_greatest(acc, m[0].0, m[0].1);
        assert(acc.push(m[0]) + rest =~= acc + m);
        lemma_round_trip_entries(rest, t, acc.push(m[0]));
    }
}

/// An unsigned integer whose header has the additional type 24, 25 or 26 takes
/// exactly the next 1, 2 or 4 bytes, read big-endian, and nothing more.
pub proof fn lemma_width_selection(additional: u8, b: Seq<u8>, t: Seq<u8>)
    requires
        24 <= additional <= 26,
        b.len() == argument_width(additional),
    ensures
        additional == 24 ==> b.len() == 1 && parse_item(seq![additional] + b + t) == Ok::<
            (ValueModel, Seq<u8>),
            crate::error::Error,
        >((ValueModel::Int(b[0] as u32), t)),
        additional == 25 ==> b.len() == 2 && parse_item(seq![additional] + b + t) == Ok::<
            (ValueModel, Seq<u8>),
            crate::error::Error,
        >((ValueModel::Int(be16(b) as u32), t)),
        additional == 26 ==> b.len() == 4 && parse_item(seq![additional] + b + t) == Ok::<
            (ValueModel, Seq<u8>),
            crate::error::Error,
        >((ValueModel::Int(be32(b) as u32), t)),
{
    let s = seq![additional] + b + t;
    assert(s[0] == additional);
    assert(additional / 32 == 0 && additional % 32 == additional);
    assert(s.drop_first() =~= b + t);
    assert((b + t).skip(b.len() as int) =~= t);
    if additional == 25 {
        assert((b + t)[0] == b[0] && (b + t)[1] == b[1]);
    } else if additional == 26 {
        assert((b + t)[0] == b[0] && (b + t)[1] == b[1] && (b + t)[2] == b[2] && (b + t)[3]
            == b[3]);
    }
}

proof fn lemma_well_formed_items_push(acc: Seq<ValueModel>, v: ValueModel)
    requires
        well_formed_items(acc),
        well_formed(v),
    ensures
        well_formed_items(acc.push(v)),
    decreases acc.len(),
{
    if acc.len() == 0 {
        reveal_with_fuel(well_formed_items, 2);
        assert(acc.push(v).drop_first() =~= Seq::<ValueModel>::empty());
    } else {
        lemma_well_formed_items_push(acc.drop_first(), v);
        assert(acc.push(v).drop_first() =~= acc.drop_first().push(v));
    }
}

proof fn lemma_map_insert_well_formed(
    m: Seq<(Seq<char>, ValueModel)>,
    k: Seq<char>,
    v: ValueModel,
)
    requires
        well_formed_entries(m),
        well_formed(v),
    ensures
        well_formed_entries(map_insert(m, k, v)),
    decreases m.len(),
{
    let r = map_insert(m, k, v);
    if m.len() == 0 {
        reveal_with_fuel(well_formed_entries, 2);
        assert(r.drop_first() =~= Seq::<(Seq<char>, ValueModel)>::empty());
    } else if m[0].0 == k {
        assert(r.drop_first() =~= m.drop_first());
    } else if key_lt(k, m[0].0) {
        assert(r.drop_first() =~= m);
    } else {
        lemma_map_insert_well_formed(m.drop_first(), k, v);
        assert(r.drop_first() =~= map_insert(m.drop_first(), k, v));
    }
}

/// Whatever the decoder returns is well-formed: every map in it has its keys
/// strictly ascending, whatever their order on the wire.
pub proof fn lemma_parsed_well_formed(s: Seq<u8>)
    ensures
        parse_item(s) matches Ok((v, _)) ==> well_formed(v),
    decreases s.len(), 0nat,
{
    if s.len() > 0 && supported_major(s[0] / 32) {
        lemma_body_well_formed(s[0] / 32, s[0] % 32, s.drop_first());
    }
}

proof fn lemma_body_well_formed(major: u8, additional: u8, s: Seq<u8>)
    ensures
        parse_body(major, additional, s) matches Ok((v, _)) ==> well_formed(v),
    decreases s.len(), 2nat,
{
    let w = argument_width(additional);
    if additional <= 26 && s.len() >= w {
        let n = argument_value(additional, s);
        let r = s.skip(w as int);
        if major == MAJOR_ARRAY {
            lemma_items_well_formed(r, n, Seq::empty());
        } else if major == MAJOR_MAP {
            lemma_entries_well_formed(r, n, Seq::empty());
        }
    }
}

proof fn lemma_items_well_formed(s: Seq<u8>, n: nat, acc: Seq<ValueModel>)
    requires
        well_formed_items(acc),
    ensures
        parse_items(s, n, acc) matches Ok((items, _)) ==> well_formed_items(items),
    decreases s.len(), 1nat,
{
    if n > 0 {
        lemma_parsed_well_formed(s);
        if let Ok((v, r)) = parse_item(s) {
            if r.len() < s.len() {
                lemma_well_formed_items_push(acc, v);
                lemma_items_well_formed(r, (n - 1) as nat, acc.push(v));
            }
        }
    }
}

proof fn lemma_entries_well_formed(s: Seq<u8>, n: nat, acc: Seq<(Seq<char>, ValueModel)>)
    requires
        keys_ascending(acc),
        well_formed_entries(acc),
    ensures
        parse_entries(s, n, acc) matches Ok((m, _)) ==> keys_ascending(m) && well_formed_entries(
            m,
        ),
    decreases s.len(), 1nat,
{
    if n > 0 {
        if let Ok((k, r1)) = parse_item(s) {
            if k is Text && r1.len() < s.len() {
                lemma_parsed_well_formed(r1);
                if let Ok((v, r2)) = parse_item(r1) {
                    if r2.len() < r1.len() {
                        lemma_map_insert(acc, k->Text_0, v);
                        lemma_map_insert_well_formed(acc, k->Text_0, v);
                        lemma_entries_well_formed(
                            r2,
                            (n - 1) as nat,
                            map_insert(acc, k->Text_0, v),
                        );
                    }
                }
            }
        }
    }
}

} // verus!
