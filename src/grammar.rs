//! The wire format, stated as spec functions: the bytes the encoder writes for
//! a value, and what the decoder makes of a byte sequence.
use vstd::prelude::*;
use vstd::utf8::*;
use crate::bytes::{be16, be32, header_byte};
use crate::error::Error;
use crate::value::{ValueModel, map_insert};

verus! {

pub const MAJOR_UNSIGNED: u8 = 0;
pub const MAJOR_BYTES: u8 = 2;
pub const MAJOR_TEXT: u8 = 3;
pub const MAJOR_ARRAY: u8 = 4;
pub const MAJOR_MAP: u8 = 5;
pub const MAJOR_SIMPLE: u8 = 7;
/// The simple value that stands for null.
pub const SIMPLE_NULL: u8 = 22;
/// The largest count or integer that the encoder writes.
pub const MAX_ENCODED: usize = 255;

// ---- Encoding ----

/// The shortest header for a count or integer `n` up to 255: the count in the
/// header byte itself up to 23, else the marker 24 and one more byte.
pub open spec fn encoded_header(major: u8, n: nat) -> Seq<u8> {
    if n <= 23 {
        seq![header_byte(major, n as u8)]
    } else {
        seq![header_byte(major, 24), n as u8]
    }
}

/// Whether the encoder can write `v`: every integer, length and count is at most 255.
pub open spec fn encodable(v: ValueModel) -> bool
    decreases v,
{
    match v {
        ValueModel::Null => true,
        ValueModel::Int(n) => n <= 255,
        ValueModel::Bytes(b) => b.len() <= 255,
        ValueModel::Text(t) => encode_utf8(t).len() <= 255,
        ValueModel::Array(items) => items.len() <= 255 && encodable_items(items),
        ValueModel::Mapping(m) => m.len() <= 255 && encodable_entries(m),
    }
}

pub open spec fn encodable_items(items: Seq<ValueModel>) -> bool
    decreases items,
{
    items.len() == 0 || (encodable(items[0]) && encodable_items(items.drop_first()))
}

pub open spec fn encodable_entries(m: Seq<(Seq<char>, ValueModel)>) -> bool
    decreases m,
{
    m.len() == 0 || (encode_utf8(m[0].0).len() <= 255 && encodable(m[0].1)
        && encodable_entries(m.drop_first()))
}

/// The bytes of a text string: its header, then its UTF-8 bytes.
pub open spec fn text_encoding(t: Seq<char>) -> Seq<u8> {
    encoded_header(MAJOR_TEXT, encode_utf8(t).len()) + encode_utf8(t)
}

/// The bytes the encoder writes for `v`.
pub open spec fn encoding(v: ValueModel) -> Seq<u8>
    decreases v,
{
    match v {
        ValueModel::Null => encoded_header(MAJOR_SIMPLE, SIMPLE_NULL as nat),
        ValueModel::Int(n) => encoded_header(MAJOR_UNSIGNED, n as nat),
        ValueModel::Bytes(b) => encoded_header(MAJOR_BYTES, b.len()) + b,
        ValueModel::Text(t) => text_encoding(t),
        ValueModel::Array(items) => encoded_header(MAJOR_ARRAY, items.len()) + encoding_items(
            items,
        ),
        ValueModel::Mapping(m) => encoded_header(MAJOR_MAP, m.len()) + encoding_entries(m),
    }
}

/// The items one after another, in order.
pub open spec fn encoding_items(items: Seq<ValueModel>) -> Seq<u8>
    decreases items,
{
    if items.len() == 0 {
        Seq::empty()
    } else {
        encoding(items[0]) + encoding_items(items.drop_first())
    }
}

/// Each entry as its key (a text string) then its value, in order.
pub open spec fn encoding_entries(m: Seq<(Seq<char>, ValueModel)>) -> Seq<u8>
    decreases m,
{
    if m.len() == 0 {
        Seq::empty()
    } else {
        text_encoding(m[0].0) + encoding(m[0].1) + encoding_entries(m.drop_first())
    }
}

pub proof fn lemma_encoding_items_concat(a: Seq<ValueModel>, b: Seq<ValueModel>)
    ensures
        encoding_items(a + b) == encoding_items(a) + encoding_items(b),
        encodable_items(a + b) == (encodable_items(a) && encodable_items(b)),
    decreases a.len(),
{
    if a.len() == 0 {
        assert(a + b =~= b);
        assert(encoding_items(a) + encoding_items(b) =~= encoding_items(b));
    } else {
        assert((a + b).drop_first() =~= a.drop_first() + b);
        lemma_encoding_items_concat(a.drop_first(), b);
        assert(encoding_items(a + b) =~= encoding_items(a) + encoding_items(b));
    }
}

pub proof fn lemma_encoding_items_single(x: ValueModel)
    ensures
        encoding_items(seq![x]) == encoding(x),
        encodable_items(seq![x]) == encodable(x),
{
    reveal_with_fuel(encoding_items, 2);
    reveal_with_fuel(encodable_items, 2);
    assert(seq![x].drop_first() =~= Seq::<ValueModel>::empty());
    assert(encoding_items(seq![x]) =~= encoding(x));
}

pub proof fn lemma_encoding_entries_concat(
    a: Seq<(Seq<char>, ValueModel)>,
    b: Seq<(Seq<char>, ValueModel)>,
)
    ensures
        encoding_entries(a + b) == encoding_entries(a) + encoding_entries(b),
        encodable_entries(a + b) == (encodable_entries(a) && encodable_entries(b)),
    decreases a.len(),
{
    if a.len() == 0 {
        assert(a + b =~= b);
        assert(encoding_entries(a) + encoding_entries(b) =~= encoding_entries(b));
    } else {
        assert((a + b).drop_first() =~= a.drop_first() + b);
        lemma_encoding_entries_concat(a.drop_first(), b);
        assert(encoding_entries(a + b) =~= encoding_entries(a) + encoding_entries(b));
    }
}

pub proof fn lemma_encoding_entries_single(x: (Seq<char>, ValueModel))
    ensures
        encoding_entries(seq![x]) == text_encoding(x.0) + encoding(x.1),
        encodable_entries(seq![x]) == (encode_utf8(x.0).len() <= 255 && encodable(x.1)),
{
    reveal_with_fuel(encoding_entries, 2);
    reveal_with_fuel(encodable_entries, 2);
    assert(seq![x].drop_first() =~= Seq::<(Seq<char>, ValueModel)>::empty());
    assert(encoding_entries(seq![x]) =~= text_encoding(x.0) + encoding(x.1));
}

// ---- Decoding ----

pub open spec fn supported_major(major: u8) -> bool {
    major == MAJOR_UNSIGNED || major == MAJOR_BYTES || major == MAJOR_TEXT || major
        == MAJOR_ARRAY || major == MAJOR_MAP || major == MAJOR_SIMPLE
}

/// How many bytes follow a header to hold its count: 0, 1, 2 or 4 for the
/// additional types 0 to 23, 24, 25 and 26.
pub open spec fn argument_width(additional: u8) -> nat {
    if additional <= 23 {
        0
    } else if additional == 24 {
        1
    } else if additional == 25 {
        2
    } else {
        4
    }
}

/// The count given by an additional type and the bytes that follow the header
/// (big-endian for the 2- and 4-byte forms).
pub open spec fn argument_value(additional: u8, s: Seq<u8>) -> nat {
    if additional <= 23 {
        additional as nat
    } else if additional == 24 {
        s[0] as nat
    } else if additional == 25 {
        be16(s)
    } else {
        be32(s)
    }
}

/// Decodes one item at the front of `s`: the value and the bytes after it.
pub open spec fn parse_item(s: Seq<u8>) -> Result<(ValueModel, Seq<u8>), Error>
    decreases s.len(), 0nat,
{
    if s.len() == 0 {
        Err(Error::Truncated)
    } else if !supported_major(s[0] / 32) {
        Err(Error::MalformedHeader)
    } else {
        parse_body(s[0] / 32, s[0] % 32, s.drop_first())
    }
}

/// Decodes the rest of an item whose header byte held `major` and
/// `additional`; `s` holds the bytes after the header byte.
pub open spec fn parse_body(major: u8, additional: u8, s: Seq<u8>) -> Result<
    (ValueModel, Seq<u8>),
    Error,
>
    decreases s.len(), 2nat,
{
    let w = argument_width(additional);
    if additional > 26 {
        Err(Error::MalformedHeader)
    } else if s.len() < w {
        Err(Error::Truncated)
    } else {
        let n = argument_value(additional, s);
        let r = s.skip(w as int);
        if major == MAJOR_UNSIGNED {
            Ok((ValueModel::Int(n as u32), r))
        } else if major == MAJOR_BYTES || major == MAJOR_TEXT {
            if r.len() < n {
                Err(Error::Truncated)
            } else if major == MAJOR_BYTES {
                Ok((ValueModel::Bytes(r.take(n as int)), r.skip(n as int)))
            } else if !valid_utf8(r.take(n as int)) {
                Err(Error::TextDecodeError)
            } else {
                Ok((ValueModel::Text(decode_utf8(r.take(n as int))), r.skip(n as int)))
            }
        } else if major == MAJOR_ARRAY {
            match parse_items(r, n, Seq::empty()) {
                Ok((items, rest)) => Ok((ValueModel::Array(items), rest)),
                Err(e) => Err(e),
            }
        } else if major == MAJOR_MAP {
            match parse_entries(r, n, Seq::empty()) {
                Ok((m, rest)) => Ok((ValueModel::Mapping(m), rest)),
                Err(e) => Err(e),
            }
        } else if n == SIMPLE_NULL {
            Ok((ValueModel::Null, r))
        } else {
            Err(Error::UnsupportedSimpleValue)
        }
    }
}

/// Decodes `n` more items after those in `acc`.
pub open spec fn parse_items(s: Seq<u8>, n: nat, acc: Seq<ValueModel>) -> Result<
    (Seq<ValueModel>, Seq<u8>),
    Error,
>
    decreases s.len(), 1nat,
{
    if n == 0 {
        Ok((acc, s))
    } else {
        match parse_item(s) {
            Err(e) => Err(e),
            Ok((v, r)) => if r.len() < s.len() {
                parse_items(r, (n - 1) as nat, acc.push(v))
            } else {
                Err(Error::Truncated)
            },
        }
    }
}

/// Decodes `n` more key/value pairs into the map entries `acc`; each key
/// must decode to a text string.
pub open spec fn parse_entries(
    s: Seq<u8>,
    n: nat,
    acc: Seq<(Seq<char>, ValueModel)>,
) -> Result<(Seq<(Seq<char>, ValueModel)>, Seq<u8>), Error>
    decreases s.len(), 1nat,
{
    if n == 0 {
        Ok((acc, s))
    } else {
        match parse_item(s) {
            Err(e) => Err(e),
            Ok((k, r1)) => if !(k is Text) {
                Err(Error::InvalidMapKey)
            } else if r1.len() >= s.len() {
                Err(Error::Truncated)
            } else {
                match parse_item(r1) {
                    Err(e) => Err(e),
                    Ok((v, r2)) => if r2.len() < r1.len() {
                        parse_entries(r2, (n - 1) as nat, map_insert(acc, k->Text_0, v))
                    } else {
                        Err(Error::Truncated)
                    },
                }
            },
        }
    }
}

} // verus!
