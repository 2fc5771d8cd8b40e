//! The decoder: recursive descent over the wire format.
use vstd::prelude::*;
use vstd::utf8::*;
use crate::bytes::{additional_type, be16, be32, major_type, u8_slice_to_u16, u8_slice_to_u32};
use crate::error::Error;
use crate::grammar::{
    MAJOR_ARRAY, MAJOR_BYTES, MAJOR_MAP, MAJOR_SIMPLE, MAJOR_TEXT, MAJOR_UNSIGNED, SIMPLE_NULL,
    argument_value, argument_width, parse_body, parse_entries, parse_item, parse_items,
};
use crate::io::{Reader, VecReader};
use crate::laws::lemma_parsed_well_formed;
use crate::value::{
    Value, ValueModel, insert_entry, map_insert, lemma_model_of_items_concat, lemma_model_of_items_single,
    model_of_entries, model_of_items, well_formed,
};

verus! {

/// What a decode that returned `r` and left `rest` unread amounts to.
pub open spec fn outcome(r: Result<Value, Error>, rest: Seq<u8>) -> Result<
    (ValueModel, Seq<u8>),
    Error,
> {
    match r {
        Ok(v) => Ok((v@, rest)),
        Err(e) => Err(e),
    }
}

/// Relies on String::from_utf8: it succeeds exactly on well-formed UTF-8 and
/// the string it returns holds the text that those bytes spell.
#[verifier::external_body]
fn string_from_utf8(bytes: Vec<u8>) -> (r: Option<String>)
    ensures
        r is Some <==> valid_utf8(bytes@),
        r matches Some(s) ==> s@ == decode_utf8(bytes@),
{
    String::from_utf8(bytes).ok()
}

/// Decodes the one item at the front of `bytes`; bytes after it are ignored.
pub fn from_bytes(bytes: Vec<u8>) -> (r: Result<Value, Error>)
    ensures
        match parse_item(bytes@) {
            Ok((v, _)) => r is Ok && r->Ok_0@ == v,
            Err(e) => r == Err::<Value, Error>(e),
        },
        r is Ok ==> well_formed(r->Ok_0@),
{
    proof {
        lemma_parsed_well_formed(bytes@);
    }
    let vec_reader = VecReader::new(bytes);
    let mut d = Deserializer::from_vec_reader(vec_reader);
    d.parse_value()
}

/// A placeholder value type with one 64-bit integer variant.
pub enum TestValue {
    Int(u64),
}

/// A decoder reading from `reader`.
pub struct Deserializer<R: Reader> {
    pub reader: R,
}

impl<R: Reader> Deserializer<R> {
    pub fn from_vec_reader(bytes: R) -> (r: Deserializer<R>)
        ensures
            r.reader == bytes,
    {
        Deserializer { reader: bytes }
    }

    /// Decodes one complete item and leaves the reader just past it.
    pub fn parse_value(&mut self) -> (r: Result<Value, Error>)
        ensures
            parse_item(old(self).reader.unread()) == outcome(r, final(self).reader.unread()),
            r is Ok ==> final(self).reader.unread().len() < old(self).reader.unread().len(),
            final(self).reader.unread().len() <= old(self).reader.unread().len(),
        decreases old(self).reader.unread().len(), 0nat,
    {
        let header_byte = match self.reader.read_byte() {
            Ok(b) => b,
            Err(e) => return Err(e),
        };
        let major = major_type(header_byte);
        let additional = additional_type(header_byte);
        if major == MAJOR_UNSIGNED {
            self.deserialize_int(additional)
        } else if major == MAJOR_BYTES {
            self.deserialize_bytes(additional)
        } else if major == MAJOR_TEXT {
            self.deserialize_string(additional)
        } else if major == MAJOR_ARRAY {
            self.deserialize_array(additional)
        } else if major == MAJOR_MAP {
            self.deserialize_map(additional)
        } else if major == MAJOR_SIMPLE {
            self.deserialize_simple(additional)
        } else {
            Err(Error::MalformedHeader)
        }
    }

    /// Reads the count or integer that an additional type gives: the
    /// additional type itself up to 23, else the 1, 2 or 4 big-endian bytes
    /// that follow for 24, 25 and 26.
    pub fn read_additional_type(&mut self, additional: u8) -> (r: Result<u32, Error>)
        ensures
            additional > 26 ==> r == Err::<u32, Error>(Error::MalformedHeader)
                && final(self).reader.unread() == old(self).reader.unread(),
            additional <= 26 && old(self).reader.unread().len() < argument_width(additional)
                ==> r == Err::<u32, Error>(Error::Truncated),
            additional <= 26 && old(self).reader.unread().len() >= argument_width(additional)
                ==> r is Ok && r->Ok_0 as nat == argument_value(
                additional,
                old(self).reader.unread(),
            ) && final(self).reader.unread() == old(self).reader.unread().skip(
                argument_width(additional) as int,
            ),
            final(self).reader.unread().len() <= old(self).reader.unread().len(),
    {
        if additional <= 23 {
            assert(self.reader.unread().skip(0) =~= self.reader.unread());
            Ok(additional as u32)
        } else if additional == 24 {
            let r = self.read_u8();
            proof {
                if r is Ok {
                    assert(old(self).reader.unread().drop_first() =~= old(self).reader.unread().skip(1));
                }
            }
            r
        } else if additional == 25 {
            self.read_u16()
        } else if additional == 26 {
            self.read_u32()
        } else {
            Err(Error::MalformedHeader)
        }
    }

    fn read_u8(&mut self) -> (r: Result<u32, Error>)
        ensures
            old(self).reader.unread().len() < 1 ==> r == Err::<u32, Error>(Error::Truncated)
                && final(self).reader.unread() == old(self).reader.unread(),
            old(self).reader.unread().len() >= 1 ==> r == Ok::<u32, Error>(
                old(self).reader.unread()[0] as u32,
            ) && final(self).reader.unread() == old(self).reader.unread().drop_first(),
    {
        match self.reader.read_byte() {
            Ok(b) => Ok(b as u32),
            Err(e) => Err(e),
        }
    }

    fn read_u16(&mut self) -> (r: Result<u32, Error>)
        ensures
            old(self).reader.unread().len() < 2 ==> r == Err::<u32, Error>(Error::Truncated)
                && final(self).reader.unread() == old(self).reader.unread(),
            old(self).reader.unread().len() >= 2 ==> r is Ok && r->Ok_0 as nat == be16(
                old(self).reader.unread(),
            ) && final(self).reader.unread() == old(self).reader.unread().skip(2),
    {
        match self.reader.read_n_bytes(2) {
            Ok(bytes) => Ok(u8_slice_to_u16(bytes.as_slice()) as u32),
            Err(e) => Err(e),
        }
    }

    fn read_u32(&mut self) -> (r: Result<u32, Error>)
        ensures
            old(self).reader.unread().len() < 4 ==> r == Err::<u32, Error>(Error::Truncated)
                && final(self).reader.unread() == old(self).reader.unread(),
            old(self).reader.unread().len() >= 4 ==> r is Ok && r->Ok_0 as nat == be32(
                old(self).reader.unread(),
            ) && final(self).reader.unread() == old(self).reader.unread().skip(4),
    {
        match self.reader.read_n_bytes(4) {
            Ok(bytes) => Ok(u8_slice_to_u32(bytes.as_slice())),
            Err(e) => Err(e),
        }
    }

    fn deserialize_int(&mut self, additional: u8) -> (r: Result<Value, Error>)
        ensures
            parse_body(MAJOR_UNSIGNED, additional, old(self).reader.unread()) == outcome(
                r,
                final(self).reader.unread(),
            ),
            final(self).reader.unread().len() <= old(self).reader.unread().len(),
    {
        match self.read_additional_type(additional) {
            Ok(n) => Ok(Value::Int(n)),
            Err(e) => Err(e),
        }
    }

    fn deserialize_bytes(&mut self, additional: u8) -> (r: Result<Value, Error>)
        ensures
            parse_body(MAJOR_BYTES, additional, old(self).reader.unread()) == outcome(
                r,
                final(self).reader.unread(),
            ),
            final(self).reader.unread().len() <= old(self).reader.unread().len(),
    {
        let len = match self.read_additional_type(additional) {
            Ok(n) => n,
            Err(e) => return Err(e),
        };
        let ghost s = self.reader.unread();
        match self.reader.read_n_bytes(len as usize) {
            Ok(b) => {
                assert(s.take(len as int) == b@);
                Ok(Value::Bytes(b))
            },
            Err(e) => Err(e),
        }
    }

    fn deserialize_string(&mut self, additional: u8) -> (r: Result<Value, Error>)
        ensures
            parse_body(MAJOR_TEXT, additional, old(self).reader.unread()) == outcome(
                r,
                final(self).reader.unread(),
            ),
            final(self).reader.unread().len() <= old(self).reader.unread().len(),
    {
        let len = match self.read_additional_type(additional) {
            Ok(n) => n,
            Err(e) => return Err(e),
        };
        match self.reader.read_n_bytes(len as usize) {
            Ok(b) => match string_from_utf8(b) {
                Some(s) => Ok(Value::String(s)),
                None => Err(Error::TextDecodeError),
            },
            Err(e) => Err(e),
        }
    }

    fn deserialize_array(&mut self, additional: u8) -> (r: Result<Value, Error>)
        ensures
            parse_body(MAJOR_ARRAY, additional, old(self).reader.unread()) == outcome(
                r,
                final(self).reader.unread(),
            ),
            final(self).reader.unread().len() <= old(self).reader.unread().len(),
        decreases old(self).reader.unread().len(), 2nat,
    {
        let n = match self.read_additional_type(additional) {
            Ok(n) => n,
            Err(e) => return Err(e),
        };
        let ghost s0 = self.reader.unread();
        let ghost start_len = old(self).reader.unread().len();
        let mut items: Vec<Value> = Vec::new();
        let mut i: u32 = 0;
        while i < n
            invariant
                i <= n,
                self.reader.unread().len() <= start_len,
                start_len == old(self).reader.unread().len(),
                parse_body(MAJOR_ARRAY, additional, old(self).reader.unread()) == (match parse_items(
                    s0,
                    n as nat,
                    Seq::empty(),
                ) {
                    Ok((items, rest)) => Ok((ValueModel::Array(items), rest)),
                    Err(e) => Err(e),
                }),
                parse_items(s0, n as nat, Seq::empty()) == parse_items(
                    self.reader.unread(),
                    (n - i) as nat,
                    model_of_items(items@),
                ),
            decreases n - i,
        {
            let ghost cur = self.reader.unread();
            let v = match self.parse_value() {
                Ok(v) => v,
                Err(e) => return Err(e),
            };
            proof {
                lemma_model_of_items_concat(items@, seq![v]);
                lemma_model_of_items_single(v);
                assert(parse_items(cur, (n - i) as nat, model_of_items(items@)) == parse_items(
                    self.reader.unread(),
                    (n - i - 1) as nat,
                    model_of_items(items@).push(v@),
                ));
                assert(model_of_items(items@.push(v)) == model_of_items(items@).push(v@)) by {
                    assert(items@.push(v) =~= items@ + seq![v]);
                    assert(model_of_items(items@) + seq![v@] =~= model_of_items(items@).push(v@));
                }
            }
            items.push(v);
            i = i + 1;
        }
        proof {
            assert(model_of_items(Seq::<Value>::empty()) == Seq::<ValueModel>::empty());
        }
        Ok(Value::Array(items))
    }

    fn deserialize_map(&mut self, additional: u8) -> (r: Result<Value, Error>)
        ensures
            parse_body(MAJOR_MAP, additional, old(self).reader.unread()) == outcome(
                r,
                final(self).reader.unread(),
            ),
            final(self).reader.unread().len() <= old(self).reader.unread().len(),
        decreases old(self).reader.unread().len(), 2nat,
    {
        let n = match self.read_additional_type(additional) {
            Ok(n) => n,
            Err(e) => return Err(e),
        };
        let ghost s0 = self.reader.unread();
        let ghost start_len = old(self).reader.unread().len();
        let mut entries: Vec<(String, Value)> = Vec::new();
        let mut i: u32 = 0;
        while i < n
            invariant
                i <= n,
                self.reader.unread().len() <= start_len,
                start_len == old(self).reader.unread().len(),
                parse_body(MAJOR_MAP, additional, old(self).reader.unread()) == (match parse_entries(
                    s0,
                    n as nat,
                    Seq::empty(),
                ) {
                    Ok((m, rest)) => Ok((ValueModel::Mapping(m), rest)),
                    Err(e) => Err(e),
                }),
                parse_entries(s0, n as nat, Seq::empty()) == parse_entries(
                    self.reader.unread(),
                    (n - i) as nat,
                    model_of_entries(entries@),
                ),
            decreases n - i,
        {
            let ghost cur = self.reader.unread();
            let key = match self.parse_value() {
                Ok(Value::String(t)) => t,
                Ok(_) => return Err(Error::InvalidMapKey),
                Err(e) => return Err(e),
            };
            let value = match self.parse_value() {
                Ok(v) => v,
                Err(e) => return Err(e),
            };
            proof {
                assert(parse_entries(cur, (n - i) as nat, model_of_entries(entries@))
                    == parse_entries(
                    self.reader.unread(),
                    (n - i - 1) as nat,
                    map_insert(model_of_entries(entries@), key@, value@),
                ));
            }
            insert_entry(&mut entries, key, value);
            i = i + 1;
        }
        proof {
            assert(model_of_entries(Seq::<(String, Value)>::empty()) == Seq::<
                (Seq<char>, ValueModel),
            >::empty());
        }
        Ok(Value::Mapping(entries))
    }

    fn deserialize_simple(&mut self, additional: u8) -> (r: Result<Value, Error>)
        ensures
            parse_body(MAJOR_SIMPLE, additional, old(self).reader.unread()) == outcome(
                r,
                final(self).reader.unread(),
            ),
            final(self).reader.unread().len() <= old(self).reader.unread().len(),
    {
        match self.read_additional_type(additional) {
            Ok(n) => if n == SIMPLE_NULL as u32 {
                Ok(Value::Null)
            } else {
                Err(Error::UnsupportedSimpleValue)
            },
            Err(e) => Err(e),
        }
    }
}

} // verus!
