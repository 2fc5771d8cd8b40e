//! The encoder: a sink-independent walk over a value, through the
//! `Serializer` capability, and the in-memory sink `VecSerializer`.
use vstd::prelude::*;
use vstd::utf8::*;
use crate::bytes::make_header;
use crate::error::Error;
use crate::grammar::{
    MAJOR_ARRAY, MAJOR_BYTES, MAJOR_MAP, MAJOR_SIMPLE, MAJOR_TEXT, MAJOR_UNSIGNED, MAX_ENCODED,
    SIMPLE_NULL, encodable, encodable_entries, encodable_items, encoded_header, encoding,
    encoding_entries, encoding_items, lemma_encoding_entries_concat,
    lemma_encoding_entries_single, lemma_encoding_items_concat, lemma_encoding_items_single,
    text_encoding,
};
use crate::io::VecWriter;
use crate::value::{
    Value, ValueModel, lemma_model_of_entries_index, lemma_model_of_items_index, model_of,
    model_of_entries, model_of_items,
};

verus! {

broadcast use vstd::std_specs::vec::group_vec_axioms;

/// The capability to append the wire form of the parts of a value.
pub trait Serializer {
    /// Everything appended so far.
    spec fn written(&self) -> Seq<u8>;

    /// Appends the header for the count or integer `n` under `major_type`.
    fn serialize_unsigned(&mut self, n: usize, major_type: u8) -> (r: Result<(), Error>)
        requires
            major_type < 8,
        ensures
            n <= 255 ==> r is Ok && final(self).written() == old(self).written() + encoded_header(
                major_type,
                n as nat,
            ),
            n > 255 ==> r == Err::<(), Error>(Error::Unrepresentable) && final(self).written()
                == old(self).written(),
    ;

    /// Appends raw bytes.
    fn serialize_bytes(&mut self, bytes: Vec<u8>)
        ensures
            final(self).written() == old(self).written() + bytes@,
    ;

    /// Appends the header of an array of `len` items.
    fn serialize_seq(&mut self, len: usize) -> (r: Result<(), Error>)
        ensures
            len <= 255 ==> r is Ok && final(self).written() == old(self).written()
                + encoded_header(MAJOR_ARRAY, len as nat),
            len > 255 ==> r == Err::<(), Error>(Error::Unrepresentable) && final(self).written()
                == old(self).written(),
    ;

    /// Appends the header of a map of `len` entries.
    fn serialize_map(&mut self, len: usize) -> (r: Result<(), Error>)
        ensures
            len <= 255 ==> r is Ok && final(self).written() == old(self).written()
                + encoded_header(MAJOR_MAP, len as nat),
            len > 255 ==> r == Err::<(), Error>(Error::Unrepresentable) && final(self).written()
                == old(self).written(),
    ;

    /// Appends the simple value `value`.
    fn serialize_simple(&mut self, value: usize) -> (r: Result<(), Error>)
        ensures
            value <= 255 ==> r is Ok && final(self).written() == old(self).written()
                + encoded_header(MAJOR_SIMPLE, value as nat),
            value > 255 ==> r == Err::<(), Error>(Error::Unrepresentable)
                && final(self).written() == old(self).written(),
    ;

    /// Appends a text string: its header, then its UTF-8 bytes.
    fn serialize_string(&mut self, string: &String) -> (r: Result<(), Error>)
        ensures
            encode_utf8(string@).len() <= 255 ==> r is Ok && final(self).written() == old(
                self,
            ).written() + text_encoding(string@),
            encode_utf8(string@).len() > 255 ==> r == Err::<(), Error>(Error::Unrepresentable)
                && final(self).written() == old(self).written(),
    ;
}

/// A value that can append its own wire form to a `Serializer`.
pub trait Serialize {
    /// Whether every count and integer in it fits the encoder.
    spec fn fits(&self) -> bool;

    /// Its wire form.
    spec fn wire(&self) -> Seq<u8>;

    fn serialize<S: Serializer>(&self, serializer: &mut S) -> (r: Result<(), Error>)
        ensures
            r is Ok <==> self.fits(),
            r is Err ==> r == Err::<(), Error>(Error::Unrepresentable),
            r is Ok ==> final(serializer).written() == old(serializer).written() + self.wire(),
    ;
}

impl Serialize for Value {
    open spec fn fits(&self) -> bool {
        encodable(self@)
    }

    open spec fn wire(&self) -> Seq<u8> {
        encoding(self@)
    }

    fn serialize<S: Serializer>(&self, serializer: &mut S) -> (r: Result<(), Error>) {
        serialize_value(self, serializer)
    }
}

/// Appends the wire form of `value`: arrays in order, maps in the order of
/// their entries.
pub fn serialize_value<S: Serializer>(value: &Value, serializer: &mut S) -> (r: Result<(), Error>)
    ensures
        r is Ok <==> encodable(value@),
        r is Err ==> r == Err::<(), Error>(Error::Unrepresentable),
        r is Ok ==> final(serializer).written() == old(serializer).written() + encoding(value@),
    decreases value,
{
    match value {
        Value::Null => serializer.serialize_simple(SIMPLE_NULL as usize),
        Value::Int(n) => serializer.serialize_unsigned(*n as usize, MAJOR_UNSIGNED),
        Value::Bytes(b) => {
            assert(value@ == ValueModel::Bytes(b@));
            match serializer.serialize_unsigned(b.len(), MAJOR_BYTES) {
                Ok(()) => {},
                Err(e) => return Err(e),
            }
            serializer.serialize_bytes(vstd::slice::slice_to_vec(b.as_slice()));
            Ok(())
        },
        Value::String(s) => serializer.serialize_string(s),
        Value::Array(items) => {
            proof {
                lemma_model_of_items_index(items@);
            }
            assert(value@ == ValueModel::Array(model_of_items(items@)));
            match serializer.serialize_seq(items.len()) {
                Ok(()) => {},
                Err(e) => return Err(e),
            }
            let ghost ms = model_of_items(items@);
            assert(value@ == ValueModel::Array(ms));
            let ghost w0 = serializer.written();
            proof {
                lemma_model_of_items_index(items@);
                assert(ms.take(0) =~= Seq::<ValueModel>::empty());
            }
            let mut i: usize = 0;
            while i < items.len()
                invariant
                    i <= items@.len(),
                    value@ == ValueModel::Array(ms),
                    *value == Value::Array(*items),
                    ms == model_of_items(items@),
                    ms.len() == items@.len(),
                    forall|j: int| 0 <= j < items@.len() ==> #[trigger] ms[j] == model_of(items@[j]),
                    serializer.written() == w0 + encoding_items(ms.take(i as int)),
                    encodable_items(ms.take(i as int)),
                decreases items@.len() - i,
            {
                proof {
                    assert(decreases_to!(*value => items[i as int]));
                }
                let r = serialize_value(&items[i], serializer);
                proof {
                    lemma_encoding_items_single(ms[i as int]);
                    assert(ms.take(i + 1) =~= ms.take(i as int) + seq![ms[i as int]]);
                    lemma_encoding_items_concat(ms.take(i as int), seq![ms[i as int]]);
                    if r is Err {
                        assert(ms =~= ms.take(i + 1) + ms.skip(i + 1));
                        lemma_encoding_items_concat(ms.take(i + 1), ms.skip(i + 1));
                    }
                }
                match r {
                    Ok(()) => {},
                    Err(e) => return Err(e),
                }
                i = i + 1;
            }
            proof {
                assert(ms.take(i as int) =~= ms);
            }
            Ok(())
        },
        Value::Mapping(entries) => {
            proof {
                lemma_model_of_entries_index(entries@);
            }
            assert(value@ == ValueModel::Mapping(model_of_entries(entries@)));
            match serializer.serialize_map(entries.len()) {
                Ok(()) => {},
                Err(e) => return Err(e),
            }
            let ghost me = model_of_entries(entries@);
            assert(value@ == ValueModel::Mapping(me));
            let ghost w0 = serializer.written();
            proof {
                lemma_model_of_entries_index(entries@);
                assert(me.take(0) =~= Seq::<(Seq<char>, ValueModel)>::empty());
            }
            let mut i: usize = 0;
            while i < entries.len()
                invariant
                    i <= entries@.len(),
                    value@ == ValueModel::Mapping(me),
                    *value == Value::Mapping(*entries),
                    me == model_of_entries(entries@),
                    me.len() == entries@.len(),
                    forall|j: int|
                        0 <= j < entries@.len() ==> #[trigger] me[j] == (
                            entries@[j].0@,
                            model_of(entries@[j].1),
                        ),
                    serializer.written() == w0 + encoding_entries(me.take(i as int)),
                    encodable_entries(me.take(i as int)),
                decreases entries@.len() - i,
            {
                let ghost x = me[i as int];
                proof {
                    lemma_encoding_entries_single(x);
                    assert(me.take(i + 1) =~= me.take(i as int) + seq![x]);
                    lemma_encoding_entries_concat(me.take(i as int), seq![x]);
                    assert(me =~= me.take(i + 1) + me.skip(i + 1));
                    lemma_encoding_entries_concat(me.take(i + 1), me.skip(i + 1));
                }
                let (key, val) = &entries[i];
                proof {
                    assert(decreases_to!(*value => entries[i as int].1));
                }
                match serializer.serialize_string(key) {
                    Ok(()) => {},
                    Err(e) => return Err(e),
                }
                match serialize_value(val, serializer) {
                    Ok(()) => {},
                    Err(e) => return Err(e),
                }
                i = i + 1;
            }
            proof {
                assert(me.take(i as int) =~= me);
            }
            Ok(())
        },
    }
}

/// A serializer that appends to an in-memory buffer.
pub struct VecSerializer {
    pub writer: VecWriter,
}

/// Encodes `value` into a fresh buffer.
pub fn to_bytes(value: Value) -> (r: Result<Vec<u8>, Error>)
    ensures
        encodable(value@) ==> r is Ok && r->Ok_0@ == encoding(value@),
        !encodable(value@) ==> r == Err::<Vec<u8>, Error>(Error::Unrepresentable),
{
    let mut serializer = VecSerializer::from_vec_writer(VecWriter::new());
    match value.serialize(&mut serializer) {
        Ok(()) => {
            assert(serializer.writer.output@ =~= encoding(value@));
            Ok(serializer.writer.output)
        },
        Err(e) => Err(e),
    }
}

impl VecSerializer {
    pub fn from_vec_writer(vec_writer: VecWriter) -> (r: VecSerializer)
        ensures
            r.writer == vec_writer,
    {
        VecSerializer { writer: vec_writer }
    }

    /// The shortest header for the count or integer `n` under `major_type`:
    /// one byte up to 23, two bytes up to 255; larger values are refused.
    pub fn encode_unsigned(&self, n: usize, major_type: u8) -> (r: Result<Vec<u8>, Error>)
        requires
            major_type < 8,
        ensures
            n <= 255 ==> r is Ok && r->Ok_0@ == encoded_header(major_type, n as nat),
            n <= 23 ==> r is Ok && r->Ok_0@.len() == 1,
            24 <= n <= 255 ==> r is Ok && r->Ok_0@.len() == 2,
            n > 255 ==> r == Err::<Vec<u8>, Error>(Error::Unrepresentable),
    {
        let mut out: Vec<u8> = Vec::new();
        if n <= 23 {
            out.push(make_header(major_type, n as u8));
            assert(out@ =~= encoded_header(major_type, n as nat));
            Ok(out)
        } else if n <= MAX_ENCODED {
            out.push(make_header(major_type, 24));
            out.push(n as u8);
            assert(out@ =~= encoded_header(major_type, n as nat));
            Ok(out)
        } else {
            Err(Error::Unrepresentable)
        }
    }
}

impl Serializer for VecSerializer {
    open spec fn written(&self) -> Seq<u8> {
        self.writer.output@
    }

    fn serialize_unsigned(&mut self, n: usize, major_type: u8) -> (r: Result<(), Error>) {
        match self.encode_unsigned(n, major_type) {
            Ok(bytes) => {
                self.writer.write_bytes(bytes);
                Ok(())
            },
            Err(e) => Err(e),
        }
    }

    fn serialize_bytes(&mut self, bytes: Vec<u8>) {
        self.writer.write_bytes(bytes);
    }

    fn serialize_string(&mut self, string: &String) -> (r: Result<(), Error>) {
        let bytes = string.as_str().as_bytes();
        match self.serialize_unsigned(bytes.len(), MAJOR_TEXT) {
            Ok(()) => {},
            Err(e) => return Err(e),
        }
        self.writer.write_bytes(vstd::slice::slice_to_vec(bytes));
        assert(self.writer.output@ =~= old(self).writer.output@ + text_encoding(string@));
        Ok(())
    }

    fn serialize_seq(&mut self, len: usize) -> (r: Result<(), Error>) {
        self.serialize_unsigned(len, MAJOR_ARRAY)
    }

    fn serialize_map(&mut self, len: usize) -> (r: Result<(), Error>) {
        self.serialize_unsigned(len, MAJOR_MAP)
    }

    fn serialize_simple(&mut self, value: usize) -> (r: Result<(), Error>) {
        self.serialize_unsigned(value, MAJOR_SIMPLE)
    }
}

} // verus!
