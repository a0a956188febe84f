//! Objects and arrays over caller-chosen storage, with a count of the
//! leading slots that hold real entries.
use vstd::prelude::*;
use vstd::string::StringSliceAdditionalSpecFns;
use vstd::utf8::encode_utf8;
use crate::outside::{slice_write_all, string_from_bytes};
use crate::parse::{
    lemma_ascii_valid_utf8, parse_array_spec, parse_json_array, parse_json_object,
    parse_object_spec, ParseBuffer, Scan, StringBuffer,
};
use crate::serialize::{
    array_text, fields_are_ascii, fields_ascii, object_text, serialize_json_array,
    serialize_json_object, tail_from, values_are_ascii, values_ascii, JsonSerializeFailure,
    StringWrite,
};
use crate::value::{fields_view, values_view, FieldModel, JsonField, JsonParseFailure, JsonValue, ValueModel};

verus! {

/// An arena for unescaped strings that grows as needed.
pub type AllocEscapeBuffer = elsa::FrozenVec<String>;

/// A sink that fills a borrowed byte slice from the front, through
/// embedded-io's writer for `&mut [u8]`.
struct SliceSink<'b> {
    rest: &'b mut [u8],
    written: Ghost<Seq<u8>>,
}

impl<'b> StringWrite for SliceSink<'b> {
    type StringWriteFailure = embedded_io::SliceWriteError;

    closed spec fn taken(&self) -> Seq<u8> {
        self.written@
    }

    closed spec fn room(&self) -> Option<nat> {
        Some(self.rest@.len())
    }

    closed spec fn target(&self) -> Option<(Seq<u8>, &mut [u8])> {
        Some((self.written@, self.rest))
    }

    fn write_byte(&mut self, data: u8) -> (r: Result<(), embedded_io::SliceWriteError>) {
        let one: [u8; 1] = [data];
        assert(one@ =~= seq![data]);
        let r = slice_write_all(&mut self.rest, one.as_slice());
        match r {
            Ok(()) => {
                self.written = Ghost(self.written@.push(data));
                assert(self.written@ + (*final(self.rest))@ =~= old(self).written@ + (seq![data] + (*final(self.rest))@));
                Ok(())
            },
            Err(e) => {
                assert(one@.subrange(0, 0) + (*final(self.rest))@ =~= (*final(self.rest))@);
                Err(e)
            },
        }
    }
}

/// Storage for object fields that can be read.
pub trait FieldBuffer<'a> {
    /// The slots, initialized or not.
    spec fn slots(&self) -> Seq<JsonField<'a, 'a>>;

    fn as_fields(&self) -> (r: &[JsonField<'a, 'a>])
        ensures
            r@ == self.slots(),
    ;
}

/// Storage for object fields that can be written.
pub trait FieldBufferMut<'a>: FieldBuffer<'a> {
    fn as_fields_mut(&mut self) -> (r: &mut [JsonField<'a, 'a>])
        ensures
            r@ == old(self).slots(),
            final(self).slots() == (*final(r))@,
    ;

    fn set_field(&mut self, i: usize, field: JsonField<'a, 'a>)
        requires
            i < old(self).slots().len(),
        ensures
            final(self).slots() == old(self).slots().update(i as int, field),
    ;
}

/// Storage for array values that can be read.
pub trait ValueBuffer<'a> {
    /// The slots, initialized or not.
    spec fn slots(&self) -> Seq<JsonValue<'a>>;

    fn as_values(&self) -> (r: &[JsonValue<'a>])
        ensures
            r@ == self.slots(),
    ;
}

/// Storage for array values that can be written.
pub trait ValueBufferMut<'a>: ValueBuffer<'a> {
    fn as_values_mut(&mut self) -> (r: &mut [JsonValue<'a>])
        ensures
            r@ == old(self).slots(),
            final(self).slots() == (*final(r))@,
    ;

    fn set_value(&mut self, i: usize, value: JsonValue<'a>)
        requires
            i < old(self).slots().len(),
        ensures
            final(self).slots() == old(self).slots().update(i as int, value),
    ;
}

impl<'a, const N: usize> FieldBuffer<'a> for [JsonField<'a, 'a>; N] {
    open spec fn slots(&self) -> Seq<JsonField<'a, 'a>> {
        self@
    }

    fn as_fields(&self) -> (r: &[JsonField<'a, 'a>]) {
        self.as_slice()
    }
}

impl<'a, const N: usize> FieldBufferMut<'a> for [JsonField<'a, 'a>; N] {
    fn as_fields_mut(&mut self) -> (r: &mut [JsonField<'a, 'a>]) {
        self
    }

    fn set_field(&mut self, i: usize, field: JsonField<'a, 'a>) {
        self[i] = field;
    }
}

impl<'a, 'b, const N: usize> FieldBuffer<'a> for &'b mut [JsonField<'a, 'a>; N] {
    open spec fn slots(&self) -> Seq<JsonField<'a, 'a>> {
        (**self)@
    }

    fn as_fields(&self) -> (r: &[JsonField<'a, 'a>]) {
        (**self).as_slice()
    }
}

impl<'a, 'b, const N: usize> FieldBufferMut<'a> for &'b mut [JsonField<'a, 'a>; N] {
    fn as_fields_mut(&mut self) -> (r: &mut [JsonField<'a, 'a>]) {
        &mut **self
    }

    fn set_field(&mut self, i: usize, field: JsonField<'a, 'a>) {
        (**self)[i] = field;
    }
}

impl<'a, 'b> FieldBuffer<'a> for &'b mut [JsonField<'a, 'a>] {
    open spec fn slots(&self) -> Seq<JsonField<'a, 'a>> {
        (**self)@
    }

    fn as_fields(&self) -> (r: &[JsonField<'a, 'a>]) {
        &**self
    }
}

impl<'a, 'b> FieldBufferMut<'a> for &'b mut [JsonField<'a, 'a>] {
    fn as_fields_mut(&mut self) -> (r: &mut [JsonField<'a, 'a>]) {
        &mut **self
    }

    fn set_field(&mut self, i: usize, field: JsonField<'a, 'a>) {
        (**self)[i] = field;
    }
}

impl<'a, 'b> FieldBuffer<'a> for &'b [JsonField<'a, 'a>] {
    open spec fn slots(&self) -> Seq<JsonField<'a, 'a>> {
        (**self)@
    }

    fn as_fields(&self) -> (r: &[JsonField<'a, 'a>]) {
        *self
    }
}

impl<'a> FieldBuffer<'a> for Vec<JsonField<'a, 'a>> {
    open spec fn slots(&self) -> Seq<JsonField<'a, 'a>> {
        self@
    }

    fn as_fields(&self) -> (r: &[JsonField<'a, 'a>]) {
        self.as_slice()
    }
}

impl<'a> FieldBufferMut<'a> for Vec<JsonField<'a, 'a>> {
    fn as_fields_mut(&mut self) -> (r: &mut [JsonField<'a, 'a>]) {
        self.as_mut_slice()
    }

    fn set_field(&mut self, i: usize, field: JsonField<'a, 'a>) {
        self.set(i, field);
    }
}

impl<'a, const N: usize> ValueBuffer<'a> for [JsonValue<'a>; N] {
    open spec fn slots(&self) -> Seq<JsonValue<'a>> {
        self@
    }

    fn as_values(&self) -> (r: &[JsonValue<'a>]) {
        self.as_slice()
    }
}

impl<'a, const N: usize> ValueBufferMut<'a> for [JsonValue<'a>; N] {
    fn as_values_mut(&mut self) -> (r: &mut [JsonValue<'a>]) {
        self
    }

    fn set_value(&mut self, i: usize, value: JsonValue<'a>) {
        self[i] = value;
    }
}

impl<'a, 'b, const N: usize> ValueBuffer<'a> for &'b mut [JsonValue<'a>; N] {
    open spec fn slots(&self) -> Seq<JsonValue<'a>> {
        (**self)@
    }

    fn as_values(&self) -> (r: &[JsonValue<'a>]) {
        (**self).as_slice()
    }
}

impl<'a, 'b, const N: usize> ValueBufferMut<'a> for &'b mut [JsonValue<'a>; N] {
    fn as_values_mut(&mut self) -> (r: &mut [JsonValue<'a>]) {
        &mut **self
    }

    fn set_value(&mut self, i: usize, value: JsonValue<'a>) {
        (**self)[i] = value;
    }
}

impl<'a, 'b> ValueBuffer<'a> for &'b mut [JsonValue<'a>] {
    open spec fn slots(&self) -> Seq<JsonValue<'a>> {
        (**self)@
    }

    fn as_values(&self) -> (r: &[JsonValue<'a>]) {
        &**self
    }
}

impl<'a, 'b> ValueBufferMut<'a> for &'b mut [JsonValue<'a>] {
    fn as_values_mut(&mut self) -> (r: &mut [JsonValue<'a>]) {
        &mut **self
    }

    fn set_value(&mut self, i: usize, value: JsonValue<'a>) {
        (**self)[i] = value;
    }
}

impl<'a, 'b> ValueBuffer<'a> for &'b [JsonValue<'a>] {
    open spec fn slots(&self) -> Seq<JsonValue<'a>> {
        (**self)@
    }

    fn as_values(&self) -> (r: &[JsonValue<'a>]) {
        *self
    }
}

impl<'a> ValueBuffer<'a> for Vec<JsonValue<'a>> {
    open spec fn slots(&self) -> Seq<JsonValue<'a>> {
        self@
    }

    fn as_values(&self) -> (r: &[JsonValue<'a>]) {
        self.as_slice()
    }
}

impl<'a> ValueBufferMut<'a> for Vec<JsonValue<'a>> {
    fn as_values_mut(&mut self) -> (r: &mut [JsonValue<'a>]) {
        self.as_mut_slice()
    }

    fn set_value(&mut self, i: usize, value: JsonValue<'a>) {
        self.set(i, value);
    }
}


/// A JSON object over a buffer of fields, of which the first `len()` are
/// its entries, in order.
#[derive(Debug, Clone, Copy)]
pub struct JsonObject<Fields> {
    fields: Fields,
    num_fields: usize,
}

impl<Fields> JsonObject<Fields> {
    /// The buffer.
    pub closed spec fn buffer(&self) -> Fields {
        self.fields
    }

    /// How many leading slots are entries.
    pub closed spec fn count(&self) -> nat {
        self.num_fields as nat
    }

    /// Takes the object apart: the buffer and how many leading slots are
    /// entries.
    pub fn into_inner(self) -> (r: (Fields, usize))
        ensures
            r.0 == self.buffer(),
            r.1 == self.count(),
    {
        (self.fields, self.num_fields)
    }
}

impl<'a, T: FieldBuffer<'a>> JsonObject<T> {
    /// The count fits the buffer.
    pub open spec fn wf(&self) -> bool {
        self.count() <= self.buffer().slots().len()
    }

    /// The entries.
    pub open spec fn entries(&self) -> Seq<JsonField<'a, 'a>> {
        self.buffer().slots().subrange(0, self.count() as int)
    }

    /// The models of the entries, in order.
    pub open spec fn view(&self) -> Seq<FieldModel> {
        fields_view(self.entries())
    }

    /// An object over `fields` with no entries.
    pub fn wrap(fields: T) -> (r: Self)
        ensures
            r.wf(),
            r.buffer() == fields,
            r.count() == 0,
    {
        JsonObject { fields, num_fields: 0 }
    }

    /// An object whose entries are all of `fields`.
    pub fn wrap_init(fields: T) -> (r: Self)
        ensures
            r.wf(),
            r.buffer() == fields,
            r.count() == fields.slots().len(),
    {
        let num_fields = fields.as_fields().len();
        JsonObject { fields, num_fields }
    }

    /// The number of entries.
    pub fn len(&self) -> (r: usize)
        ensures
            r == self.count(),
    {
        self.num_fields
    }

    /// The number of slots.
    pub fn capacity(&self) -> (r: usize)
        ensures
            r == self.buffer().slots().len(),
    {
        self.fields.as_fields().len()
    }

    /// The entries.
    pub fn fields(&self) -> (r: &[JsonField<'a, 'a>])
        requires
            self.wf(),
        ensures
            r@ == self.entries(),
    {
        self.fields.as_fields().split_at(self.num_fields).0
    }

    /// Whether every key and string value is ASCII: only then does the
    /// object have JSON text here.
    pub fn strings_are_ascii(&self) -> (r: bool)
        requires
            self.wf(),
        ensures
            r == fields_ascii(self.view()),
    {
        let entries = self.fields();
        assert(fields_view(entries@) == self.view());
        fields_are_ascii(entries)
    }

    /// Writes the object's JSON text into `output`; returns its length. Fails
    /// with `Full`, having filled `output`, when the text does not fit, and
    /// with `NonAsciiString`, writing nothing, when a string is not ASCII.
    pub fn serialize(&self, output: &mut [u8]) -> (r: Result<
        usize,
        JsonSerializeFailure<embedded_io::SliceWriteError>,
    >)
        requires
            self.wf(),
            object_text(self.view()).len() <= usize::MAX,
        ensures
            (*final(output))@.len() == old(output)@.len(),
            !fields_ascii(self.view()) ==> r == Err::<usize, _>(
                JsonSerializeFailure::<embedded_io::SliceWriteError>::NonAsciiString,
            ) && (*final(output))@ == old(output)@,
            fields_ascii(self.view()) ==> ({
                let t = object_text(self.view());
                &&& r is Ok <==> t.len() <= old(output)@.len()
                &&& r matches Ok(n) ==> n == t.len() && (*final(output))@.subrange(0, n as int) == t
                &&& r matches Err(f) ==> f is Sink && (*final(output))@ == t.subrange(
                    0,
                    old(output)@.len() as int,
                )
            }),
    {
        match self.serialize_resume(output, 0) {
            Ok(n) => Ok(n),
            Err((_written, e)) => Err(e),
        }
    }

    /// Writes the object's JSON text from byte offset `resume_from` on into
    /// `output`; returns how many bytes that is. Fails with `Full`, having
    /// filled `output`, when they do not fit, and then the count is the
    /// length of `output`; fails with `NonAsciiString`, writing nothing,
    /// when a string is not ASCII.
    pub fn serialize_resume(&self, output: &mut [u8], resume_from: usize) -> (r: Result<
        usize,
        (usize, JsonSerializeFailure<embedded_io::SliceWriteError>),
    >)
        requires
            self.wf(),
            object_text(self.view()).len() <= usize::MAX,
        ensures
            (*final(output))@.len() == old(output)@.len(),
            !fields_ascii(self.view()) ==> r == Err::<usize, _>(
                (0usize, JsonSerializeFailure::<embedded_io::SliceWriteError>::NonAsciiString),
            ) && (*final(output))@ == old(output)@,
            fields_ascii(self.view()) ==> ({
                let t = tail_from(object_text(self.view()), resume_from as int);
                &&& r is Ok <==> t.len() <= old(output)@.len()
                &&& r matches Ok(n) ==> n == t.len() && (*final(output))@.subrange(0, n as int) == t
                &&& r matches Err((m, f)) ==> f is Sink && m == old(output)@.len() && (*final(output))@
                    == t.subrange(0, m as int)
            }),
    {
        let entries = self.fields();
        assert(fields_view(entries@) == self.view());
        let mut sink = SliceSink { rest: output, written: Ghost(Seq::empty()) };
        let r = serialize_json_object(&mut sink, entries, resume_from);
        let SliceSink { rest, written } = sink;
        assert((*final(output))@ == written@ + rest@);
        let ghost t = tail_from(object_text(self.view()), resume_from as int);
        match r {
            Ok(n) => {
                assert(written@ =~= t);
                assert((*final(output))@.subrange(0, n as int) =~= t);
                Ok(n)
            },
            Err((m, e)) => {
                proof {
                    if fields_ascii(self.view()) {
                        assert(written@ =~= t.subrange(0, m as int));
                        assert(rest@.len() == 0);
                        assert((*final(output))@ =~= t.subrange(0, m as int));
                    } else {
                        assert(written@ =~= Seq::<u8>::empty());
                        assert((*final(output))@ =~= old(output)@);
                    }
                }
                Err((m, e))
            },
        }
    }

    /// The object's JSON text; its strings must be ASCII.
    pub fn to_string(&self) -> (r: String)
        requires
            self.wf(),
            fields_ascii(self.view()),
            object_text(self.view()).len() <= usize::MAX,
        ensures
            encode_utf8(r@) == object_text(self.view()),
    {
        let mut text: Vec<u8> = Vec::new();
        let fields = self.fields();
        assert(fields_view(fields@) == self.view());
        match serialize_json_object(&mut text, fields, 0) {
            Ok(_) => {},
            Err(_) => {
                assert(false);
            },
        }
        assert(text@ =~= object_text(self.view()));
        proof {
            crate::serialize::lemma_object_text_ascii(self.view());
            lemma_ascii_valid_utf8(text@);
        }
        match string_from_bytes(text) {
            Some(s) => s,
            None => {
                assert(false);
                String::new()
            },
        }
    }
}


/// A JSON array over a buffer of values, of which the first `len()` are
/// its entries, in order.
#[derive(Debug, Clone, Copy)]
pub struct JsonArray<Values> {
    values: Values,
    num_values: usize,
}

impl<Values> JsonArray<Values> {
    /// The buffer.
    pub closed spec fn buffer(&self) -> Values {
        self.values
    }

    /// How many leading slots are entries.
    pub closed spec fn count(&self) -> nat {
        self.num_values as nat
    }

    /// Takes the array apart: the buffer and how many leading slots are
    /// entries.
    pub fn into_inner(self) -> (r: (Values, usize))
        ensures
            r.0 == self.buffer(),
            r.1 == self.count(),
    {
        (self.values, self.num_values)
    }
}

impl<'a, T: ValueBuffer<'a>> JsonArray<T> {
    /// The count fits the buffer.
    pub open spec fn wf(&self) -> bool {
        self.count() <= self.buffer().slots().len()
    }

    /// The entries.
    pub open spec fn entries(&self) -> Seq<JsonValue<'a>> {
        self.buffer().slots().subrange(0, self.count() as int)
    }

    /// The models of the entries, in order.
    pub open spec fn view(&self) -> Seq<ValueModel> {
        values_view(self.entries())
    }

    /// An array over `values` with no entries.
    pub fn wrap(values: T) -> (r: Self)
        ensures
            r.wf(),
            r.buffer() == values,
            r.count() == 0,
    {
        JsonArray { values, num_values: 0 }
    }

    /// An array whose entries are all of `values`.
    pub fn wrap_init(values: T) -> (r: Self)
        ensures
            r.wf(),
            r.buffer() == values,
            r.count() == values.slots().len(),
    {
        let num_values = values.as_values().len();
        JsonArray { values, num_values }
    }

    /// The number of entries.
    pub fn len(&self) -> (r: usize)
        ensures
            r == self.count(),
    {
        self.num_values
    }

    /// The number of slots.
    pub fn capacity(&self) -> (r: usize)
        ensures
            r == self.buffer().slots().len(),
    {
        self.values.as_values().len()
    }

    /// The entries.
    pub fn values(&self) -> (r: &[JsonValue<'a>])
        requires
            self.wf(),
        ensures
            r@ == self.entries(),
    {
        self.values.as_values().split_at(self.num_values).0
    }

    /// Whether every key and string value is ASCII: only then does the
    /// array have JSON text here.
    pub fn strings_are_ascii(&self) -> (r: bool)
        requires
            self.wf(),
        ensures
            r == values_ascii(self.view()),
    {
        let entries = self.values();
        assert(values_view(entries@) == self.view());
        values_are_ascii(entries)
    }

    /// Writes the array's JSON text into `output`; returns its length. Fails
    /// with `Full`, having filled `output`, when the text does not fit, and
    /// with `NonAsciiString`, writing nothing, when a string is not ASCII.
    pub fn serialize(&self, output: &mut [u8]) -> (r: Result<
        usize,
        JsonSerializeFailure<embedded_io::SliceWriteError>,
    >)
        requires
            self.wf(),
            array_text(self.view()).len() <= usize::MAX,
        ensures
            (*final(output))@.len() == old(output)@.len(),
            !values_ascii(self.view()) ==> r == Err::<usize, _>(
                JsonSerializeFailure::<embedded_io::SliceWriteError>::NonAsciiString,
            ) && (*final(output))@ == old(output)@,
            values_ascii(self.view()) ==> ({
                let t = array_text(self.view());
                &&& r is Ok <==> t.len() <= old(output)@.len()
                &&& r matches Ok(n) ==> n == t.len() && (*final(output))@.subrange(0, n as int) == t
                &&& r matches Err(f) ==> f is Sink && (*final(output))@ == t.subrange(
                    0,
                    old(output)@.len() as int,
                )
            }),
    {
        match self.serialize_resume(output, 0) {
            Ok(n) => Ok(n),
            Err((_written, e)) => Err(e),
        }
    }

    /// Writes the array's JSON text from byte offset `resume_from` on into
    /// `output`; returns how many bytes that is. Fails with `Full`, having
    /// filled `output`, when they do not fit, and then the count is the
    /// length of `output`; fails with `NonAsciiString`, writing nothing,
    /// when a string is not ASCII.
    pub fn serialize_resume(&self, output: &mut [u8], resume_from: usize) -> (r: Result<
        usize,
        (usize, JsonSerializeFailure<embedded_io::SliceWriteError>),
    >)
        requires
            self.wf(),
            array_text(self.view()).len() <= usize::MAX,
        ensures
            (*final(output))@.len() == old(output)@.len(),
            !values_ascii(self.view()) ==> r == Err::<usize, _>(
                (0usize, JsonSerializeFailure::<embedded_io::SliceWriteError>::NonAsciiString),
            ) && (*final(output))@ == old(output)@,
            values_ascii(self.view()) ==> ({
                let t = tail_from(array_text(self.view()), resume_from as int);
                &&& r is Ok <==> t.len() <= old(output)@.len()
                &&& r matches Ok(n) ==> n == t.len() && (*final(output))@.subrange(0, n as int) == t
                &&& r matches Err((m, f)) ==> f is Sink && m == old(output)@.len() && (*final(output))@
                    == t.subrange(0, m as int)
            }),
    {
        let entries = self.values();
        assert(values_view(entries@) == self.view());
        let mut sink = SliceSink { rest: output, written: Ghost(Seq::empty()) };
        let r = serialize_json_array(&mut sink, entries, resume_from);
        let SliceSink { rest, written } = sink;
        assert((*final(output))@ == written@ + rest@);
        let ghost t = tail_from(array_text(self.view()), resume_from as int);
        match r {
            Ok(n) => {
                assert(written@ =~= t);
                assert((*final(output))@.subrange(0, n as int) =~= t);
                Ok(n)
            },
            Err((m, e)) => {
                proof {
                    if values_ascii(self.view()) {
                        assert(written@ =~= t.subrange(0, m as int));
                        assert(rest@.len() == 0);
                        assert((*final(output))@ =~= t.subrange(0, m as int));
                    } else {
                        assert(written@ =~= Seq::<u8>::empty());
                        assert((*final(output))@ =~= old(output)@);
                    }
                }
                Err((m, e))
            },
        }
    }

    /// The array's JSON text; its strings must be ASCII.
    pub fn to_string(&self) -> (r: String)
        requires
            self.wf(),
            values_ascii(self.view()),
            array_text(self.view()).len() <= usize::MAX,
        ensures
            encode_utf8(r@) == array_text(self.view()),
    {
        let mut text: Vec<u8> = Vec::new();
        let fields = self.values();
        assert(values_view(fields@) == self.view());
        match serialize_json_array(&mut text, fields, 0) {
            Ok(_) => {},
            Err(_) => {
                assert(false);
            },
        }
        assert(text@ =~= array_text(self.view()));
        proof {
            crate::serialize::lemma_array_text_ascii(self.view());
            lemma_ascii_valid_utf8(text@);
        }
        match string_from_bytes(text) {
            Some(s) => s,
            None => {
                assert(false);
                String::new()
            },
        }
    }
}


impl<'a, T: FieldBufferMut<'a>> JsonObject<T> {
    /// The entries, to change in place. The slots after them stay as they
    /// were.
    pub fn fields_mut(&mut self) -> (r: &mut [JsonField<'a, 'a>])
        requires
            old(self).wf(),
        ensures
            r@ == old(self).entries(),
            final(self).count() == old(self).count(),
            final(self).buffer().slots() == (*final(r))@ + old(self).buffer().slots().subrange(
                old(self).count() as int,
                old(self).buffer().slots().len() as int,
            ),
    {
        let n = self.num_fields;
        let all = self.fields.as_fields_mut();
        let (entries, rest) = all.split_at_mut(n);
        proof {
            assert((*final(rest))@ == rest@);
        }
        entries
    }

    /// Appends `field` as an entry; hands it back when every slot is taken.
    pub fn push(&mut self, field: JsonField<'a, 'a>) -> (r: Result<(), JsonField<'a, 'a>>)
        requires
            old(self).wf(),
        ensures
            final(self).wf(),
            old(self).count() < old(self).buffer().slots().len() ==> r is Ok && final(self).entries()
                == old(self).entries().push(field),
            old(self).count() == old(self).buffer().slots().len() ==> r == Err::<(), _>(field)
                && final(self).entries() == old(self).entries(),
            final(self).buffer().slots().len() == old(self).buffer().slots().len(),
    {
        if self.num_fields == self.fields.as_fields().len() {
            return Err(field);
        }
        self.fields.set_field(self.num_fields, field);
        self.num_fields += 1;
        assert(self.entries() =~= old(self).entries().push(field));
        Ok(())
    }

    /// Removes the last entry and returns it, or `None` when there is none.
    pub fn pop(&mut self) -> (r: Option<JsonField<'a, 'a>>)
        requires
            old(self).wf(),
        ensures
            final(self).wf(),
            old(self).count() == 0 ==> r is None && final(self).entries() == old(self).entries(),
            old(self).count() > 0 ==> r == Some(old(self).entries().last()) && final(self).entries()
                == old(self).entries().drop_last(),
            final(self).buffer().slots().len() == old(self).buffer().slots().len(),
    {
        if self.num_fields == 0 {
            return None;
        }
        self.num_fields -= 1;
        let field = self.fields.as_fields()[self.num_fields];
        self.fields.set_field(self.num_fields, JsonField::default());
        assert(self.entries() =~= old(self).entries().drop_last());
        Some(field)
    }

    /// Appends an entry with `key` and `value`; fails when every slot is
    /// taken.
    pub fn push_field(&mut self, key: &'a str, value: JsonValue<'a>) -> (r: Result<(), ()>)
        requires
            old(self).wf(),
        ensures
            final(self).wf(),
            old(self).count() < old(self).buffer().slots().len() ==> r is Ok && final(self).entries()
                == old(self).entries().push(JsonField { key, value }),
            old(self).count() == old(self).buffer().slots().len() ==> r is Err && final(self).entries()
                == old(self).entries(),
            final(self).buffer().slots().len() == old(self).buffer().slots().len(),
    {
        match self.push(JsonField { key, value }) {
            Ok(()) => Ok(()),
            Err(_) => Err(()),
        }
    }

    /// Parses one object from `data` into this object's slots, unescaping
    /// its strings into `string_escape_buffer`; returns the number of bytes
    /// consumed. On failure the entry count stays as it was.
    pub fn parse(&mut self, data: &'a [u8], string_escape_buffer: &'a mut [u8]) -> (r: Result<
        usize,
        JsonParseFailure,
    >)
        requires
            old(self).wf(),
        ensures
            final(self).wf(),
            final(self).buffer().slots().len() == old(self).buffer().slots().len(),
            match parse_object_spec(
                data@,
                Some(old(string_escape_buffer)@.len()),
                Some(old(self).buffer().slots().len()),
            ) {
                Scan::Done(fs, e) => r matches Ok(n) && n == e && e <= data@.len() && final(self).view() == fs,
                Scan::Fail(f) => r == Err::<usize, _>(f) && final(self).count() == old(self).count(),
            },
    {
        let slots = self.fields.as_fields_mut();
        let field_buffer = ParseBuffer::Finite(0, slots);
        let mut escape = StringBuffer::Finite(0, string_escape_buffer);
        let (data_end, parsed_fields) = parse_json_object(data, field_buffer, &mut escape)?;
        self.num_fields = parsed_fields;
        proof {
            if let Scan::Done(fs, e) = parse_object_spec(data@, Some(old(string_escape_buffer)@.len()), Some(old(self).buffer().slots().len())) {
                assert(self.view() =~= fs);
            }
        }
        Ok(data_end)
    }

    /// Like [`JsonObject::parse`], with the strings kept in `escape_buffer`,
    /// an arena that grows as needed.
    pub fn parse_alloc_escape(&mut self, data: &'a [u8], escape_buffer: &'a elsa::FrozenVec<String>) -> (r: Result<
        usize,
        JsonParseFailure,
    >)
        requires
            old(self).wf(),
        ensures
            final(self).wf(),
            final(self).buffer().slots().len() == old(self).buffer().slots().len(),
            match parse_object_spec(data@, None, Some(old(self).buffer().slots().len())) {
                Scan::Done(fs, e) => r matches Ok(n) && n == e && e <= data@.len() && final(self).view() == fs,
                Scan::Fail(f) => r == Err::<usize, _>(f) && final(self).count() == old(self).count(),
            },
    {
        let slots = self.fields.as_fields_mut();
        let field_buffer = ParseBuffer::Finite(0, slots);
        let mut escape = StringBuffer::Infinite(Vec::new(), escape_buffer);
        let (data_end, parsed_fields) = parse_json_object(data, field_buffer, &mut escape)?;
        self.num_fields = parsed_fields;
        proof {
            if let Scan::Done(fs, e) = parse_object_spec(data@, None, Some(old(self).buffer().slots().len())) {
                assert(self.view() =~= fs);
            }
        }
        Ok(data_end)
    }
}

impl<'a> JsonObject<Vec<JsonField<'a, 'a>>> {
    /// Parses one object from `data`, growing the vector as needed for its
    /// fields and unescaping its strings into `escape_buffer`; returns the
    /// number of bytes consumed.
    pub fn parse_alloc_fields(&mut self, data: &'a [u8], escape_buffer: &'a mut [u8]) -> (r: Result<
        usize,
        JsonParseFailure,
    >)
        requires
            old(self).wf(),
            data@.len() < usize::MAX,
        ensures
            final(self).wf(),
            match parse_object_spec(data@, Some(old(escape_buffer)@.len()), None) {
                Scan::Done(fs, e) => r matches Ok(n) && n == e && e <= data@.len() && final(self).view() == fs,
                Scan::Fail(f) => r == Err::<usize, _>(f) && final(self).count() == old(self).count(),
            },
    {
        let field_buffer = ParseBuffer::Infinite(0, &mut self.fields);
        let mut escape = StringBuffer::Finite(0, escape_buffer);
        let (data_end, parsed_fields) = parse_json_object(data, field_buffer, &mut escape)?;
        self.num_fields = parsed_fields;
        proof {
            if let Scan::Done(fs, e) = parse_object_spec(data@, Some(old(escape_buffer)@.len()), None) {
                assert(self.view() =~= fs);
            }
        }
        Ok(data_end)
    }

    /// Parses one object from `data`, growing the vector as needed for its
    /// fields and keeping its strings in the arena `escape_buffer`; returns
    /// the number of bytes consumed.
    pub fn parse_alloc(&mut self, data: &'a [u8], escape_buffer: &'a elsa::FrozenVec<String>) -> (r: Result<
        usize,
        JsonParseFailure,
    >)
        requires
            old(self).wf(),
            data@.len() < usize::MAX,
        ensures
            final(self).wf(),
            match parse_object_spec(data@, None, None) {
                Scan::Done(fs, e) => r matches Ok(n) && n == e && e <= data@.len() && final(self).view() == fs,
                Scan::Fail(f) => r == Err::<usize, _>(f) && final(self).count() == old(self).count(),
            },
    {
        let field_buffer = ParseBuffer::Infinite(0, &mut self.fields);
        let mut escape = StringBuffer::Infinite(Vec::new(), escape_buffer);
        let (data_end, parsed_fields) = parse_json_object(data, field_buffer, &mut escape)?;
        self.num_fields = parsed_fields;
        proof {
            if let Scan::Done(fs, e) = parse_object_spec(data@, None, None) {
                assert(self.view() =~= fs);
            }
        }
        Ok(data_end)
    }
}


/// An object over a fixed-size array of fields.
pub type ArrayJsonObject<'a, const N: usize> = JsonObject<[JsonField<'a, 'a>; N]>;

impl<'a, const N: usize> JsonObject<[JsonField<'a, 'a>; N]> {
    /// An object over `N` empty slots, with no entries.
    pub fn new() -> (r: Self)
        ensures
            r.wf(),
            r.count() == 0,
            r.buffer()@.len() == N,
    {
        let empty: JsonField<'a, 'a> = JsonField::default();
        JsonObject::wrap(vstd::array::array_fill_for_copy_types::<JsonField<'a, 'a>, N>(empty))
    }

    /// Parses one object from `data` into a new object of `N` slots,
    /// unescaping its strings into `escape_buffer`; returns the number of
    /// bytes consumed and the object.
    pub fn new_parsed(data: &'a [u8], escape_buffer: &'a mut [u8]) -> (r: Result<
        (usize, Self),
        JsonParseFailure,
    >)
        ensures
            match parse_object_spec(data@, Some(old(escape_buffer)@.len()), Some(N as nat)) {
                Scan::Done(fs, e) => r matches Ok((n, o)) && n == e && e <= data@.len() && o.wf() && o@ == fs,
                Scan::Fail(f) => r matches Err(g) && g == f,
            },
    {
        let mut ret = Self::new();
        let data_end = ret.parse(data, escape_buffer)?;
        Ok((data_end, ret))
    }

    /// Appends an entry with `key` and `value`; fails when every slot is
    /// taken.
    pub fn push_const(&mut self, key: &'a str, value: JsonValue<'a>) -> (r: Result<(), ()>)
        requires
            old(self).wf(),
        ensures
            final(self).wf(),
            old(self).count() < N ==> r is Ok && final(self).entries() == old(self).entries().push(
                JsonField { key, value },
            ),
            old(self).count() == N ==> r is Err && final(self).entries() == old(self).entries(),
    {
        if self.num_fields == N {
            return Err(());
        }
        self.fields[self.num_fields] = JsonField { key, value };
        self.num_fields += 1;
        assert(self.entries() =~= old(self).entries().push(JsonField { key, value }));
        Ok(())
    }

    /// The last entry, left in place, or `None` when there is none.
    pub fn pop_const(&self) -> (r: Option<&JsonField<'a, 'a>>)
        requires
            self.wf(),
        ensures
            self.count() == 0 ==> r is None,
            self.count() > 0 ==> (r matches Some(f) && *f == self.entries().last()),
    {
        self.fields_const().last()
    }

    /// The entries.
    pub fn fields_const(&self) -> (r: &[JsonField<'a, 'a>])
        requires
            self.wf(),
        ensures
            r@ == self.entries(),
    {
        self.fields.as_slice().split_at(self.num_fields).0
    }

    /// The entries, to change in place.
    pub fn fields_mut_const(&mut self) -> (r: &mut [JsonField<'a, 'a>])
        requires
            old(self).wf(),
        ensures
            r@ == old(self).entries(),
            final(self).count() == old(self).count(),
            final(self).buffer()@ == (*final(r))@ + old(self).buffer()@.subrange(
                old(self).count() as int,
                N as int,
            ),
    {
        let n = self.num_fields;
        let all: &mut [JsonField<'a, 'a>] = &mut self.fields;
        let (entries, rest) = all.split_at_mut(n);
        proof {
            assert((*final(rest))@ == rest@);
        }
        entries
    }
}

/// An array over a fixed-size array of values.
pub type ArrayJsonArray<'a, const N: usize> = JsonArray<[JsonValue<'a>; N]>;

impl<'a, const N: usize> JsonArray<[JsonValue<'a>; N]> {
    /// An array over `N` null slots, with no entries.
    pub fn new() -> (r: Self)
        ensures
            r.wf(),
            r.count() == 0,
            r.buffer()@.len() == N,
    {
        JsonArray::wrap(vstd::array::array_fill_for_copy_types::<JsonValue<'a>, N>(JsonValue::Null))
    }

    /// Appends `value` as an entry; fails when every slot is taken.
    pub fn push_const(&mut self, value: JsonValue<'a>) -> (r: Result<(), ()>)
        requires
            old(self).wf(),
        ensures
            final(self).wf(),
            old(self).count() < N ==> r is Ok && final(self).entries() == old(self).entries().push(value),
            old(self).count() == N ==> r is Err && final(self).entries() == old(self).entries(),
    {
        if self.num_values == N {
            return Err(());
        }
        self.values[self.num_values] = value;
        self.num_values += 1;
        assert(self.entries() =~= old(self).entries().push(value));
        Ok(())
    }

    /// The last entry, left in place, or `None` when there is none.
    pub fn pop_const(&self) -> (r: Option<&JsonValue<'a>>)
        requires
            self.wf(),
        ensures
            self.count() == 0 ==> r is None,
            self.count() > 0 ==> (r matches Some(v) && *v == self.entries().last()),
    {
        self.values_const().last()
    }

    /// The entries.
    pub fn values_const(&self) -> (r: &[JsonValue<'a>])
        requires
            self.wf(),
        ensures
            r@ == self.entries(),
    {
        self.values.as_slice().split_at(self.num_values).0
    }

    /// The entries, to change in place.
    pub fn values_mut_const(&mut self) -> (r: &mut [JsonValue<'a>])
        requires
            old(self).wf(),
        ensures
            r@ == old(self).entries(),
            final(self).count() == old(self).count(),
            final(self).buffer()@ == (*final(r))@ + old(self).buffer()@.subrange(
                old(self).count() as int,
                N as int,
            ),
    {
        let n = self.num_values;
        let all: &mut [JsonValue<'a>] = &mut self.values;
        let (entries, rest) = all.split_at_mut(n);
        proof {
            assert((*final(rest))@ == rest@);
        }
        entries
    }
}

impl<'a, T: FieldBuffer<'a> + Default> Default for JsonObject<T> {
    /// An object over the buffer's default, with no entries.
    fn default() -> (r: Self)
        ensures
            r.wf(),
            r.count() == 0,
    {
        JsonObject::wrap(T::default())
    }
}

impl<'a, T: ValueBuffer<'a> + Default> Default for JsonArray<T> {
    /// An array over the buffer's default, with no entries.
    fn default() -> (r: Self)
        ensures
            r.wf(),
            r.count() == 0,
    {
        JsonArray::wrap(T::default())
    }
}

impl<'a, T: FieldBufferMut<'a> + Default> JsonObject<T> {
    /// Parses one object from `data` into a new object over the buffer's
    /// default, unescaping its strings into `escape_buffer`; returns the
    /// number of bytes consumed and the object.
    pub fn default_parsed(data: &'a [u8], escape_buffer: &'a mut [u8]) -> (r: Result<
        (usize, Self),
        JsonParseFailure,
    >)
        ensures
            r matches Ok((n, o)) ==> o.wf() && (parse_object_spec(
                data@,
                Some(old(escape_buffer)@.len()),
                Some(o.buffer().slots().len()),
            ) matches Scan::Done(fs, e) && n == e && o@ == fs),
            r matches Err(f) ==> (exists|d: T| call_ensures(T::default, (), d) && #[trigger] parse_object_spec(
                data@,
                Some(old(escape_buffer)@.len()),
                Some(d.slots().len()),
            ) == Scan::<Seq<FieldModel>>::Fail(f)),
    {
        let d = T::default();
        let ghost d0 = d;
        let mut ret = JsonObject::wrap(d);
        match ret.parse(data, escape_buffer) {
            Ok(num_bytes) => Ok((num_bytes, ret)),
            Err(f) => {
                assert(parse_object_spec(data@, Some(old(escape_buffer)@.len()), Some(d0.slots().len()))
                    == Scan::<Seq<FieldModel>>::Fail(f));
                Err(f)
            },
        }
    }
}


/// The two strings have the same bytes.
fn str_bytes_eq(a: &str, b: &str) -> (r: bool)
    ensures
        r == (a.spec_bytes() == b.spec_bytes()),
{
    let x = a.as_bytes();
    let y = b.as_bytes();
    if x.len() != y.len() {
        return false;
    }
    let mut i: usize = 0;
    while i < x.len()
        invariant
            x@ == a.spec_bytes(),
            y@ == b.spec_bytes(),
            x@.len() == y@.len(),
            0 <= i <= x@.len(),
            forall|k: int| 0 <= k < i ==> x@[k] == y@[k],
        decreases x@.len() - i,
    {
        if x[i] != y[i] {
            return false;
        }
        i += 1;
    }
    assert(x@ =~= y@);
    true
}

/// The two values have the same model.
fn value_eq(a: &JsonValue, b: &JsonValue) -> (r: bool)
    ensures
        r == (a@ == b@),
{
    match (*a, *b) {
        (JsonValue::String(s), JsonValue::String(t)) => str_bytes_eq(s, t),
        (JsonValue::Boolean(x), JsonValue::Boolean(y)) => x == y,
        (JsonValue::Number(x), JsonValue::Number(y)) => x == y,
        (JsonValue::Null, JsonValue::Null) => true,
        _ => false,
    }
}

/// The two fields have the same model.
fn field_eq(a: &JsonField, b: &JsonField) -> (r: bool)
    ensures
        r == (a@ == b@),
{
    str_bytes_eq(a.key, b.key) && value_eq(&a.value, &b.value)
}

/// The leading `n` slots of both, clamped to their lengths, have the same
/// models.
fn prefixes_eq<'a>(a: &[JsonField<'a, 'a>], n: usize, b: &[JsonField<'a, 'a>], m: usize) -> (r: bool)
    ensures
        r == (fields_view(a@.subrange(0, clamp(n as int, a@.len() as int)))
            == fields_view(b@.subrange(0, clamp(m as int, b@.len() as int)))),
{
    let na = if n <= a.len() { n } else { a.len() };
    let nb = if m <= b.len() { m } else { b.len() };
    let ghost fa = fields_view(a@.subrange(0, na as int));
    let ghost fb = fields_view(b@.subrange(0, nb as int));
    assert(fa == fields_view(a@.subrange(0, clamp(n as int, a@.len() as int))));
    assert(fb == fields_view(b@.subrange(0, clamp(m as int, b@.len() as int))));
    if na != nb {
        assert(fa.len() != fb.len());
        return false;
    }
    let mut i: usize = 0;
    while i < na
        invariant
            na == nb,
            na <= a@.len(),
            nb <= b@.len(),
            fa == fields_view(a@.subrange(0, na as int)),
            fb == fields_view(b@.subrange(0, nb as int)),
            fa == fields_view(a@.subrange(0, clamp(n as int, a@.len() as int))),
            fb == fields_view(b@.subrange(0, clamp(m as int, b@.len() as int))),
            0 <= i <= na,
            forall|k: int| 0 <= k < i ==> fa[k] == fb[k],
        decreases na - i,
    {
        assert(fa[i as int] == a@[i as int]@ && fb[i as int] == b@[i as int]@);
        if !field_eq(&a[i], &b[i]) {
            assert(fa[i as int] != fb[i as int]);
            return false;
        }
        i += 1;
    }
    assert(fa =~= fb);
    true
}

pub open spec fn clamp(n: int, len: int) -> int {
    if n <= len { n } else { len }
}

impl<'a, T: FieldBuffer<'a>> JsonObject<T> {
    /// The models of the entries, clamped to the buffer.
    pub open spec fn shown(&self) -> Seq<FieldModel> {
        fields_view(self.buffer().slots().subrange(0, clamp(self.count() as int, self.buffer().slots().len() as int)))
    }

    /// For a well-formed object, equality compares exactly its entries.
    pub proof fn lemma_shown_is_view(&self)
        requires
            self.wf(),
        ensures
            self.shown() == self@,
    {
    }
}

/// Two objects are equal when their entries are, in the same order; the
/// slots past the entries do not count.
impl<'a, T: FieldBuffer<'a>> PartialEq for JsonObject<T> {
    fn eq(&self, other: &Self) -> (r: bool)
        ensures
            r == (self.shown() == other.shown()),
    {
        prefixes_eq(self.fields.as_fields(), self.num_fields, other.fields.as_fields(), other.num_fields)
    }
}

impl<'a, T: FieldBuffer<'a>> vstd::std_specs::cmp::PartialEqSpecImpl for JsonObject<T> {
    open spec fn obeys_eq_spec() -> bool {
        true
    }

    open spec fn eq_spec(&self, other: &Self) -> bool {
        self.shown() == other.shown()
    }
}

impl<'a, T: FieldBuffer<'a>> Eq for JsonObject<T> {
}

impl<'a, T: ValueBufferMut<'a>> JsonArray<T> {
    /// Parses one array from `data` into this array's slots, unescaping its
    /// strings into `string_escape_buffer`; returns the number of bytes
    /// consumed. On failure the entry count stays as it was.
    pub fn parse(&mut self, data: &'a [u8], string_escape_buffer: &'a mut [u8]) -> (r: Result<
        usize,
        JsonParseFailure,
    >)
        requires
            old(self).wf(),
        ensures
            final(self).wf(),
            final(self).buffer().slots().len() == old(self).buffer().slots().len(),
            match parse_array_spec(
                data@,
                Some(old(string_escape_buffer)@.len()),
                Some(old(self).buffer().slots().len()),
            ) {
                Scan::Done(vs, e) => r matches Ok(n) && n == e && e <= data@.len() && final(self).view() == vs,
                Scan::Fail(f) => r == Err::<usize, _>(f) && final(self).count() == old(self).count(),
            },
    {
        let slots = self.values.as_values_mut();
        let value_buffer = ParseBuffer::Finite(0, slots);
        let mut escape = StringBuffer::Finite(0, string_escape_buffer);
        let (data_end, parsed_values) = parse_json_array(data, value_buffer, &mut escape)?;
        self.num_values = parsed_values;
        proof {
            if let Scan::Done(vs, e) = parse_array_spec(data@, Some(old(string_escape_buffer)@.len()), Some(old(self).buffer().slots().len())) {
                assert(self.view() =~= vs);
            }
        }
        Ok(data_end)
    }
}

impl<'a, const N: usize> JsonArray<[JsonValue<'a>; N]> {
    /// Parses one array from `data` into a new array of `N` slots,
    /// unescaping its strings into `escape_buffer`; returns the number of
    /// bytes consumed and the array.
    pub fn new_parsed(data: &'a [u8], escape_buffer: &'a mut [u8]) -> (r: Result<
        (usize, Self),
        JsonParseFailure,
    >)
        ensures
            match parse_array_spec(data@, Some(old(escape_buffer)@.len()), Some(N as nat)) {
                Scan::Done(vs, e) => r matches Ok((n, o)) && n == e && e <= data@.len() && o.wf() && o@ == vs,
                Scan::Fail(f) => r matches Err(g) && g == f,
            },
    {
        let mut ret = Self::new();
        let data_end = ret.parse(data, escape_buffer)?;
        Ok((data_end, ret))
    }
}
} // verus!
