use vstd::prelude::*;
use vstd::string::StringSliceAdditionalSpecFns;

verus! {

/// The reasons a parse can fail.
#[derive(Debug, PartialEq, Eq, Clone, Copy, Structural)]
pub enum JsonParseFailure {
    /// No error yet, but the data ends before the object does.
    Incomplete,
    /// More fields than the field buffer can hold.
    FieldBufferTooSmall,
    /// More unescaped string bytes than the escape buffer can hold.
    EscapeBufferTooSmall,
    /// The object's structure is broken.
    InvalidStructure,
    /// An invalid string.
    InvalidStringField,
    /// An invalid number.
    InvalidNumericField,
    /// A well-formed number that does not fit in an `i64`.
    NumberParseError,
    /// An invalid boolean literal.
    InvalidBooleanField,
    /// An invalid null literal.
    InvalidNullField,
}

/// A terminal (non-nested) JSON value.
#[derive(Debug, PartialEq, Eq, Clone, Copy)]
pub enum JsonValue<'a> {
    /// A string; escaped when serialized.
    String(&'a str),
    /// A boolean.
    Boolean(bool),
    /// An integer.
    Number(i64),
    /// The null value.
    Null,
}

/// The mathematical value of a [`JsonValue`]: a string is its bytes.
pub enum ValueModel {
    Str(Seq<u8>),
    Boolean(bool),
    Number(int),
    Null,
}

/// The mathematical value of a [`JsonField`]: its key's bytes and its value.
pub struct FieldModel {
    pub key: Seq<u8>,
    pub value: ValueModel,
}

impl<'a> View for JsonValue<'a> {
    type V = ValueModel;

    open spec fn view(&self) -> ValueModel {
        match *self {
            JsonValue::String(s) => ValueModel::Str(s.spec_bytes()),
            JsonValue::Boolean(b) => ValueModel::Boolean(b),
            JsonValue::Number(n) => ValueModel::Number(n as int),
            JsonValue::Null => ValueModel::Null,
        }
    }
}

/// A value of the `Null` kind, the filler of unused slots.
pub const EMPTY_VALUE: JsonValue<'static> = JsonValue::Null;

/// A field of a JSON object.
#[derive(Debug, PartialEq, Eq, Clone, Copy)]
pub struct JsonField<'a, 'b> {
    pub key: &'a str,
    pub value: JsonValue<'b>,
}

impl<'a, 'b> View for JsonField<'a, 'b> {
    type V = FieldModel;

    open spec fn view(&self) -> FieldModel {
        FieldModel { key: self.key.spec_bytes(), value: self.value@ }
    }
}

/// The models of a sequence of fields, in order.
pub open spec fn fields_view<'a, 'b>(fs: Seq<JsonField<'a, 'b>>) -> Seq<FieldModel> {
    fs.map_values(|f: JsonField<'a, 'b>| f@)
}

/// The models of a sequence of values, in order.
pub open spec fn values_view<'a>(vs: Seq<JsonValue<'a>>) -> Seq<ValueModel> {
    vs.map_values(|v: JsonValue<'a>| v@)
}

impl<'a, 'b> JsonField<'a, 'b> {
    /// A field with the given key and value.
    pub fn new(key: &'a str, value: JsonValue<'b>) -> (r: Self)
        ensures
            r.key == key,
            r.value == value,
    {
        JsonField { key, value }
    }

    /// A field from a `(key, value)` pair.
    pub fn from_tuple(tuple: (&'a str, JsonValue<'b>)) -> (r: Self)
        ensures
            r.key == tuple.0,
            r.value == tuple.1,
    {
        Self::new(tuple.0, tuple.1)
    }

    /// This field as a `(key, value)` pair.
    pub fn as_tuple(&self) -> (r: (&'a str, JsonValue<'b>))
        ensures
            r.0 == self.key,
            r.1 == self.value,
    {
        (self.key, self.value)
    }

    /// A field holding a string value.
    pub fn new_string(key: &'a str, value: &'b str) -> (r: Self)
        ensures
            r.key == key,
            r.value == JsonValue::String(value),
    {
        Self::new(key, JsonValue::String(value))
    }

    /// A field holding a number value.
    pub fn new_number(key: &'a str, value: i64) -> (r: Self)
        ensures
            r.key == key,
            r.value == JsonValue::<'b>::Number(value),
    {
        Self::new(key, JsonValue::Number(value))
    }

    /// A field holding a boolean value.
    pub fn new_boolean(key: &'a str, value: bool) -> (r: Self)
        ensures
            r.key == key,
            r.value == JsonValue::<'b>::Boolean(value),
    {
        Self::new(key, JsonValue::Boolean(value))
    }
}

impl<'a, 'b> Default for JsonField<'a, 'b> {
    /// The empty-slot field: an empty key with a null value.
    fn default() -> (r: Self)
        ensures
            r.key@.len() == 0,
            r.value == JsonValue::<'b>::Null,
    {
        proof {
            reveal_strlit("");
        }
        JsonField { key: "", value: JsonValue::Null }
    }
}

impl<'a> Default for JsonValue<'a> {
    /// The null value.
    fn default() -> (r: Self)
        ensures
            r == JsonValue::<'a>::Null,
    {
        JsonValue::Null
    }
}


impl From<i64> for JsonValue<'static> {
    /// A number value.
    fn from(n: i64) -> (r: Self)
        ensures
            r == JsonValue::<'static>::Number(n),
    {
        JsonValue::Number(n)
    }
}

impl vstd::std_specs::convert::FromSpecImpl<i64> for JsonValue<'static> {
    open spec fn obeys_from_spec() -> bool {
        true
    }

    open spec fn from_spec(n: i64) -> Self {
        JsonValue::Number(n)
    }
}

impl From<bool> for JsonValue<'static> {
    /// A boolean value.
    fn from(b: bool) -> (r: Self)
        ensures
            r == JsonValue::<'static>::Boolean(b),
    {
        JsonValue::Boolean(b)
    }
}

impl vstd::std_specs::convert::FromSpecImpl<bool> for JsonValue<'static> {
    open spec fn obeys_from_spec() -> bool {
        true
    }

    open spec fn from_spec(b: bool) -> Self {
        JsonValue::Boolean(b)
    }
}

impl<'a> From<&'a str> for JsonValue<'a> {
    /// A string value.
    fn from(s: &'a str) -> (r: Self)
        ensures
            r == JsonValue::String(s),
    {
        JsonValue::String(s)
    }
}

impl<'a> vstd::std_specs::convert::FromSpecImpl<&'a str> for JsonValue<'a> {
    open spec fn obeys_from_spec() -> bool {
        true
    }

    open spec fn from_spec(s: &'a str) -> Self {
        JsonValue::String(s)
    }
}

impl From<()> for JsonValue<'static> {
    /// The null value.
    fn from(u: ()) -> (r: Self)
        ensures
            r == JsonValue::<'static>::Null,
    {
        JsonValue::Null
    }
}

impl vstd::std_specs::convert::FromSpecImpl<()> for JsonValue<'static> {
    open spec fn obeys_from_spec() -> bool {
        true
    }

    open spec fn from_spec(u: ()) -> Self {
        JsonValue::Null
    }
}
} // verus!
