//! The resumable serializer: from fields to bytes.
use vstd::prelude::*;
use vstd::string::StringSliceAdditionalSpecFns;
use crate::codec::{decimal, digits_of, escape_letter, get_required_escape_sequence};
use crate::outside::decimal_text;
use crate::parse::{is_ascii_bytes, lit_false, lit_null, lit_true, shrink};
use crate::value::{fields_view, values_view, FieldModel, JsonField, JsonValue, ValueModel};

verus! {

/// A byte sink that the serializer writes through, one byte at a time.
pub trait StringWrite {
    type StringWriteFailure;

    /// The bytes the sink has taken so far.
    spec fn taken(&self) -> Seq<u8>;

    /// How many more bytes the sink takes before it fails (`None`: no
    /// bound).
    spec fn room(&self) -> Option<nat>;

    /// For a sink that fills a borrowed slice: the bytes already placed in
    /// it and the slice still to fill; the borrowed slice ends up as the
    /// first followed by what the second ends up as.
    spec fn target(&self) -> Option<(Seq<u8>, &mut [u8])>;

    /// Hands one byte to the sink; on failure the sink took nothing.
    fn write_byte(&mut self, data: u8) -> (r: Result<(), Self::StringWriteFailure>)
        ensures
            r is Ok ==> final(self).taken() == old(self).taken().push(data),
            r is Err ==> final(self).taken() == old(self).taken(),
            old(self).room() is None ==> r is Ok,
            old(self).room() matches Some(k) ==> (r is Ok <==> k > 0),
            final(self).room() == if r is Ok { shrink(old(self).room(), 1) } else { old(self).room() },
            old(self).target() matches Some(a) ==> (final(self).target() matches Some(b) && b.0 + (*final(b.1))@ == a.0 + (*final(a.1))@),
    ;
}

impl StringWrite for Vec<u8> {
    type StringWriteFailure = ();

    open spec fn taken(&self) -> Seq<u8> {
        self@
    }

    open spec fn room(&self) -> Option<nat> {
        None
    }

    open spec fn target(&self) -> Option<(Seq<u8>, &mut [u8])> {
        None
    }

    fn write_byte(&mut self, data: u8) -> (r: Result<(), ()>)
        ensures
            r is Ok,
    {
        self.push(data);
        Ok(())
    }
}

/// What an ASCII byte of a string becomes in JSON text: a backslash escape
/// for a byte of the escape table, else itself.
pub open spec fn escaped_piece(b: u8) -> Seq<u8> {
    match escape_letter(b) {
        Some(l) => seq![0x5cu8, l],
        None => seq![b],
    }
}

/// A value whose string, if any, is ASCII: the values that have JSON text
/// here (strings are 7-bit clean, as the parser demands).
pub open spec fn value_ascii(v: ValueModel) -> bool {
    v matches ValueModel::Str(s) ==> is_ascii_bytes(s)
}

/// Every key and every string value is ASCII.
pub open spec fn fields_ascii(fs: Seq<FieldModel>) -> bool {
    forall|i: int| #![trigger fs[i]] 0 <= i < fs.len() ==> is_ascii_bytes(fs[i].key) && value_ascii(fs[i].value)
}

/// Every string value is ASCII.
pub open spec fn values_ascii(vs: Seq<ValueModel>) -> bool {
    forall|i: int| 0 <= i < vs.len() ==> value_ascii(#[trigger] vs[i])
}

/// Why serializing failed: the sink refused a byte, or a string holds a
/// byte that is not ASCII, which JSON text here cannot carry (nothing is
/// written then).
#[derive(Debug, Clone, Copy, PartialEq, Eq)]
pub enum JsonSerializeFailure<E> {
    /// The sink failed.
    Sink(E),
    /// A key or string value holds a non-ASCII byte.
    NonAsciiString,
}

/// The string's bytes are all ASCII.
pub fn str_is_ascii(s: &str) -> (r: bool)
    ensures
        r == is_ascii_bytes(s.spec_bytes()),
{
    let b = s.as_bytes();
    let mut i: usize = 0;
    while i < b.len()
        invariant
            b@ == s.spec_bytes(),
            0 <= i <= b@.len(),
            forall|k: int| 0 <= k < i ==> b@[k] < 0x80,
        decreases b@.len() - i,
    {
        if b[i] >= 0x80 {
            return false;
        }
        i += 1;
    }
    true
}

fn value_is_ascii(v: &JsonValue) -> (r: bool)
    ensures
        r == value_ascii(v@),
{
    match *v {
        JsonValue::String(s) => str_is_ascii(s),
        _ => true,
    }
}

/// Every key and string value of `fields` is ASCII.
pub fn fields_are_ascii(fields: &[JsonField]) -> (r: bool)
    ensures
        r == fields_ascii(fields_view(fields@)),
{
    let ghost fv = fields_view(fields@);
    let mut i: usize = 0;
    while i < fields.len()
        invariant
            fv == fields_view(fields@),
            fv.len() == fields@.len(),
            0 <= i <= fields@.len(),
            forall|k: int| #![trigger fv[k]] 0 <= k < i ==> is_ascii_bytes(fv[k].key) && value_ascii(fv[k].value),
        decreases fields@.len() - i,
    {
        assert(fv[i as int] == fields@[i as int]@);
        if !str_is_ascii(fields[i].key) || !value_is_ascii(&fields[i].value) {
            assert(!(is_ascii_bytes(fv[i as int].key) && value_ascii(fv[i as int].value)));
            proof {
                if fields_ascii(fv) {
                    assert(is_ascii_bytes(fv[i as int].key) && value_ascii(fv[i as int].value));
                }
            }
            return false;
        }
        i += 1;
    }
    true
}

/// Every string value of `values` is ASCII.
pub fn values_are_ascii(values: &[JsonValue]) -> (r: bool)
    ensures
        r == values_ascii(values_view(values@)),
{
    let ghost vv = values_view(values@);
    let mut i: usize = 0;
    while i < values.len()
        invariant
            vv == values_view(values@),
            vv.len() == values@.len(),
            0 <= i <= values@.len(),
            forall|k: int| 0 <= k < i ==> value_ascii(#[trigger] vv[k]),
        decreases values@.len() - i,
    {
        assert(vv[i as int] == values@[i as int]@);
        if !value_is_ascii(&values[i]) {
            assert(!value_ascii(vv[i as int]));
            return false;
        }
        i += 1;
    }
    true
}

/// The escaped form of the first `j` bytes of `s`.
pub open spec fn escaped_upto(s: Seq<u8>, j: int) -> Seq<u8>
    decreases j,
{
    if j <= 0 {
        seq![]
    } else {
        escaped_upto(s, j - 1) + escaped_piece(s[j - 1])
    }
}

/// A string in JSON text: quoted, escaped.
pub open spec fn string_text(s: Seq<u8>) -> Seq<u8> {
    seq![0x22u8] + escaped_upto(s, s.len() as int) + seq![0x22u8]
}

/// A terminal value in JSON text.
pub open spec fn value_text(v: ValueModel) -> Seq<u8> {
    match v {
        ValueModel::Str(s) => string_text(s),
        ValueModel::Boolean(b) => if b { lit_true() } else { lit_false() },
        ValueModel::Number(n) => decimal(n),
        ValueModel::Null => lit_null(),
    }
}

/// A field in JSON text: its key, a colon, its value.
pub open spec fn field_text(f: FieldModel) -> Seq<u8> {
    string_text(f.key) + seq![0x3au8] + value_text(f.value)
}

/// The comma owed before entry `i` of a list.
pub open spec fn separator(i: int) -> Seq<u8> {
    if i > 0 { seq![0x2cu8] } else { seq![] }
}

/// The first `i` fields in JSON text, comma-separated.
pub open spec fn fields_upto(fs: Seq<FieldModel>, i: int) -> Seq<u8>
    decreases i,
{
    if i <= 0 {
        seq![]
    } else {
        fields_upto(fs, i - 1) + separator(i - 1) + field_text(fs[i - 1])
    }
}

/// The first `i` values in JSON text, comma-separated.
pub open spec fn values_upto(vs: Seq<ValueModel>, i: int) -> Seq<u8>
    decreases i,
{
    if i <= 0 {
        seq![]
    } else {
        values_upto(vs, i - 1) + separator(i - 1) + value_text(vs[i - 1])
    }
}

/// An object in JSON text.
pub open spec fn object_text(fs: Seq<FieldModel>) -> Seq<u8> {
    seq![0x7bu8] + fields_upto(fs, fs.len() as int) + seq![0x7du8]
}

/// An array in JSON text.
pub open spec fn array_text(vs: Seq<ValueModel>) -> Seq<u8> {
    seq![0x5bu8] + values_upto(vs, vs.len() as int) + seq![0x5du8]
}

/// The part of `text` from byte offset `k` on (empty when `k` is past it).
pub open spec fn tail_from(text: Seq<u8>, k: int) -> Seq<u8> {
    if k < 0 {
        text
    } else if k < text.len() {
        text.subrange(k, text.len() as int)
    } else {
        seq![]
    }
}

/// `x` stands in `whole` at offset `c`.
pub open spec fn sits(whole: Seq<u8>, c: int, x: Seq<u8>) -> bool {
    &&& 0 <= c
    &&& c + x.len() <= whole.len()
    &&& whole.subrange(c, c + x.len()) == x
}

pub proof fn lemma_sits_split(whole: Seq<u8>, c: int, a: Seq<u8>, b: Seq<u8>)
    requires
        sits(whole, c, a + b),
    ensures
        sits(whole, c, a),
        sits(whole, c + a.len(), b),
{
    let ab = whole.subrange(c, c + a.len() + b.len());
    assert(ab == a + b);
    assert forall|k: int| 0 <= k < a.len() implies whole.subrange(c, c + a.len())[k] == a[k] by {
        assert(ab[k] == (a + b)[k]);
    }
    assert(whole.subrange(c, c + a.len()) =~= a);
    assert forall|k: int| 0 <= k < b.len() implies whole.subrange(c + a.len(), c + a.len() + b.len())[k] == b[k] by {
        assert(ab[a.len() + k] == (a + b)[a.len() + k]);
    }
    assert(whole.subrange(c + a.len(), c + a.len() + b.len()) =~= b);
}

pub proof fn lemma_tail_step(whole: Seq<u8>, c: int, k: int)
    requires
        0 <= c < whole.len(),
        0 <= k,
    ensures
        tail_from(whole.subrange(0, c + 1), k) == tail_from(whole.subrange(0, c), k) + if c >= k {
            seq![whole[c]]
        } else {
            seq![]
        },
{
    assert(tail_from(whole.subrange(0, c + 1), k) =~= tail_from(whole.subrange(0, c), k) + if c
        >= k {
        seq![whole[c]]
    } else {
        seq![]
    });
}

pub proof fn lemma_fields_upto_prefix(fs: Seq<FieldModel>, i: int, j: int)
    requires
        0 <= i <= j,
    ensures
        fields_upto(fs, i).len() <= fields_upto(fs, j).len(),
        fields_upto(fs, j).subrange(0, fields_upto(fs, i).len() as int) == fields_upto(fs, i),
    decreases j,
{
    if i < j {
        lemma_fields_upto_prefix(fs, i, j - 1);
        assert(fields_upto(fs, j).subrange(0, fields_upto(fs, i).len() as int) =~= fields_upto(
            fs,
            j - 1,
        ).subrange(0, fields_upto(fs, i).len() as int));
    } else {
        assert(fields_upto(fs, j).subrange(0, fields_upto(fs, i).len() as int) =~= fields_upto(
            fs,
            i,
        ));
    }
}

pub proof fn lemma_values_upto_prefix(vs: Seq<ValueModel>, i: int, j: int)
    requires
        0 <= i <= j,
    ensures
        values_upto(vs, i).len() <= values_upto(vs, j).len(),
        values_upto(vs, j).subrange(0, values_upto(vs, i).len() as int) == values_upto(vs, i),
    decreases j,
{
    if i < j {
        lemma_values_upto_prefix(vs, i, j - 1);
        assert(values_upto(vs, j).subrange(0, values_upto(vs, i).len() as int) =~= values_upto(
            vs,
            j - 1,
        ).subrange(0, values_upto(vs, i).len() as int));
    } else {
        assert(values_upto(vs, j).subrange(0, values_upto(vs, i).len() as int) =~= values_upto(
            vs,
            i,
        ));
    }
}

pub proof fn lemma_escaped_upto_prefix(s: Seq<u8>, i: int, j: int)
    requires
        0 <= i <= j,
    ensures
        escaped_upto(s, i).len() <= escaped_upto(s, j).len(),
        escaped_upto(s, j).subrange(0, escaped_upto(s, i).len() as int) == escaped_upto(s, i),
    decreases j,
{
    if i < j {
        lemma_escaped_upto_prefix(s, i, j - 1);
        assert(escaped_upto(s, j).subrange(0, escaped_upto(s, i).len() as int) =~= escaped_upto(
            s,
            j - 1,
        ).subrange(0, escaped_upto(s, i).len() as int));
    } else {
        assert(escaped_upto(s, j).subrange(0, escaped_upto(s, i).len() as int) =~= escaped_upto(
            s,
            i,
        ));
    }
}

/// `x` is a prefix of `y`: then `x` stands where `y` does.
pub proof fn lemma_sits_prefix(whole: Seq<u8>, c: int, x: Seq<u8>, y: Seq<u8>)
    requires
        sits(whole, c, y),
        x.len() <= y.len(),
        y.subrange(0, x.len() as int) == x,
    ensures
        sits(whole, c, x),
{
    assert forall|k: int| 0 <= k < x.len() implies whole.subrange(c, c + x.len())[k] == x[k] by {
        assert(whole.subrange(c, c + y.len())[k] == y[k]);
        assert(y.subrange(0, x.len() as int)[k] == y[k]);
    }
    assert(whole.subrange(c, c + x.len()) =~= x);
}

/// Writes `bytes`, which stand in `whole` at offset `*counter`, skipping
/// those before offset `resume_from`.
#[verifier::rlimit(60)]
fn tracked_write<T: StringWrite>(
    output: &mut T,
    counter: &mut usize,
    resume_from: usize,
    bytes: &[u8],
    Ghost(whole): Ghost<Seq<u8>>,
    Ghost(base): Ghost<Seq<u8>>,
) -> (r: Result<(), (usize, JsonSerializeFailure<T::StringWriteFailure>)>)
    requires
        whole.len() <= usize::MAX,
        sits(whole, *old(counter) as int, bytes@),
        old(output).taken() == base + tail_from(whole.subrange(0, *old(counter) as int), resume_from as int),
    ensures
        r is Ok ==> *final(counter) == *old(counter) + bytes@.len() && final(output).taken() == base
            + tail_from(whole.subrange(0, *final(counter) as int), resume_from as int),
        r matches Err((m, _)) ==> m < tail_from(whole, resume_from as int).len()
            && final(output).taken() == base + tail_from(whole, resume_from as int).subrange(0, m as int),
        old(output).room() is None ==> r is Ok,
        old(output).room() matches Some(n) ==> final(output).taken().len() - old(output).taken().len() <= n,
        final(output).room() == shrink(old(output).room(), final(output).taken().len() - old(output).taken().len()),
        r is Err ==> final(output).room() == Some(0nat),
        r matches Err((_, f)) ==> f is Sink,
        old(output).target() matches Some(a) ==> (final(output).target() matches Some(b) && b.0 + (*final(b.1))@ == a.0 + (*final(a.1))@),
{
    let mut i: usize = 0;
    let ghost c0 = *counter;
    while i < bytes.len()
        invariant
            old(output).target() matches Some(a) ==> (output.target() matches Some(b) && b.0 + (*final(b.1))@ == a.0 + (*final(a.1))@),
            old(output).room() matches Some(n) ==> output.taken().len() - old(output).taken().len() <= n,
            output.room() == shrink(old(output).room(), output.taken().len() - old(output).taken().len()),
            c0 == *old(counter),
            whole.len() <= usize::MAX,
            sits(whole, c0 as int, bytes@),
            0 <= i <= bytes@.len(),
            *counter == c0 + i,
            output.taken() == base + tail_from(whole.subrange(0, *counter as int), resume_from as int),
        decreases bytes@.len() - i,
    {
        proof {
            assert(whole[*counter as int] == bytes@[i as int]) by {
                assert(whole.subrange(c0 as int, c0 + bytes@.len())[i as int] == bytes@[i as int]);
            }
            lemma_tail_step(whole, *counter as int, resume_from as int);
        }
        if *counter >= resume_from {
            match output.write_byte(bytes[i]) {
                Ok(()) => {},
                Err(e) => {
                    proof {
                        assert(tail_from(whole.subrange(0, *counter as int), resume_from as int)
                            =~= tail_from(whole, resume_from as int).subrange(0, *counter - resume_from));
                    }
                    return Err((*counter - resume_from, JsonSerializeFailure::Sink(e)));
                },
            }
            assert(output.taken() =~= base + tail_from(whole.subrange(0, *counter + 1), resume_from as int));
        } else {
            assert(output.taken() =~= base + tail_from(whole.subrange(0, *counter + 1), resume_from as int));
        }
        *counter += 1;
        i += 1;
    }
    Ok(())
}


/// Writes `data` quoted and escaped, its text standing in `whole` at
/// offset `*counter`.
#[verifier::rlimit(60)]
fn write_escaped_json_string<T: StringWrite>(
    output: &mut T,
    counter: &mut usize,
    resume_from: usize,
    data: &str,
    Ghost(whole): Ghost<Seq<u8>>,
    Ghost(base): Ghost<Seq<u8>>,
) -> (r: Result<(), (usize, JsonSerializeFailure<T::StringWriteFailure>)>)
    requires
        whole.len() <= usize::MAX,
        is_ascii_bytes(data.spec_bytes()),
        sits(whole, *old(counter) as int, string_text(data.spec_bytes())),
        old(output).taken() == base + tail_from(whole.subrange(0, *old(counter) as int), resume_from as int),
    ensures
        r is Ok ==> *final(counter) == *old(counter) + string_text(data.spec_bytes()).len()
            && final(output).taken() == base + tail_from(whole.subrange(0, *final(counter) as int), resume_from as int),
        r matches Err((m, _)) ==> m < tail_from(whole, resume_from as int).len()
            && final(output).taken() == base + tail_from(whole, resume_from as int).subrange(0, m as int),
        old(output).room() is None ==> r is Ok,
        old(output).room() matches Some(n) ==> final(output).taken().len() - old(output).taken().len() <= n,
        final(output).room() == shrink(old(output).room(), final(output).taken().len() - old(output).taken().len()),
        r is Err ==> final(output).room() == Some(0nat),
        r matches Err((_, f)) ==> f is Sink,
        old(output).target() matches Some(a) ==> (final(output).target() matches Some(b) && b.0 + (*final(b.1))@ == a.0 + (*final(a.1))@),
{
    let bytes = data.as_bytes();
    let ghost s = bytes@;
    let ghost c0 = *counter as int;
    let ghost body = escaped_upto(s, s.len() as int);
    proof {
        lemma_sits_split(whole, c0, seq![0x22u8] + body, seq![0x22u8]);
        lemma_sits_split(whole, c0, seq![0x22u8], body);
    }
    let quote: [u8; 1] = [0x22];
    proof {
        assert(quote@ =~= seq![0x22u8]);
    }
    tracked_write(output, counter, resume_from, quote.as_slice(), Ghost(whole), Ghost(base))?;
    let mut j: usize = 0;
    while j < bytes.len()
        invariant
            old(output).target() matches Some(a) ==> (output.target() matches Some(b) && b.0 + (*final(b.1))@ == a.0 + (*final(a.1))@),
            old(output).room() matches Some(n) ==> output.taken().len() - old(output).taken().len() <= n,
            output.room() == shrink(old(output).room(), output.taken().len() - old(output).taken().len()),
            whole.len() <= usize::MAX,
            s == bytes@,
            is_ascii_bytes(s),
            body == escaped_upto(s, s.len() as int),
            sits(whole, c0 + 1, body),
            sits(whole, c0 + 1 + body.len() as int, seq![0x22u8]),
            quote@ == seq![0x22u8],
            0 <= j <= s.len(),
            *counter == c0 + 1 + escaped_upto(s, j as int).len(),
            output.taken() == base + tail_from(whole.subrange(0, *counter as int), resume_from as int),
        decreases s.len() - j,
    {
        let b = bytes[j];
        proof {
            lemma_escaped_upto_prefix(s, j + 1, s.len() as int);
            lemma_sits_prefix(whole, c0 + 1, escaped_upto(s, j + 1), body);
            lemma_sits_split(whole, c0 + 1, escaped_upto(s, j as int), escaped_piece(s[j as int]));
        }
        match get_required_escape_sequence(b) {
            Some(letter) => {
                let pair: [u8; 2] = [0x5c, letter];
                proof {
                    assert(pair@ =~= escaped_piece(b));
                }
                tracked_write(output, counter, resume_from, pair.as_slice(), Ghost(whole), Ghost(base))?;
            },
            None => {
                let one: [u8; 1] = [b];
                proof {
                    assert(one@ =~= escaped_piece(b));
                }
                tracked_write(output, counter, resume_from, one.as_slice(), Ghost(whole), Ghost(base))?;
            },
        }
        j += 1;
    }
    proof {
        assert(bytes@.len() == j);
    }
    tracked_write(output, counter, resume_from, quote.as_slice(), Ghost(whole), Ghost(base))?;
    Ok(())
}

/// Writes a terminal value, its text standing in `whole` at offset
/// `*counter`.
#[verifier::rlimit(60)]
fn write_value<T: StringWrite>(
    output: &mut T,
    counter: &mut usize,
    resume_from: usize,
    value: &JsonValue,
    Ghost(whole): Ghost<Seq<u8>>,
    Ghost(base): Ghost<Seq<u8>>,
) -> (r: Result<(), (usize, JsonSerializeFailure<T::StringWriteFailure>)>)
    requires
        whole.len() <= usize::MAX,
        value_ascii(value@),
        sits(whole, *old(counter) as int, value_text(value@)),
        old(output).taken() == base + tail_from(whole.subrange(0, *old(counter) as int), resume_from as int),
    ensures
        r is Ok ==> *final(counter) == *old(counter) + value_text(value@).len()
            && final(output).taken() == base + tail_from(whole.subrange(0, *final(counter) as int), resume_from as int),
        r matches Err((m, _)) ==> m < tail_from(whole, resume_from as int).len()
            && final(output).taken() == base + tail_from(whole, resume_from as int).subrange(0, m as int),
        old(output).room() is None ==> r is Ok,
        old(output).room() matches Some(n) ==> final(output).taken().len() - old(output).taken().len() <= n,
        final(output).room() == shrink(old(output).room(), final(output).taken().len() - old(output).taken().len()),
        r is Err ==> final(output).room() == Some(0nat),
        r matches Err((_, f)) ==> f is Sink,
        old(output).target() matches Some(a) ==> (final(output).target() matches Some(b) && b.0 + (*final(b.1))@ == a.0 + (*final(a.1))@),
{
    match *value {
        JsonValue::Boolean(b) => if b {
            let lit: [u8; 4] = [0x74, 0x72, 0x75, 0x65];
            assert(lit@ =~= lit_true());
            tracked_write(output, counter, resume_from, lit.as_slice(), Ghost(whole), Ghost(base))
        } else {
            let lit: [u8; 5] = [0x66, 0x61, 0x6c, 0x73, 0x65];
            assert(lit@ =~= lit_false());
            tracked_write(output, counter, resume_from, lit.as_slice(), Ghost(whole), Ghost(base))
        },
        JsonValue::Null => {
            let lit: [u8; 4] = [0x6e, 0x75, 0x6c, 0x6c];
            assert(lit@ =~= lit_null());
            tracked_write(output, counter, resume_from, lit.as_slice(), Ghost(whole), Ghost(base))
        },
        JsonValue::Number(n) => {
            let (buf, start) = decimal_text(n);
            let (_, digits) = buf.as_slice().split_at(start);
            tracked_write(output, counter, resume_from, digits, Ghost(whole), Ghost(base))
        },
        JsonValue::String(s) => {
            write_escaped_json_string(output, counter, resume_from, s, Ghost(whole), Ghost(base))
        },
    }
}

/// Writes one field of an object, after a comma when `comma`, its text
/// standing in `whole` at offset `*counter`.
#[verifier::rlimit(60)]
fn write_field_entry<T: StringWrite>(
    output: &mut T,
    counter: &mut usize,
    resume_from: usize,
    field: &JsonField,
    comma: bool,
    Ghost(whole): Ghost<Seq<u8>>,
    Ghost(base): Ghost<Seq<u8>>,
) -> (r: Result<(), (usize, JsonSerializeFailure<T::StringWriteFailure>)>)
    requires
        whole.len() <= usize::MAX,
        is_ascii_bytes(field@.key),
        value_ascii(field@.value),
        sits(whole, *old(counter) as int, separator(if comma { 1int } else { 0 }) + field_text(field@)),
        old(output).taken() == base + tail_from(whole.subrange(0, *old(counter) as int), resume_from as int),
    ensures
        r is Ok ==> *final(counter) == *old(counter) + (separator(if comma { 1int } else { 0 }) + field_text(field@)).len()
            && final(output).taken() == base + tail_from(whole.subrange(0, *final(counter) as int), resume_from as int),
        r matches Err((m, _)) ==> m < tail_from(whole, resume_from as int).len()
            && final(output).taken() == base + tail_from(whole, resume_from as int).subrange(0, m as int),
        old(output).room() is None ==> r is Ok,
        old(output).room() matches Some(n) ==> final(output).taken().len() - old(output).taken().len() <= n,
        final(output).room() == shrink(old(output).room(), final(output).taken().len() - old(output).taken().len()),
        r is Err ==> final(output).room() == Some(0nat),
        r matches Err((_, f)) ==> f is Sink,
        old(output).target() matches Some(a) ==> (final(output).target() matches Some(b) && b.0 + (*final(b.1))@ == a.0 + (*final(a.1))@),
{
    let ghost f = field@;
    let ghost sep = separator(if comma { 1int } else { 0 });
    let ghost c0 = *counter as int;
    proof {
        lemma_sits_split(whole, c0, sep, field_text(f));
        lemma_sits_split(whole, c0 + sep.len(), string_text(f.key) + seq![0x3au8], value_text(f.value));
        lemma_sits_split(whole, c0 + sep.len(), string_text(f.key), seq![0x3au8]);
    }
    if comma {
        let comma_byte: [u8; 1] = [0x2c];
        assert(comma_byte@ =~= sep);
        tracked_write(output, counter, resume_from, comma_byte.as_slice(), Ghost(whole), Ghost(base))?;
    }
    write_escaped_json_string(output, counter, resume_from, field.key, Ghost(whole), Ghost(base))?;
    let colon: [u8; 1] = [0x3a];
    assert(colon@ =~= seq![0x3au8]);
    tracked_write(output, counter, resume_from, colon.as_slice(), Ghost(whole), Ghost(base))?;
    write_value(output, counter, resume_from, &field.value, Ghost(whole), Ghost(base))
}

/// Writes `fields` as a JSON object to `output`, skipping the first
/// `resume_from` bytes of the text; returns how many bytes were written,
/// or on failure how many were written before it.
#[verifier::rlimit(60)]
pub fn serialize_json_object<'data, Output: StringWrite>(
    output: &mut Output,
    fields: &[JsonField<'data, 'data>],
    resume_from: usize,
) -> (r: Result<usize, (usize, JsonSerializeFailure<Output::StringWriteFailure>)>)
    requires
        object_text(fields_view(fields@)).len() <= usize::MAX,
    ensures
        !fields_ascii(fields_view(fields@)) ==> r == Err::<usize, _>((0usize, JsonSerializeFailure::<Output::StringWriteFailure>::NonAsciiString))
            && *final(output) == *old(output),
        fields_ascii(fields_view(fields@)) ==> ({
            let t = tail_from(object_text(fields_view(fields@)), resume_from as int);
            &&& r matches Ok(n) ==> n == t.len() && final(output).taken() == old(output).taken() + t
            &&& r matches Err((m, f)) ==> f is Sink && m < t.len() && final(output).taken() == old(output).taken()
                + t.subrange(0, m as int)
            &&& old(output).room() is None ==> r is Ok
            &&& old(output).room() matches Some(n) ==> (r is Ok <==> t.len() <= n)
            &&& old(output).room() matches Some(n) ==> (r matches Err((m, _)) ==> m == n)
            &&& old(output).room() matches Some(n) ==> final(output).taken().len() - old(output).taken().len() <= n
            &&& final(output).room() == shrink(old(output).room(), final(output).taken().len() - old(output).taken().len())
            &&& r is Err ==> final(output).room() == Some(0nat)
        }),
        old(output).target() matches Some(a) ==> (final(output).target() matches Some(b) && b.0 + (*final(b.1))@ == a.0 + (*final(a.1))@),
{
    if !fields_are_ascii(fields) {
        return Err((0, JsonSerializeFailure::NonAsciiString));
    }
    let ghost fs = fields_view(fields@);
    let ghost whole = object_text(fs);
    let ghost base = output.taken();
    let ghost all = fields_upto(fs, fs.len() as int);
    let mut ret: usize = 0;
    proof {
        assert(whole.subrange(0, 0) =~= Seq::<u8>::empty());
        assert(output.taken() =~= base + tail_from(whole.subrange(0, 0), resume_from as int));
        assert(whole.subrange(0, whole.len() as int) =~= whole);
        lemma_sits_split(whole, 0, seq![0x7bu8] + all, seq![0x7du8]);
        lemma_sits_split(whole, 0, seq![0x7bu8], all);
    }
    let open_brace: [u8; 1] = [0x7b];
    assert(open_brace@ =~= seq![0x7bu8]);
    tracked_write(output, &mut ret, resume_from, open_brace.as_slice(), Ghost(whole), Ghost(base))?;
    let mut i: usize = 0;
    while i < fields.len()
        invariant
            old(output).target() matches Some(a) ==> (output.target() matches Some(b) && b.0 + (*final(b.1))@ == a.0 + (*final(a.1))@),
            old(output).room() matches Some(n) ==> output.taken().len() - old(output).taken().len() <= n,
            output.room() == shrink(old(output).room(), output.taken().len() - old(output).taken().len()),
            base == old(output).taken(),
            fs == fields_view(fields@),
            fields_ascii(fs),
            whole == object_text(fs),
            all == fields_upto(fs, fs.len() as int),
            whole.len() <= usize::MAX,
            sits(whole, 1, all),
            sits(whole, 1 + all.len() as int, seq![0x7du8]),
            0 <= i <= fields@.len(),
            ret == 1 + fields_upto(fs, i as int).len(),
            output.taken() == base + tail_from(whole.subrange(0, ret as int), resume_from as int),
        decreases fields@.len() - i,
    {
        let field = &fields[i];
        let ghost f = fs[i as int];
        proof {
            assert(f == field@);
            assert(is_ascii_bytes(f.key) && value_ascii(f.value));
            lemma_fields_upto_prefix(fs, i + 1, fs.len() as int);
            lemma_sits_prefix(whole, 1, fields_upto(fs, i + 1), all);
            assert(fields_upto(fs, i + 1) =~= fields_upto(fs, i as int) + (separator(i as int) + field_text(f)));
            lemma_sits_split(whole, 1, fields_upto(fs, i as int), separator(i as int) + field_text(f));
            assert(separator(if i > 0 { 1int } else { 0 }) == separator(i as int));
        }
        write_field_entry(output, &mut ret, resume_from, field, i > 0, Ghost(whole), Ghost(base))?;
        i += 1;
    }
    let close_brace: [u8; 1] = [0x7d];
    assert(close_brace@ =~= seq![0x7du8]);
    tracked_write(output, &mut ret, resume_from, close_brace.as_slice(), Ghost(whole), Ghost(base))?;
    proof {
        assert(whole.subrange(0, ret as int) =~= whole);
    }
    Ok(if ret > resume_from { ret - resume_from } else { 0 })
}


/// Writes one value of an array, after a comma when `comma`, its text
/// standing in `whole` at offset `*counter`.
#[verifier::rlimit(60)]
fn write_array_entry<T: StringWrite>(
    output: &mut T,
    counter: &mut usize,
    resume_from: usize,
    value: &JsonValue,
    comma: bool,
    Ghost(whole): Ghost<Seq<u8>>,
    Ghost(base): Ghost<Seq<u8>>,
) -> (r: Result<(), (usize, JsonSerializeFailure<T::StringWriteFailure>)>)
    requires
        whole.len() <= usize::MAX,
        value_ascii(value@),
        sits(whole, *old(counter) as int, separator(if comma { 1int } else { 0 }) + value_text(value@)),
        old(output).taken() == base + tail_from(whole.subrange(0, *old(counter) as int), resume_from as int),
    ensures
        r is Ok ==> *final(counter) == *old(counter) + (separator(if comma { 1int } else { 0 }) + value_text(value@)).len()
            && final(output).taken() == base + tail_from(whole.subrange(0, *final(counter) as int), resume_from as int),
        r matches Err((m, _)) ==> m < tail_from(whole, resume_from as int).len()
            && final(output).taken() == base + tail_from(whole, resume_from as int).subrange(0, m as int),
        old(output).room() is None ==> r is Ok,
        old(output).room() matches Some(n) ==> final(output).taken().len() - old(output).taken().len() <= n,
        final(output).room() == shrink(old(output).room(), final(output).taken().len() - old(output).taken().len()),
        r is Err ==> final(output).room() == Some(0nat),
        r matches Err((_, f)) ==> f is Sink,
        old(output).target() matches Some(a) ==> (final(output).target() matches Some(b) && b.0 + (*final(b.1))@ == a.0 + (*final(a.1))@),
{
    let ghost sep = separator(if comma { 1int } else { 0 });
    proof {
        lemma_sits_split(whole, *counter as int, sep, value_text(value@));
    }
    if comma {
        let comma_byte: [u8; 1] = [0x2c];
        assert(comma_byte@ =~= sep);
        tracked_write(output, counter, resume_from, comma_byte.as_slice(), Ghost(whole), Ghost(base))?;
    }
    write_value(output, counter, resume_from, value, Ghost(whole), Ghost(base))
}

/// Writes `values` as a JSON array to `output`, skipping the first
/// `resume_from` bytes of the text; returns how many bytes were written,
/// or on failure how many were written before it.
#[verifier::rlimit(60)]
pub fn serialize_json_array<'data, Output: StringWrite>(
    output: &mut Output,
    values: &[JsonValue<'data>],
    resume_from: usize,
) -> (r: Result<usize, (usize, JsonSerializeFailure<Output::StringWriteFailure>)>)
    requires
        array_text(values_view(values@)).len() <= usize::MAX,
    ensures
        !values_ascii(values_view(values@)) ==> r == Err::<usize, _>((0usize, JsonSerializeFailure::<Output::StringWriteFailure>::NonAsciiString))
            && *final(output) == *old(output),
        values_ascii(values_view(values@)) ==> ({
            let t = tail_from(array_text(values_view(values@)), resume_from as int);
            &&& r matches Ok(n) ==> n == t.len() && final(output).taken() == old(output).taken() + t
            &&& r matches Err((m, f)) ==> f is Sink && m < t.len() && final(output).taken() == old(output).taken()
                + t.subrange(0, m as int)
            &&& old(output).room() is None ==> r is Ok
            &&& old(output).room() matches Some(n) ==> (r is Ok <==> t.len() <= n)
            &&& old(output).room() matches Some(n) ==> (r matches Err((m, _)) ==> m == n)
            &&& old(output).room() matches Some(n) ==> final(output).taken().len() - old(output).taken().len() <= n
            &&& final(output).room() == shrink(old(output).room(), final(output).taken().len() - old(output).taken().len())
            &&& r is Err ==> final(output).room() == Some(0nat)
        }),
        old(output).target() matches Some(a) ==> (final(output).target() matches Some(b) && b.0 + (*final(b.1))@ == a.0 + (*final(a.1))@),
{
    if !values_are_ascii(values) {
        return Err((0, JsonSerializeFailure::NonAsciiString));
    }
    let ghost vs = values_view(values@);
    let ghost whole = array_text(vs);
    let ghost base = output.taken();
    let ghost all = values_upto(vs, vs.len() as int);
    let mut ret: usize = 0;
    proof {
        assert(whole.subrange(0, 0) =~= Seq::<u8>::empty());
        assert(output.taken() =~= base + tail_from(whole.subrange(0, 0), resume_from as int));
        assert(whole.subrange(0, whole.len() as int) =~= whole);
        lemma_sits_split(whole, 0, seq![0x5bu8] + all, seq![0x5du8]);
        lemma_sits_split(whole, 0, seq![0x5bu8], all);
    }
    let open_bracket: [u8; 1] = [0x5b];
    assert(open_bracket@ =~= seq![0x5bu8]);
    tracked_write(output, &mut ret, resume_from, open_bracket.as_slice(), Ghost(whole), Ghost(base))?;
    let mut i: usize = 0;
    while i < values.len()
        invariant
            old(output).target() matches Some(a) ==> (output.target() matches Some(b) && b.0 + (*final(b.1))@ == a.0 + (*final(a.1))@),
            old(output).room() matches Some(n) ==> output.taken().len() - old(output).taken().len() <= n,
            output.room() == shrink(old(output).room(), output.taken().len() - old(output).taken().len()),
            base == old(output).taken(),
            vs == values_view(values@),
            values_ascii(vs),
            whole == array_text(vs),
            all == values_upto(vs, vs.len() as int),
            whole.len() <= usize::MAX,
            sits(whole, 1, all),
            sits(whole, 1 + all.len() as int, seq![0x5du8]),
            0 <= i <= values@.len(),
            ret == 1 + values_upto(vs, i as int).len(),
            output.taken() == base + tail_from(whole.subrange(0, ret as int), resume_from as int),
        decreases values@.len() - i,
    {
        let value = &values[i];
        proof {
            assert(vs[i as int] == value@);
            assert(value_ascii(vs[i as int]));
            lemma_values_upto_prefix(vs, i + 1, vs.len() as int);
            lemma_sits_prefix(whole, 1, values_upto(vs, i + 1), all);
            assert(values_upto(vs, i + 1) =~= values_upto(vs, i as int) + (separator(i as int) + value_text(vs[i as int])));
            lemma_sits_split(whole, 1, values_upto(vs, i as int), separator(i as int) + value_text(vs[i as int]));
            assert(separator(if i > 0 { 1int } else { 0 }) == separator(i as int));
        }
        write_array_entry(output, &mut ret, resume_from, value, i > 0, Ghost(whole), Ghost(base))?;
        i += 1;
    }
    let close_bracket: [u8; 1] = [0x5d];
    assert(close_bracket@ =~= seq![0x5du8]);
    tracked_write(output, &mut ret, resume_from, close_bracket.as_slice(), Ghost(whole), Ghost(base))?;
    proof {
        assert(whole.subrange(0, ret as int) =~= whole);
    }
    Ok(if ret > resume_from { ret - resume_from } else { 0 })
}


pub proof fn lemma_ascii_concat(a: Seq<u8>, b: Seq<u8>)
    requires
        is_ascii_bytes(a),
        is_ascii_bytes(b),
    ensures
        is_ascii_bytes(a + b),
{
    assert forall|k: int| 0 <= k < (a + b).len() implies #[trigger] (a + b)[k] < 0x80 by {
        if k >= a.len() {
            assert((a + b)[k] == b[k - a.len()]);
        }
    }
}

pub proof fn lemma_escaped_upto_ascii(s: Seq<u8>, j: int)
    requires
        is_ascii_bytes(s),
        j <= s.len(),
    ensures
        is_ascii_bytes(escaped_upto(s, j)),
    decreases j,
{
    if j > 0 {
        lemma_escaped_upto_ascii(s, j - 1);
        lemma_ascii_concat(escaped_upto(s, j - 1), escaped_piece(s[j - 1]));
    }
}

pub proof fn lemma_digits_ascii(n: nat)
    ensures
        is_ascii_bytes(digits_of(n)),
    decreases n,
{
    if n >= 10 {
        lemma_digits_ascii(n / 10);
        assert(n % 10 < 10);
        lemma_ascii_concat(digits_of(n / 10), seq![(0x30 + n % 10) as u8]);
        assert(digits_of(n) =~= digits_of(n / 10) + seq![(0x30 + n % 10) as u8]);
    } else {
        assert(digits_of(n)[0] == (0x30 + n) as u8);
    }
}

pub proof fn lemma_value_text_ascii(v: ValueModel)
    requires
        value_ascii(v),
    ensures
        is_ascii_bytes(value_text(v)),
{
    match v {
        ValueModel::Str(s) => {
            lemma_escaped_upto_ascii(s, s.len() as int);
            lemma_ascii_concat(seq![0x22u8], escaped_upto(s, s.len() as int));
            lemma_ascii_concat(seq![0x22u8] + escaped_upto(s, s.len() as int), seq![0x22u8]);
        },
        ValueModel::Number(n) => {
            if n < 0 {
                lemma_digits_ascii((-n) as nat);
                lemma_ascii_concat(seq![0x2du8], digits_of((-n) as nat));
            } else {
                lemma_digits_ascii(n as nat);
            }
        },
        _ => {},
    }
}

pub proof fn lemma_fields_upto_ascii(fs: Seq<FieldModel>, i: int)
    requires
        0 <= i <= fs.len(),
        fields_ascii(fs),
    ensures
        is_ascii_bytes(fields_upto(fs, i)),
    decreases i,
{
    if i > 0 {
        lemma_fields_upto_ascii(fs, i - 1);
        let f = fs[i - 1];
        assert(is_ascii_bytes(f.key) && value_ascii(f.value));
        lemma_value_text_ascii(ValueModel::Str(f.key));
        lemma_value_text_ascii(f.value);
        lemma_ascii_concat(fields_upto(fs, i - 1), separator(i - 1));
        lemma_ascii_concat(string_text(f.key), seq![0x3au8]);
        lemma_ascii_concat(string_text(f.key) + seq![0x3au8], value_text(f.value));
        lemma_ascii_concat(fields_upto(fs, i - 1) + separator(i - 1), field_text(f));
    }
}

pub proof fn lemma_values_upto_ascii(vs: Seq<ValueModel>, i: int)
    requires
        0 <= i <= vs.len(),
        values_ascii(vs),
    ensures
        is_ascii_bytes(values_upto(vs, i)),
    decreases i,
{
    if i > 0 {
        lemma_values_upto_ascii(vs, i - 1);
        assert(value_ascii(vs[i - 1]));
        lemma_value_text_ascii(vs[i - 1]);
        lemma_ascii_concat(values_upto(vs, i - 1), separator(i - 1));
        lemma_ascii_concat(values_upto(vs, i - 1) + separator(i - 1), value_text(vs[i - 1]));
    }
}

/// Object text is ASCII.
pub proof fn lemma_object_text_ascii(fs: Seq<FieldModel>)
    requires
        fields_ascii(fs),
    ensures
        is_ascii_bytes(object_text(fs)),
{
    lemma_fields_upto_ascii(fs, fs.len() as int);
    lemma_ascii_concat(seq![0x7bu8], fields_upto(fs, fs.len() as int));
    lemma_ascii_concat(seq![0x7bu8] + fields_upto(fs, fs.len() as int), seq![0x7du8]);
}

/// Array text is ASCII.
pub proof fn lemma_array_text_ascii(vs: Seq<ValueModel>)
    requires
        values_ascii(vs),
    ensures
        is_ascii_bytes(array_text(vs)),
{
    lemma_values_upto_ascii(vs, vs.len() as int);
    lemma_ascii_concat(seq![0x5bu8], values_upto(vs, vs.len() as int));
    lemma_ascii_concat(seq![0x5bu8] + values_upto(vs, vs.len() as int), seq![0x5du8]);
}

} // verus!
