//! The incremental scanner: from bytes to fields.
use vstd::prelude::*;
use vstd::string::StringSliceAdditionalSpecFns;
use vstd::utf8::{is_leading_byte_width_1, partial_valid_utf8_extend_ascii_block, valid_utf8};
use crate::outside::{arena_push, str_from_bytes, string_from_bytes};
use crate::codec::{digits_value, fits_i64, get_required_unescaped_char, is_digit, is_ws, unescape_letter};
use crate::value::{FieldModel, JsonField, JsonParseFailure, JsonValue, ValueModel};

verus! {

/// The outcome of scanning one piece of the input: what was read and the
/// index just past it, or the failure.
pub enum Scan<T> {
    Done(T, int),
    Fail(JsonParseFailure),
}

/// The first index at or after `i` that holds no whitespace (or the end).
pub open spec fn skip_ws(data: Seq<u8>, i: int) -> int
    decreases data.len() - i,
{
    if 0 <= i < data.len() && is_ws(data[i]) {
        skip_ws(data, i + 1)
    } else {
        i
    }
}

/// The first index at or after `j` that holds no ASCII digit (or the end).
pub open spec fn digits_end(data: Seq<u8>, j: int) -> int
    decreases data.len() - j,
{
    if 0 <= j < data.len() && is_digit(data[j]) {
        digits_end(data, j + 1)
    } else {
        j
    }
}

/// Whether `used` bytes exhaust an escape buffer with `room` bytes free
/// (`None`: no bound).
pub open spec fn room_full(room: Option<nat>, used: int) -> bool {
    room matches Some(r) && used >= r
}

/// `room` less `used` bytes.
pub open spec fn shrink(room: Option<nat>, used: int) -> Option<nat> {
    match room {
        Some(r) => Some((r - used) as nat),
        None => None,
    }
}

/// Scans the body of a string from index `j`, having unescaped `acc` so
/// far, with a backslash pending when `escaped`.
pub open spec fn scan_string_body(
    data: Seq<u8>,
    j: int,
    acc: Seq<u8>,
    escaped: bool,
    room: Option<nat>,
) -> Scan<Seq<u8>>
    decreases data.len() - j,
{
    if j < 0 || j >= data.len() {
        Scan::Fail(JsonParseFailure::Incomplete)
    } else if data[j] >= 0x80 {
        Scan::Fail(JsonParseFailure::InvalidStringField)
    } else if escaped {
        match unescape_letter(data[j]) {
            Some(c) => if room_full(room, acc.len() as int) {
                Scan::Fail(JsonParseFailure::EscapeBufferTooSmall)
            } else {
                scan_string_body(data, j + 1, acc.push(c), false, room)
            },
            None => Scan::Fail(JsonParseFailure::InvalidStringField),
        }
    } else if data[j] == 0x5c {
        scan_string_body(data, j + 1, acc, true, room)
    } else if data[j] == 0x22 {
        Scan::Done(acc, j + 1)
    } else if room_full(room, acc.len() as int) {
        Scan::Fail(JsonParseFailure::EscapeBufferTooSmall)
    } else {
        scan_string_body(data, j + 1, acc.push(data[j]), false, room)
    }
}

/// Scans a quoted string that starts at index `i`, unescaping it into at
/// most `room` bytes.
pub open spec fn scan_string(data: Seq<u8>, i: int, room: Option<nat>) -> Scan<Seq<u8>> {
    if 0 <= i < data.len() && data[i] == 0x22 {
        scan_string_body(data, i + 1, seq![], false, room)
    } else if 0 <= i < data.len() {
        Scan::Fail(JsonParseFailure::InvalidStringField)
    } else {
        Scan::Fail(JsonParseFailure::Incomplete)
    }
}

/// Matches the literal `lit` at index `i`, from its `k`-th byte on.
pub open spec fn scan_literal(
    data: Seq<u8>,
    i: int,
    lit: Seq<u8>,
    err: JsonParseFailure,
    k: int,
) -> Scan<()>
    decreases lit.len() - k,
{
    if k < 0 || k >= lit.len() {
        Scan::Done((), i + lit.len())
    } else if i + k >= data.len() {
        Scan::Fail(JsonParseFailure::Incomplete)
    } else if data[i + k] != lit[k] {
        Scan::Fail(err)
    } else {
        scan_literal(data, i, lit, err, k + 1)
    }
}

pub proof fn lemma_scan_literal_end(data: Seq<u8>, i: int, lit: Seq<u8>, err: JsonParseFailure, k: int)
    requires
        0 <= k,
    ensures
        scan_literal(data, i, lit, err, k) matches Scan::Done(_, e) ==> e == i + lit.len(),
    decreases lit.len() - k,
{
    if k < lit.len() {
        lemma_scan_literal_end(data, i, lit, err, k + 1);
    }
}

pub open spec fn lit_null() -> Seq<u8> {
    seq![0x6eu8, 0x75u8, 0x6cu8, 0x6cu8]
}

pub open spec fn lit_true() -> Seq<u8> {
    seq![0x74u8, 0x72u8, 0x75u8, 0x65u8]
}

pub open spec fn lit_false() -> Seq<u8> {
    seq![0x66u8, 0x61u8, 0x6cu8, 0x73u8, 0x65u8]
}

/// The bytes that may end a number: whitespace, a comma or the closing
/// bracket `close` of the enclosing object or array.
pub open spec fn ends_number(b: u8, close: u8) -> bool {
    is_ws(b) || b == 0x2c || b == close
}

/// Scans a number whose first byte, at index `i`, is `-` or a digit, inside
/// an object or array that `close` ends.
pub open spec fn scan_number(data: Seq<u8>, i: int, close: u8) -> Scan<int> {
    let negative = data[i] == 0x2d;
    let e = digits_end(data, i + 1);
    if e >= data.len() {
        Scan::Fail(JsonParseFailure::Incomplete)
    } else if !ends_number(data[e], close) {
        Scan::Fail(JsonParseFailure::InvalidNumericField)
    } else if negative && e == i + 1 {
        Scan::Fail(JsonParseFailure::InvalidNumericField)
    } else {
        let v = if negative {
            -digits_value(data.subrange(i + 1, e))
        } else {
            digits_value(data.subrange(i, e))
        };
        if fits_i64(v) {
            Scan::Done(v, e)
        } else {
            Scan::Fail(JsonParseFailure::NumberParseError)
        }
    }
}

/// Scans one terminal value that starts at index `i`, inside an object or
/// array that `close` ends, unescaping a string into at most `room` bytes.
pub open spec fn scan_value(data: Seq<u8>, i: int, room: Option<nat>, close: u8) -> Scan<ValueModel> {
    if i < 0 || i >= data.len() {
        Scan::Fail(JsonParseFailure::Incomplete)
    } else {
        let b = data[i];
        if b == 0x22 {
            match scan_string(data, i, room) {
                Scan::Done(s, e) => Scan::Done(ValueModel::Str(s), e),
                Scan::Fail(f) => Scan::Fail(f),
            }
        } else if b == 0x6e {
            match scan_literal(data, i, lit_null(), JsonParseFailure::InvalidNullField, 0) {
                Scan::Done(_, e) => Scan::Done(ValueModel::Null, e),
                Scan::Fail(f) => Scan::Fail(f),
            }
        } else if b == 0x74 || b == 0x66 {
            let lit = if b == 0x74 { lit_true() } else { lit_false() };
            match scan_literal(data, i, lit, JsonParseFailure::InvalidBooleanField, 0) {
                Scan::Done(_, e) => Scan::Done(ValueModel::Boolean(b == 0x74), e),
                Scan::Fail(f) => Scan::Fail(f),
            }
        } else if b == 0x2d || is_digit(b) {
            match scan_number(data, i, close) {
                Scan::Done(v, e) => Scan::Done(ValueModel::Number(v), e),
                Scan::Fail(f) => Scan::Fail(f),
            }
        } else {
            Scan::Fail(JsonParseFailure::InvalidStructure)
        }
    }
}

/// The escape-buffer bytes that a value's string takes.
pub open spec fn escape_use(v: ValueModel) -> int {
    match v {
        ValueModel::Str(s) => s.len() as int,
        _ => 0,
    }
}

/// The object scan from index `i` on, with `fields` read so far, a comma
/// owed before the next field when `needs_comma`, `room` bytes left in the
/// escape buffer and room for `cap` fields in all (`None`: no bound).
pub open spec fn object_loop(
    data: Seq<u8>,
    i: int,
    needs_comma: bool,
    fields: Seq<FieldModel>,
    room: Option<nat>,
    cap: Option<nat>,
) -> Scan<Seq<FieldModel>>
    decreases data.len() - i,
{
    if i < 0 || i >= data.len() {
        Scan::Fail(JsonParseFailure::Incomplete)
    } else {
        let j = skip_ws(data, i);
        if j < i || j >= data.len() {
            Scan::Fail(JsonParseFailure::Incomplete)
        } else if data[j] == 0x7d {
            Scan::Done(fields, j + 1)
        } else if needs_comma {
            if data[j] != 0x2c {
                Scan::Fail(JsonParseFailure::InvalidStructure)
            } else {
                object_loop(data, j + 1, false, fields, room, cap)
            }
        } else {
            match scan_string(data, j, room) {
                Scan::Fail(f) => Scan::Fail(f),
                Scan::Done(key, j2) => {
                    let j3 = skip_ws(data, j2);
                    if j3 >= data.len() {
                        Scan::Fail(JsonParseFailure::Incomplete)
                    } else if data[j3] != 0x3a {
                        Scan::Fail(JsonParseFailure::InvalidStructure)
                    } else {
                        let j4 = skip_ws(data, j3 + 1);
                        let vroom = shrink(room, key.len() as int);
                        match scan_value(data, j4, vroom, 0x7d) {
                            Scan::Fail(f) => Scan::Fail(f),
                            Scan::Done(v, j5) => if cap matches Some(c) && fields.len() >= c {
                                Scan::Fail(JsonParseFailure::FieldBufferTooSmall)
                            } else if j5 <= i || j5 > data.len() {
                                Scan::Fail(JsonParseFailure::Incomplete)
                            } else {
                                object_loop(
                                    data,
                                    j5,
                                    true,
                                    fields.push(FieldModel { key, value: v }),
                                    shrink(vroom, escape_use(v)),
                                    cap,
                                )
                            },
                        }
                    }
                },
            }
        }
    }
}

/// What parsing an object from `data` gives: the fields in order and the
/// number of bytes consumed, or the failure. `room` bounds the unescaped
/// string bytes and `cap` the fields (`None`: no bound).
pub open spec fn parse_object_spec(data: Seq<u8>, room: Option<nat>, cap: Option<nat>) -> Scan<
    Seq<FieldModel>,
> {
    let i = skip_ws(data, 0);
    if i >= data.len() {
        Scan::Fail(JsonParseFailure::Incomplete)
    } else if data[i] != 0x7b {
        Scan::Fail(JsonParseFailure::InvalidStructure)
    } else {
        object_loop(data, i + 1, false, seq![], room, cap)
    }
}

/// The array scan from index `i` on, with `values` read so far, a comma
/// owed before the next value when `needs_comma`, `room` bytes left in the
/// escape buffer and room for `cap` values in all (`None`: no bound).
pub open spec fn array_loop(
    data: Seq<u8>,
    i: int,
    needs_comma: bool,
    values: Seq<ValueModel>,
    room: Option<nat>,
    cap: Option<nat>,
) -> Scan<Seq<ValueModel>>
    decreases data.len() - i,
{
    if i < 0 || i >= data.len() {
        Scan::Fail(JsonParseFailure::Incomplete)
    } else {
        let j = skip_ws(data, i);
        if j < i || j >= data.len() {
            Scan::Fail(JsonParseFailure::Incomplete)
        } else if data[j] == 0x5d {
            Scan::Done(values, j + 1)
        } else if needs_comma {
            if data[j] != 0x2c {
                Scan::Fail(JsonParseFailure::InvalidStructure)
            } else {
                array_loop(data, j + 1, false, values, room, cap)
            }
        } else {
            match scan_value(data, j, room, 0x5d) {
                Scan::Fail(f) => Scan::Fail(f),
                Scan::Done(v, e) => if cap matches Some(c) && values.len() >= c {
                    Scan::Fail(JsonParseFailure::FieldBufferTooSmall)
                } else if e <= i || e > data.len() {
                    Scan::Fail(JsonParseFailure::Incomplete)
                } else {
                    array_loop(data, e, true, values.push(v), shrink(room, escape_use(v)), cap)
                },
            }
        }
    }
}

/// What parsing an array from `data` gives: the values in order and the
/// number of bytes consumed, or the failure. `room` bounds the unescaped
/// string bytes and `cap` the values (`None`: no bound).
pub open spec fn parse_array_spec(data: Seq<u8>, room: Option<nat>, cap: Option<nat>) -> Scan<
    Seq<ValueModel>,
> {
    let i = skip_ws(data, 0);
    if i >= data.len() {
        Scan::Fail(JsonParseFailure::Incomplete)
    } else if data[i] != 0x5b {
        Scan::Fail(JsonParseFailure::InvalidStructure)
    } else {
        array_loop(data, i + 1, false, seq![], room, cap)
    }
}

/// What parsing one value from `data` gives: the value and the index just
/// past it, or the failure.
pub open spec fn parse_value_spec(data: Seq<u8>, room: Option<nat>) -> Scan<ValueModel> {
    let i = skip_ws(data, 0);
    if i >= data.len() {
        Scan::Fail(JsonParseFailure::Incomplete)
    } else {
        scan_value(data, i, room, 0x7d)
    }
}

pub proof fn lemma_skip_ws(data: Seq<u8>, i: int)
    requires
        0 <= i,
    ensures
        i <= skip_ws(data, i),
        i <= data.len() ==> skip_ws(data, i) <= data.len(),
        skip_ws(data, i) < data.len() ==> !is_ws(data[skip_ws(data, i)]),
    decreases data.len() - i,
{
    if 0 <= i < data.len() && is_ws(data[i]) {
        lemma_skip_ws(data, i + 1);
    }
}

pub proof fn lemma_digits_end(data: Seq<u8>, j: int)
    requires
        0 <= j,
    ensures
        j <= digits_end(data, j),
        j <= data.len() ==> digits_end(data, j) <= data.len(),
        forall|k: int| j <= k < digits_end(data, j) ==> is_digit(#[trigger] data[k]),
        digits_end(data, j) < data.len() ==> !is_digit(data[digits_end(data, j)]),
    decreases data.len() - j,
{
    if 0 <= j < data.len() && is_digit(data[j]) {
        lemma_digits_end(data, j + 1);
    }
}

pub fn skip_whitespace(index: &mut usize, data: &[u8]) -> (r: Result<(), JsonParseFailure>)
    requires
        *old(index) <= data@.len(),
    ensures
        *final(index) == skip_ws(data@, *old(index) as int),
        r is Ok <==> *final(index) < data@.len(),
        r matches Err(e) ==> e == JsonParseFailure::Incomplete,
{
    proof {
        lemma_skip_ws(data@, *index as int);
    }
    while *index < data.len() && is_ascii_ws(data[*index])
        invariant
            *old(index) <= *index <= data@.len(),
            skip_ws(data@, *index as int) == skip_ws(data@, *old(index) as int),
        decreases data@.len() - *index,
    {
        *index += 1;
    }
    if *index == data.len() {
        Err(JsonParseFailure::Incomplete)
    } else {
        Ok(())
    }
}

fn is_ascii_ws(b: u8) -> (r: bool)
    ensures
        r == is_ws(b),
{
    b == 0x20 || b == 0x09 || b == 0x0a || b == 0x0c || b == 0x0d
}


pub fn skip_numeric(index: &mut usize, data: &[u8], close: u8) -> (r: Result<(), JsonParseFailure>)
    requires
        *old(index) <= data@.len(),
    ensures
        *final(index) == digits_end(data@, *old(index) as int),
        *final(index) <= data@.len(),
        r is Ok <==> *final(index) < data@.len() && ends_number(data@[*final(index) as int], close),
        r matches Err(e) ==> (e == JsonParseFailure::Incomplete <==> *final(index) == data@.len()),
        r matches Err(e) ==> (e == JsonParseFailure::Incomplete || e
            == JsonParseFailure::InvalidNumericField),
{
    proof {
        lemma_digits_end(data@, *index as int);
    }
    while *index < data.len() && data[*index] <= 0x39 && data[*index] >= 0x30
        invariant
            *old(index) <= *index <= data@.len(),
            digits_end(data@, *index as int) == digits_end(data@, *old(index) as int),
        decreases data@.len() - *index,
    {
        *index += 1;
    }
    if *index == data.len() {
        Err(JsonParseFailure::Incomplete)
    } else if is_ascii_ws(data[*index]) || data[*index] == 0x2c || data[*index] == close {
        Ok(())
    } else {
        Err(JsonParseFailure::InvalidNumericField)
    }
}

pub fn skip_literal(
    index: &mut usize,
    data: &[u8],
    target: &[u8],
    field_error_type: JsonParseFailure,
) -> (r: Result<(), JsonParseFailure>)
    requires
        *old(index) <= data@.len(),
    ensures
        r is Ok <==> scan_literal(data@, *old(index) as int, target@, field_error_type, 0) is Done,
        scan_literal(data@, *old(index) as int, target@, field_error_type, 0) matches Scan::Done(_, e) ==> e == *old(index) + target@.len(),
        r is Ok ==> *final(index) == *old(index) + target@.len(),
        r is Ok ==> *final(index) <= data@.len(),
        r matches Err(e) ==> scan_literal(data@, *old(index) as int, target@, field_error_type, 0)
            == Scan::<()>::Fail(e),
{
    proof {
        lemma_scan_literal_end(data@, *index as int, target@, field_error_type, 0);
    }
    let start = *index;
    let mut k: usize = 0;
    while k < target.len()
        invariant
            start == *old(index),
            start <= data@.len(),
            0 <= k <= target@.len(),
            *index == start + k,
            *index <= data@.len(),
            scan_literal(data@, start as int, target@, field_error_type, k as int) == scan_literal(
                data@,
                start as int,
                target@,
                field_error_type,
                0,
            ),
        decreases target@.len() - k,
    {
        if *index >= data.len() {
            return Err(JsonParseFailure::Incomplete);
        }
        if data[*index] != target[k] {
            return Err(field_error_type);
        }
        *index += 1;
        k += 1;
    }
    Ok(())
}

/// Digit runs denote non-negative numbers that grow as digits are appended.
pub proof fn lemma_digits_value_prefix(s: Seq<u8>, k: int)
    requires
        0 <= k <= s.len(),
        forall|i: int| 0 <= i < s.len() ==> is_digit(#[trigger] s[i]),
    ensures
        0 <= digits_value(s.subrange(0, k)) <= digits_value(s),
    decreases s.len(),
{
    if s.len() > 0 {
        let t = s.drop_last();
        if k < s.len() {
            assert(t.subrange(0, k) =~= s.subrange(0, k));
            lemma_digits_value_prefix(t, k);
        } else {
            assert(s.subrange(0, k) =~= s);
            lemma_digits_value_prefix(t, 0);
            assert(t.subrange(0, 0) =~= s.subrange(0, 0));
            lemma_digits_value_prefix(t, t.len() as int);
            assert(t.subrange(0, t.len() as int) =~= t);
        }
    }
}

/// The value of the digits `data[start..end]`, negated when `negative`, if
/// it fits in an `i64`.
fn parse_integer(data: &[u8], start: usize, end: usize, negative: bool) -> (r: Option<i64>)
    requires
        start <= end <= data@.len(),
        forall|i: int| start <= i < end ==> is_digit(#[trigger] data@[i]),
    ensures
        ({
            let m = digits_value(data@.subrange(start as int, end as int));
            let v = if negative { -m } else { m };
            &&& r is Some <==> fits_i64(v)
            &&& r matches Some(x) ==> x == v
        }),
{
    let ghost s = data@.subrange(start as int, end as int);
    let mut m: i128 = 0;
    let mut k: usize = start;
    while k < end
        invariant
            start <= k <= end <= data@.len(),
            s == data@.subrange(start as int, end as int),
            forall|i: int| start <= i < end ==> is_digit(#[trigger] data@[i]),
            m == digits_value(s.subrange(0, k - start)),
            0 <= m <= 0x8000_0000_0000_0000,
        decreases end - k,
    {
        proof {
            assert(s.subrange(0, k - start + 1).drop_last() =~= s.subrange(0, k - start));
            assert(s.subrange(0, k - start + 1).last() == data@[k as int]);
        }
        m = m * 10 + (data[k] - 0x30) as i128;
        k += 1;
        if m > 0x8000_0000_0000_0000 {
            proof {
                lemma_digits_value_prefix(s, k - start);
            }
            return None;
        }
    }
    proof {
        assert(s.subrange(0, k - start) =~= s);
    }
    if negative {
        Some((-m) as i64)
    } else if m <= 0x7fff_ffff_ffff_ffff {
        Some(m as i64)
    } else {
        None
    }
}

/// A bytes sequence of ASCII is valid UTF-8.
pub proof fn lemma_ascii_valid_utf8(b: Seq<u8>)
    requires
        forall|i: int| 0 <= i < b.len() ==> #[trigger] b[i] < 0x80,
    ensures
        valid_utf8(b),
{
    assert(b.subrange(0, 0) =~= Seq::<u8>::empty());
    assert(valid_utf8(Seq::<u8>::empty()));
    assert forall|i: int| 0 <= 0 <= i < b.len() <= b.len() implies #[trigger] is_leading_byte_width_1(b[i]) by {
        assert(b[i] < 0x80);
    }
    partial_valid_utf8_extend_ascii_block(b, 0, b.len() as int);
    assert(b.subrange(0, b.len() as int) =~= b);
}

pub open spec fn is_ascii_bytes(b: Seq<u8>) -> bool {
    forall|i: int| 0 <= i < b.len() ==> #[trigger] b[i] < 0x80
}

/// Where unescaped strings go: a fixed slice, carved up string by string,
/// or an arena that keeps each finished string for its own lifetime.
pub enum StringBuffer<'e> {
    /// A fixed slice; the first `usize` bytes hold the string being built.
    Finite(usize, &'e mut [u8]),
    /// An arena; the `Vec` holds the string being built.
    Infinite(Vec<u8>, &'e elsa::FrozenVec<String>),
}

impl<'e> StringBuffer<'e> {
    pub open spec fn wf(&self) -> bool {
        match self {
            StringBuffer::Finite(p, s) => *p <= s@.len(),
            StringBuffer::Infinite(_, _) => true,
        }
    }

    /// The bytes of the string being built.
    pub open spec fn pending(&self) -> Seq<u8> {
        match self {
            StringBuffer::Finite(p, s) => s@.subrange(0, *p as int),
            StringBuffer::Infinite(v, _) => v@,
        }
    }

    /// The bytes still free (`None`: no bound).
    pub open spec fn room(&self) -> Option<nat> {
        match self {
            StringBuffer::Finite(p, s) => Some((s@.len() - *p) as nat),
            StringBuffer::Infinite(_, _) => None,
        }
    }

    fn write_part(&mut self, b: u8) -> (r: Result<(), JsonParseFailure>)
        requires
            old(self).wf(),
        ensures
            final(self).wf(),
            room_full(old(self).room(), 0) ==> r == Err::<(), _>(
                JsonParseFailure::EscapeBufferTooSmall,
            ) && final(self).pending() == old(self).pending() && final(self).room() == old(
                self,
            ).room(),
            !room_full(old(self).room(), 0) ==> r is Ok && final(self).pending() == old(
                self,
            ).pending().push(b) && final(self).room() == shrink(old(self).room(), 1),
            *old(self) is Finite ==> *final(self) is Finite,
            *old(self) is Finite ==> (*(*final(self))->Finite_1)@.len() == (*(*old(self))->Finite_1)@.len(),
            *old(self) is Finite ==> forall|k: int|
                (*old(self))->Finite_0 + 1 <= k < (*(*old(self))->Finite_1)@.len() ==> (*(*final(self))->Finite_1)@[k]
                    == (*(*old(self))->Finite_1)@[k],
    {
        match self {
            StringBuffer::Finite(position, slice) => {
                if *position == slice.len() {
                    Err(JsonParseFailure::EscapeBufferTooSmall)
                } else {
                    let ghost before = slice@;
                    slice[*position] = b;
                    *position += 1;
                    assert(slice@.subrange(0, *position as int) =~= before.subrange(
                        0,
                        *position - 1,
                    ).push(b));
                    Ok(())
                }
            },
            StringBuffer::Infinite(current, _arena) => {
                current.push(b);
                Ok(())
            },
        }
    }

    fn consume_string(&mut self) -> (r: &'e str)
        requires
            old(self).wf(),
            is_ascii_bytes(old(self).pending()),
        ensures
            final(self).wf(),
            final(self).pending().len() == 0,
            final(self).room() == old(self).room(),
            r.spec_bytes() == old(self).pending(),
    {
        proof {
            lemma_ascii_valid_utf8(self.pending());
        }
        match self {
            StringBuffer::Finite(position, slice) => {
                let mut whole: &'e mut [u8] = &mut [];
                core::mem::swap(slice, &mut whole);
                let (done, rest) = whole.split_at_mut(*position);
                *slice = rest;
                *position = 0;
                let done: &'e [u8] = done;
                match str_from_bytes(done) {
                    Some(s) => s,
                    None => {
                        proof {
                            assert(false);
                        }
                        ""
                    },
                }
            },
            StringBuffer::Infinite(current, arena) => {
                let mut done: Vec<u8> = Vec::new();
                core::mem::swap(current, &mut done);
                match string_from_bytes(done) {
                    Some(s) => arena_push(*arena, s),
                    None => {
                        proof {
                            assert(false);
                        }
                        ""
                    },
                }
            },
        }
    }
}


/// Unescapes the quoted string at `*index` into `escaped`, moving `*index`
/// past its closing quote.
pub fn unescape_json_string<'e>(
    index: &mut usize,
    data: &[u8],
    escaped: &mut StringBuffer<'e>,
) -> (r: Result<&'e str, JsonParseFailure>)
    requires
        *old(index) < data@.len(),
        old(escaped).wf(),
        old(escaped).pending().len() == 0,
    ensures
        final(escaped).wf(),
        match scan_string(data@, *old(index) as int, old(escaped).room()) {
            Scan::Done(acc, e) => r matches Ok(s) && s.spec_bytes() == acc && *final(index) == e
                && *old(index) < e <= data@.len()
                && final(escaped).room() == shrink(old(escaped).room(), acc.len() as int)
                && final(escaped).pending().len() == 0,
            Scan::Fail(f) => r == Err::<&'e str, _>(f),
        },
{
    let ghost room0 = escaped.room();
    let ghost start = *index as int;
    if data[*index] != 0x22 {
        return Err(JsonParseFailure::InvalidStringField);
    }
    *index += 1;
    let mut current_char_escaped = false;
    assert(escaped.pending() =~= Seq::<u8>::empty());
    while *index < data.len()
        invariant
            start == *old(index),
            room0 == old(escaped).room(),
            start < *index <= data@.len(),
            escaped.wf(),
            is_ascii_bytes(escaped.pending()),
            !room_full(room0, escaped.pending().len() as int - 1),
            escaped.room() == shrink(room0, escaped.pending().len() as int),
            scan_string(data@, start, room0) == scan_string_body(
                data@,
                *index as int,
                escaped.pending(),
                current_char_escaped,
                room0,
            ),
        decreases data@.len() - *index,
    {
        let current_char = data[*index];
        if current_char >= 0x80 {
            assert(scan_string_body(data@, *index as int, escaped.pending(), current_char_escaped, room0) == Scan::<Seq<u8>>::Fail(JsonParseFailure::InvalidStringField));
            return Err(JsonParseFailure::InvalidStringField);
        } else if current_char_escaped {
            match get_required_unescaped_char(current_char) {
                Some(unescaped_char) => {
                    if let Err(e) = escaped.write_part(unescaped_char) {
                        return Err(e);
                    }
                    *index += 1;
                    current_char_escaped = false;
                },
                None => {
                    return Err(JsonParseFailure::InvalidStringField);
                },
            }
        } else if current_char == 0x5c {
            current_char_escaped = true;
            *index += 1;
        } else if current_char == 0x22 {
            assert(scan_string_body(data@, *index as int, escaped.pending(), false, room0) == Scan::Done(escaped.pending(), *index + 1));
            *index += 1;
            let s = escaped.consume_string();
            return Ok(s);
        } else {
            if let Err(e) = escaped.write_part(current_char) {
                return Err(e);
            }
            *index += 1;
        }
    }
    Err(JsonParseFailure::Incomplete)
}

/// Parses the terminal value at `*index`, inside an object or array that
/// `close` ends, moving `*index` past it.
fn parse_value_at<'e>(index: &mut usize, data: &[u8], escaped: &mut StringBuffer<'e>, close: u8) -> (r: Result<
    JsonValue<'e>,
    JsonParseFailure,
>)
    requires
        *old(index) < data@.len(),
        old(escaped).wf(),
        old(escaped).pending().len() == 0,
    ensures
        final(escaped).wf(),
        match scan_value(data@, *old(index) as int, old(escaped).room(), close) {
            Scan::Done(v, e) => r matches Ok(x) && x@ == v && *final(index) == e
                && *old(index) < e <= data@.len()
                && final(escaped).room() == shrink(old(escaped).room(), escape_use(v))
                && final(escaped).pending().len() == 0,
            Scan::Fail(f) => r == Err::<JsonValue<'e>, _>(f),
        },
{
    let b = data[*index];
    if b == 0x22 {
        let s = unescape_json_string(index, data, escaped)?;
        Ok(JsonValue::String(s))
    } else if b == 0x6e {
        let lit: [u8; 4] = [0x6e, 0x75, 0x6c, 0x6c];
        assert(lit@ =~= lit_null());
        skip_literal(index, data, lit.as_slice(), JsonParseFailure::InvalidNullField)?;
        Ok(JsonValue::Null)
    } else if b == 0x74 {
        let lit: [u8; 4] = [0x74, 0x72, 0x75, 0x65];
        assert(lit@ =~= lit_true());
        skip_literal(index, data, lit.as_slice(), JsonParseFailure::InvalidBooleanField)?;
        Ok(JsonValue::Boolean(true))
    } else if b == 0x66 {
        let lit: [u8; 5] = [0x66, 0x61, 0x6c, 0x73, 0x65];
        assert(lit@ =~= lit_false());
        skip_literal(index, data, lit.as_slice(), JsonParseFailure::InvalidBooleanField)?;
        Ok(JsonValue::Boolean(false))
    } else if b == 0x2d || (b >= 0x30 && b <= 0x39) {
        let start = *index;
        let negative = b == 0x2d;
        *index += 1;
        skip_numeric(index, data, close)?;
        let end = *index;
        if negative && end == start + 1 {
            return Err(JsonParseFailure::InvalidNumericField);
        }
        proof {
            lemma_digits_end(data@, start + 1);
        }
        let digits_start = if negative { start + 1 } else { start };
        match parse_integer(data, digits_start, end, negative) {
            Some(n) => Ok(JsonValue::Number(n)),
            None => Err(JsonParseFailure::NumberParseError),
        }
    } else {
        Err(JsonParseFailure::InvalidStructure)
    }
}

impl<'a> JsonValue<'a> {
    /// Parses one terminal value from `data`, unescaping a string into
    /// `escape_buffer_slice`; returns the index just past the value and the
    /// value.
    pub fn parse(data: &'a [u8], escape_buffer_slice: &'a mut [u8]) -> (r: Result<
        (usize, Self),
        JsonParseFailure,
    >)
        ensures
            match parse_value_spec(data@, Some(old(escape_buffer_slice)@.len())) {
                Scan::Done(v, e) => r matches Ok((n, x)) && n == e && x@ == v,
                Scan::Fail(f) => r == Err::<(usize, Self), _>(f),
            },
    {
        let mut escape_buffer = StringBuffer::Finite(0, escape_buffer_slice);
        let mut current_data_index: usize = 0;
        skip_whitespace(&mut current_data_index, data)?;
        let value = parse_value_at(&mut current_data_index, data, &mut escape_buffer, 0x7d)?;
        Ok((current_data_index, value))
    }
}


/// Where parsed fields go: a fixed slice, or a `Vec` that grows when a
/// field lands past its end. The `usize` is the next slot to write.
pub enum ParseBuffer<'b, T> {
    /// A fixed slice.
    Finite(usize, &'b mut [T]),
    /// A growable vector.
    Infinite(usize, &'b mut Vec<T>),
}

/// `new` is `old` with the models of its slots from `p` on replaced by
/// `fs`, growing where they run past its end.
pub open spec fn placed<'x>(
    old: Seq<JsonField<'x, 'x>>,
    new: Seq<JsonField<'x, 'x>>,
    p: int,
    fs: Seq<FieldModel>,
) -> bool {
    &&& new.len() == if p + fs.len() > old.len() { p + fs.len() } else { old.len() as int }
    &&& forall|k: int| 0 <= k < p ==> new[k] == old[k]
    &&& forall|k: int| p <= k < p + fs.len() ==> #[trigger] new[k]@ == fs[k - p]
    &&& forall|k: int| p + fs.len() <= k < old.len() ==> new[k] == old[k]
}

/// `new` is `old` with the models of its slots from `p` on replaced by
/// `vs`, growing where they run past its end.
pub open spec fn placed_values<'x>(
    old: Seq<JsonValue<'x>>,
    new: Seq<JsonValue<'x>>,
    p: int,
    vs: Seq<ValueModel>,
) -> bool {
    &&& new.len() == if p + vs.len() > old.len() { p + vs.len() } else { old.len() as int }
    &&& forall|k: int| 0 <= k < p ==> new[k] == old[k]
    &&& forall|k: int| p <= k < p + vs.len() ==> #[trigger] new[k]@ == vs[k - p]
    &&& forall|k: int| p + vs.len() <= k < old.len() ==> new[k] == old[k]
}

impl<'b, T> ParseBuffer<'b, T> {
    pub open spec fn position(&self) -> int {
        match self {
            ParseBuffer::Finite(p, _) => *p as int,
            ParseBuffer::Infinite(p, _) => *p as int,
        }
    }

    /// The slots as they stand.
    pub open spec fn items(&self) -> Seq<T> {
        match self {
            ParseBuffer::Finite(_, s) => (**s)@,
            ParseBuffer::Infinite(_, v) => (**v)@,
        }
    }

    /// How many more things fit (`None`: no bound).
    pub open spec fn cap(&self) -> Option<nat> {
        match self {
            ParseBuffer::Finite(p, s) => Some((s@.len() - *p) as nat),
            ParseBuffer::Infinite(_, _) => None,
        }
    }

    pub open spec fn wf(&self) -> bool {
        0 <= self.position() <= self.items().len()
    }

    fn write_thing(&mut self, thing: T) -> (r: Result<(), JsonParseFailure>)
        requires
            old(self).wf(),
            *old(self) is Finite || old(self).position() < usize::MAX,
        ensures
            final(self).wf(),
            *old(self) is Finite ==> *final(self) is Finite,
            *old(self) is Finite ==> (*final((*final(self))->Finite_1))@ == (*final((*old(self))->Finite_1))@,
            *old(self) is Infinite ==> *final(self) is Infinite,
            *old(self) is Infinite ==> (*final((*final(self))->Infinite_1))@ == (*final((*old(self))->Infinite_1))@,
            old(self).cap() matches Some(c) && c == 0 ==> r == Err::<(), _>(
                JsonParseFailure::FieldBufferTooSmall,
            ) && final(self).items() == old(self).items() && final(self).position() == old(
                self,
            ).position(),
            !(old(self).cap() matches Some(c) && c == 0) ==> r is Ok && final(self).position()
                == old(self).position() + 1 && final(self).items() == if old(self).position()
                < old(self).items().len() {
                old(self).items().update(old(self).position(), thing)
            } else {
                old(self).items().push(thing)
            },
            final(self).cap() == shrink(old(self).cap(), if r is Ok { 1int } else { 0 }),
    {
        match self {
            ParseBuffer::Finite(position, slice) => {
                if *position == slice.len() {
                    Err(JsonParseFailure::FieldBufferTooSmall)
                } else {
                    slice[*position] = thing;
                    *position += 1;
                    Ok(())
                }
            },
            ParseBuffer::Infinite(position, vec) => {
                if *position < vec.len() {
                    vec.set(*position, thing);
                } else {
                    vec.push(thing);
                }
                *position += 1;
                Ok(())
            },
        }
    }

    /// The next slot to write, ending the borrow of the slots.
    fn consume(self) -> (r: usize)
        ensures
            r == self.position(),
            self is Finite ==> (*final(self->Finite_1))@ == (*self->Finite_1)@,
            self is Infinite ==> (*final(self->Infinite_1))@ == (*self->Infinite_1)@,
    {
        match self {
            ParseBuffer::Finite(n, _) => n,
            ParseBuffer::Infinite(n, _) => n,
        }
    }
}


/// Scans the fields of one object into `field_buffer`; returns the index
/// just past its closing brace.
fn parse_object_fields<'b, 'e>(
    data: &[u8],
    field_buffer: &mut ParseBuffer<'b, JsonField<'e, 'e>>,
    string_escape_buffer: &mut StringBuffer<'e>,
) -> (r: Result<usize, JsonParseFailure>)
    requires
        old(field_buffer).wf(),
        *old(field_buffer) is Infinite ==> old(field_buffer).position() + data@.len() < usize::MAX,
        old(string_escape_buffer).wf(),
        old(string_escape_buffer).pending().len() == 0,
    ensures
        final(string_escape_buffer).wf(),
        final(field_buffer).wf(),
        *old(field_buffer) is Finite ==> *final(field_buffer) is Finite,
        *old(field_buffer) is Finite ==> (*final((*final(field_buffer))->Finite_1))@ == (*final((*old(field_buffer))->Finite_1))@,
        *old(field_buffer) is Finite ==> final(field_buffer).items().len() == old(field_buffer).items().len(),
        *old(field_buffer) is Infinite ==> *final(field_buffer) is Infinite,
        *old(field_buffer) is Infinite ==> (*final((*final(field_buffer))->Infinite_1))@ == (*final((*old(field_buffer))->Infinite_1))@,
        final(field_buffer).items().len() >= old(field_buffer).items().len(),
        match parse_object_spec(data@, old(string_escape_buffer).room(), old(field_buffer).cap()) {
            Scan::Done(fs, e) => r matches Ok(end) && end == e && 0 < e <= data@.len()
                && final(field_buffer).position() == old(field_buffer).position() + fs.len()
                && placed(old(field_buffer).items(), final(field_buffer).items(), old(field_buffer).position(), fs),
            Scan::Fail(f) => r == Err::<usize, _>(f),
        },
{
    let ghost fb0 = *field_buffer;
    let ghost p0 = field_buffer.position();
    let ghost room0 = string_escape_buffer.room();
    let ghost cap0 = field_buffer.cap();
    let mut current_data_index: usize = 0;
    let mut map_entry_needs_comma = false;
    skip_whitespace(&mut current_data_index, data)?;
    if data[current_data_index] != 0x7b {
        return Err(JsonParseFailure::InvalidStructure);
    }
    current_data_index += 1;
    let ghost mut fs: Seq<FieldModel> = seq![];
    proof {
        assert(field_buffer.items().subrange(p0, p0) =~= Seq::<JsonField<'e, 'e>>::empty());
    }
    while current_data_index < data.len()
        invariant
            fb0 == *old(field_buffer),
            p0 == fb0.position(),
            room0 == old(string_escape_buffer).room(),
            cap0 == fb0.cap(),
            fb0.wf(),
            fb0 is Infinite ==> p0 + data@.len() < usize::MAX,
            1 <= current_data_index <= data@.len(),
            fs.len() < current_data_index,
            parse_object_spec(data@, room0, cap0) == object_loop(
                data@,
                current_data_index as int,
                map_entry_needs_comma,
                fs,
                string_escape_buffer.room(),
                cap0,
            ),
            string_escape_buffer.wf(),
            string_escape_buffer.pending().len() == 0,
            field_buffer.wf(),
            field_buffer.position() == p0 + fs.len(),
            field_buffer.cap() == shrink(cap0, fs.len() as int),
            cap0 matches Some(c) ==> fs.len() <= c,
            placed(fb0.items(), field_buffer.items(), p0, fs),
            fb0 is Finite ==> *field_buffer is Finite,
            fb0 is Finite ==> (*final(field_buffer->Finite_1))@ == (*final(fb0->Finite_1))@,
            fb0 is Infinite ==> *field_buffer is Infinite,
            fb0 is Infinite ==> (*final(field_buffer->Infinite_1))@ == (*final(fb0->Infinite_1))@,
        decreases data@.len() - current_data_index,
    {
        let ghost i = current_data_index as int;
        proof {
            lemma_skip_ws(data@, i);
        }
        skip_whitespace(&mut current_data_index, data)?;
        if data[current_data_index] == 0x7d {
            return Ok(current_data_index + 1);
        } else if map_entry_needs_comma {
            if data[current_data_index] != 0x2c {
                return Err(JsonParseFailure::InvalidStructure);
            }
            current_data_index += 1;
            map_entry_needs_comma = false;
        } else {
            map_entry_needs_comma = true;
            let string_key = unescape_json_string(
                &mut current_data_index,
                data,
                string_escape_buffer,
            )?;
            let ghost j2 = current_data_index as int;
            proof {
                lemma_skip_ws(data@, j2);
            }
            skip_whitespace(&mut current_data_index, data)?;
            if data[current_data_index] != 0x3a {
                return Err(JsonParseFailure::InvalidStructure);
            }
            current_data_index += 1;
            let ghost j3 = current_data_index as int;
            proof {
                lemma_skip_ws(data@, j3);
            }
            skip_whitespace(&mut current_data_index, data)?;
            let value = parse_value_at(&mut current_data_index, data, string_escape_buffer, 0x7d)?;
            let field = JsonField::new(string_key, value);
            let ghost before = field_buffer.items();
            field_buffer.write_thing(field)?;
            proof {
                let nf = FieldModel { key: string_key.spec_bytes(), value: value@ };
                let fs2 = fs.push(nf);
                assert(field@ == nf);
                assert forall|k: int| p0 <= k < p0 + fs2.len() implies #[trigger] field_buffer.items()[k]@ == fs2[k - p0] by {
                    if k < p0 + fs.len() {
                        assert(field_buffer.items()[k] == before[k]);
                    }
                }
                fs = fs2;
            }
        }
    }
    Err(JsonParseFailure::Incomplete)
}

/// Parses one object from `data`: its fields go to `field_buffer` from its
/// position on, its strings to `string_escape_buffer`. Returns the number of
/// bytes consumed and the position after the last field.
pub fn parse_json_object<'b, 'e>(
    data: &[u8],
    field_buffer: ParseBuffer<'b, JsonField<'e, 'e>>,
    string_escape_buffer: &mut StringBuffer<'e>,
) -> (r: Result<(usize, usize), JsonParseFailure>)
    requires
        field_buffer.wf(),
        field_buffer is Infinite ==> field_buffer.position() + data@.len() < usize::MAX,
        old(string_escape_buffer).wf(),
        old(string_escape_buffer).pending().len() == 0,
    ensures
        final(string_escape_buffer).wf(),
        field_buffer is Finite ==> (*final(field_buffer->Finite_1))@.len() == (*field_buffer->Finite_1)@.len(),
        field_buffer is Infinite ==> (*final(field_buffer->Infinite_1))@.len() >= (*field_buffer->Infinite_1)@.len(),
        match parse_object_spec(data@, old(string_escape_buffer).room(), field_buffer.cap()) {
            Scan::Done(fs, e) => r matches Ok((n, count)) && n == e && 0 < e <= data@.len() && count == field_buffer.position() + fs.len()
                && (field_buffer is Finite ==> placed((*field_buffer->Finite_1)@, (*final(field_buffer->Finite_1))@, field_buffer.position(), fs))
                && (field_buffer is Infinite ==> placed((*field_buffer->Infinite_1)@, (*final(field_buffer->Infinite_1))@, field_buffer.position(), fs)),
            Scan::Fail(f) => r == Err::<(usize, usize), _>(f),
        },
{
    let mut field_buffer = field_buffer;
    let r = parse_object_fields(data, &mut field_buffer, string_escape_buffer);
    let n = field_buffer.consume();
    match r {
        Ok(end) => Ok((end, n)),
        Err(e) => Err(e),
    }
}


/// Scans the values of one array into `value_buffer`; returns the index
/// just past its closing bracket.
#[verifier::rlimit(60)]
fn parse_array_values<'b, 'e>(
    data: &[u8],
    value_buffer: &mut ParseBuffer<'b, JsonValue<'e>>,
    string_escape_buffer: &mut StringBuffer<'e>,
) -> (r: Result<usize, JsonParseFailure>)
    requires
        old(value_buffer).wf(),
        *old(value_buffer) is Infinite ==> old(value_buffer).position() + data@.len() < usize::MAX,
        old(string_escape_buffer).wf(),
        old(string_escape_buffer).pending().len() == 0,
    ensures
        final(string_escape_buffer).wf(),
        final(value_buffer).wf(),
        *old(value_buffer) is Finite ==> *final(value_buffer) is Finite,
        *old(value_buffer) is Finite ==> (*final((*final(value_buffer))->Finite_1))@ == (*final((*old(value_buffer))->Finite_1))@,
        *old(value_buffer) is Finite ==> final(value_buffer).items().len() == old(value_buffer).items().len(),
        *old(value_buffer) is Infinite ==> *final(value_buffer) is Infinite,
        *old(value_buffer) is Infinite ==> (*final((*final(value_buffer))->Infinite_1))@ == (*final((*old(value_buffer))->Infinite_1))@,
        final(value_buffer).items().len() >= old(value_buffer).items().len(),
        match parse_array_spec(data@, old(string_escape_buffer).room(), old(value_buffer).cap()) {
            Scan::Done(vs, e) => r matches Ok(end) && end == e && 0 < e <= data@.len()
                && final(value_buffer).position() == old(value_buffer).position() + vs.len()
                && placed_values(old(value_buffer).items(), final(value_buffer).items(), old(value_buffer).position(), vs),
            Scan::Fail(f) => r == Err::<usize, _>(f),
        },
{
    let ghost fb0 = *value_buffer;
    let ghost p0 = value_buffer.position();
    let ghost room0 = string_escape_buffer.room();
    let ghost cap0 = value_buffer.cap();
    let mut current_data_index: usize = 0;
    let mut needs_comma = false;
    skip_whitespace(&mut current_data_index, data)?;
    if data[current_data_index] != 0x5b {
        return Err(JsonParseFailure::InvalidStructure);
    }
    current_data_index += 1;
    let ghost mut vs: Seq<ValueModel> = seq![];
    while current_data_index < data.len()
        invariant
            fb0 == *old(value_buffer),
            p0 == fb0.position(),
            room0 == old(string_escape_buffer).room(),
            cap0 == fb0.cap(),
            fb0.wf(),
            fb0 is Infinite ==> p0 + data@.len() < usize::MAX,
            1 <= current_data_index <= data@.len(),
            vs.len() < current_data_index,
            parse_array_spec(data@, room0, cap0) == array_loop(
                data@,
                current_data_index as int,
                needs_comma,
                vs,
                string_escape_buffer.room(),
                cap0,
            ),
            string_escape_buffer.wf(),
            string_escape_buffer.pending().len() == 0,
            value_buffer.wf(),
            value_buffer.position() == p0 + vs.len(),
            value_buffer.cap() == shrink(cap0, vs.len() as int),
            cap0 matches Some(c) ==> vs.len() <= c,
            placed_values(fb0.items(), value_buffer.items(), p0, vs),
            fb0 is Finite ==> *value_buffer is Finite,
            fb0 is Finite ==> (*final(value_buffer->Finite_1))@ == (*final(fb0->Finite_1))@,
            fb0 is Infinite ==> *value_buffer is Infinite,
            fb0 is Infinite ==> (*final(value_buffer->Infinite_1))@ == (*final(fb0->Infinite_1))@,
        decreases data@.len() - current_data_index,
    {
        let ghost i = current_data_index as int;
        proof {
            lemma_skip_ws(data@, i);
        }
        skip_whitespace(&mut current_data_index, data)?;
        if data[current_data_index] == 0x5d {
            return Ok(current_data_index + 1);
        } else if needs_comma {
            if data[current_data_index] != 0x2c {
                return Err(JsonParseFailure::InvalidStructure);
            }
            current_data_index += 1;
            needs_comma = false;
        } else {
            needs_comma = true;
            let value = parse_value_at(&mut current_data_index, data, string_escape_buffer, 0x5d)?;
            let ghost before = value_buffer.items();
            value_buffer.write_thing(value)?;
            proof {
                let vs2 = vs.push(value@);
                assert forall|k: int| p0 <= k < p0 + vs2.len() implies #[trigger] value_buffer.items()[k]@ == vs2[k - p0] by {
                    if k < p0 + vs.len() {
                        assert(value_buffer.items()[k] == before[k]);
                    }
                }
                vs = vs2;
            }
        }
    }
    Err(JsonParseFailure::Incomplete)
}

/// Parses one array from `data`: its values go to `value_buffer` from its
/// position on, its strings to `string_escape_buffer`. Returns the number of
/// bytes consumed and the position after the last value.
pub fn parse_json_array<'b, 'e>(
    data: &[u8],
    value_buffer: ParseBuffer<'b, JsonValue<'e>>,
    string_escape_buffer: &mut StringBuffer<'e>,
) -> (r: Result<(usize, usize), JsonParseFailure>)
    requires
        value_buffer.wf(),
        value_buffer is Infinite ==> value_buffer.position() + data@.len() < usize::MAX,
        old(string_escape_buffer).wf(),
        old(string_escape_buffer).pending().len() == 0,
    ensures
        final(string_escape_buffer).wf(),
        value_buffer is Finite ==> (*final(value_buffer->Finite_1))@.len() == (*value_buffer->Finite_1)@.len(),
        value_buffer is Infinite ==> (*final(value_buffer->Infinite_1))@.len() >= (*value_buffer->Infinite_1)@.len(),
        match parse_array_spec(data@, old(string_escape_buffer).room(), value_buffer.cap()) {
            Scan::Done(vs, e) => r matches Ok((n, count)) && n == e && 0 < e <= data@.len() && count == value_buffer.position() + vs.len()
                && (value_buffer is Finite ==> placed_values((*value_buffer->Finite_1)@, (*final(value_buffer->Finite_1))@, value_buffer.position(), vs))
                && (value_buffer is Infinite ==> placed_values((*value_buffer->Infinite_1)@, (*final(value_buffer->Infinite_1))@, value_buffer.position(), vs)),
            Scan::Fail(f) => r == Err::<(usize, usize), _>(f),
        },
{
    let mut value_buffer = value_buffer;
    let r = parse_array_values(data, &mut value_buffer, string_escape_buffer);
    let n = value_buffer.consume();
    match r {
        Ok(end) => Ok((end, n)),
        Err(e) => Err(e),
    }
}
} // verus!
