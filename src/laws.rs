//! Properties that relate the parser and the serializer.
use vstd::prelude::*;
use vstd::arithmetic::div_mod::lemma_fundamental_div_mod;
use crate::codec::{
    digits_of, digits_value, escape_letter, fits_i64, is_digit, is_ws,
    lemma_escape_table_inverse, unescape_letter,
};
use crate::parse::{
    digits_end, ends_number, is_ascii_bytes, lemma_digits_end, lemma_skip_ws, lit_false, lit_null, lit_true,
    array_loop, object_loop, parse_array_spec, parse_object_spec, room_full, scan_literal, scan_number, scan_string,
    scan_string_body, scan_value, shrink, skip_ws, escape_use, Scan,
};
use crate::serialize::{
    array_text, escaped_piece, escaped_upto, field_text, fields_upto, lemma_escaped_upto_prefix,
    lemma_fields_upto_prefix, lemma_sits_prefix, lemma_sits_split, lemma_values_upto_prefix,
    object_text, separator, sits, string_text, tail_from, value_text, values_upto,
};
use crate::value::{FieldModel, JsonParseFailure, ValueModel};

verus! {

/// A value the serializer renders faithfully: a string of ASCII bytes, or
/// a number that fits in an `i64`.
pub open spec fn valid_value(v: ValueModel) -> bool {
    match v {
        ValueModel::Str(s) => is_ascii_bytes(s),
        ValueModel::Number(n) => fits_i64(n),
        _ => true,
    }
}

/// Every key is ASCII and every value is valid.
pub open spec fn valid_fields(fs: Seq<FieldModel>) -> bool {
    forall|i: int| 0 <= i < fs.len() ==> is_ascii_bytes(#[trigger] fs[i].key) && valid_value(fs[i].value)
}

/// The unescaped string bytes of the first `i` fields.
pub open spec fn string_bytes_upto(fs: Seq<FieldModel>, i: int) -> int
    decreases i,
{
    if i <= 0 {
        0
    } else {
        string_bytes_upto(fs, i - 1) + fs[i - 1].key.len() + escape_use(fs[i - 1].value)
    }
}

/// A bound of `room` bytes (`None`: no bound) admits `n` bytes.
pub open spec fn room_fits(room: Option<nat>, n: int) -> bool {
    room matches Some(r) ==> n <= r
}

proof fn lemma_sits_index(whole: Seq<u8>, c: int, x: Seq<u8>, k: int)
    requires
        sits(whole, c, x),
        0 <= k < x.len(),
    ensures
        whole[c + k] == x[k],
{
    assert(whole.subrange(c, c + x.len())[k] == whole[c + k]);
}

proof fn lemma_string_bytes_mono(fs: Seq<FieldModel>, i: int, j: int)
    requires
        0 <= i <= j,
    ensures
        0 <= string_bytes_upto(fs, i) <= string_bytes_upto(fs, j),
    decreases j,
{
    if i < j {
        lemma_string_bytes_mono(fs, i, j - 1);
    } else if i > 0 {
        lemma_string_bytes_mono(fs, 0, i - 1);
    }
}

/// Scanning the escaped body of an ASCII string gives the string back.
proof fn lemma_scan_escaped(data: Seq<u8>, s: Seq<u8>, i: int, j: int, room: Option<nat>)
    requires
        is_ascii_bytes(s),
        0 <= j <= s.len(),
        sits(data, i, string_text(s)),
        room_fits(room, s.len() as int),
    ensures
        scan_string_body(data, i + 1 + escaped_upto(s, j).len(), s.subrange(0, j), false, room)
            == Scan::Done(s, i + string_text(s).len()),
    decreases s.len() - j,
{
    let body = escaped_upto(s, s.len() as int);
    let st = string_text(s);
    lemma_sits_split(data, i, seq![0x22u8] + body, seq![0x22u8]);
    lemma_sits_split(data, i, seq![0x22u8], body);
    let p = i + 1 + escaped_upto(s, j).len();
    if j == s.len() {
        lemma_sits_index(data, i + 1 + body.len(), seq![0x22u8], 0);
        assert(s.subrange(0, j) =~= s);
    } else {
        lemma_escaped_upto_prefix(s, j + 1, s.len() as int);
        lemma_sits_prefix(data, i + 1, escaped_upto(s, j + 1), body);
        lemma_sits_split(data, i + 1, escaped_upto(s, j), escaped_piece(s[j]));
        let b = s[j];
        assert(b < 0x80);
        lemma_escape_table_inverse(b);
        assert(s.subrange(0, j).push(b) =~= s.subrange(0, j + 1));
        match escape_letter(b) {
            Some(l) => {
                lemma_sits_index(data, p, escaped_piece(b), 0);
                lemma_sits_index(data, p, escaped_piece(b), 1);
                assert(!room_full(room, j));
                lemma_scan_escaped(data, s, i, j + 1, room);
                assert(scan_string_body(data, p + 1, s.subrange(0, j), true, room)
                    == scan_string_body(data, p + 2, s.subrange(0, j + 1), false, room));
            },
            None => {
                lemma_sits_index(data, p, escaped_piece(b), 0);
                assert(!room_full(room, j));
                lemma_scan_escaped(data, s, i, j + 1, room);
            },
        }
    }
}

/// Scanning a quoted ASCII string's text gives the string back.
pub proof fn lemma_scan_string_text(data: Seq<u8>, s: Seq<u8>, i: int, room: Option<nat>)
    requires
        is_ascii_bytes(s),
        sits(data, i, string_text(s)),
        room_fits(room, s.len() as int),
    ensures
        scan_string(data, i, room) == Scan::Done(s, i + string_text(s).len()),
{
    lemma_sits_index(data, i, string_text(s), 0);
    lemma_scan_escaped(data, s, i, 0, room);
    assert(s.subrange(0, 0) =~= Seq::<u8>::empty());
}


proof fn lemma_digits_of(n: nat)
    ensures
        digits_of(n).len() >= 1,
        forall|k: int| 0 <= k < digits_of(n).len() ==> is_digit(#[trigger] digits_of(n)[k]),
        digits_value(digits_of(n)) == n,
    decreases n,
{
    if n >= 10 {
        lemma_digits_of(n / 10);
        lemma_fundamental_div_mod(n as int, 10);
        let d = digits_of(n);
        assert(d.drop_last() =~= digits_of(n / 10));
        assert(d.last() == (0x30 + n % 10) as u8);
        assert(d.last() - 0x30 == n % 10);
        assert(digits_value(d) == digits_value(digits_of(n / 10)) * 10 + (d.last() - 0x30));
        assert((n / 10) as int * 10 == 10 * (n / 10) as int) by (nonlinear_arith);
    } else {
        let d = digits_of(n);
        assert(d.drop_last() =~= Seq::<u8>::empty());
        assert(d.last() - 0x30 == n);
        assert(digits_value(d) == digits_value(d.drop_last()) * 10 + (d.last() - 0x30));
    }
}

proof fn lemma_digits_end_run(data: Seq<u8>, j: int, e: int)
    requires
        0 <= j <= e < data.len(),
        forall|k: int| j <= k < e ==> is_digit(#[trigger] data[k]),
        !is_digit(data[e]),
    ensures
        digits_end(data, j) == e,
    decreases e - j,
{
    if j < e {
        lemma_digits_end_run(data, j + 1, e);
    }
}

proof fn lemma_scan_literal_text(data: Seq<u8>, i: int, lit: Seq<u8>, err: JsonParseFailure, k: int)
    requires
        sits(data, i, lit),
        0 <= k <= lit.len(),
    ensures
        scan_literal(data, i, lit, err, k) == Scan::<()>::Done((), i + lit.len()),
    decreases lit.len() - k,
{
    if k < lit.len() {
        lemma_sits_index(data, i, lit, k);
        lemma_scan_literal_text(data, i, lit, err, k + 1);
    }
}

/// The first byte of a value's text, which is no whitespace, brace or
/// comma.
proof fn lemma_value_text_first(v: ValueModel)
    requires
        valid_value(v),
    ensures
        value_text(v).len() >= 1,
        !is_ws(value_text(v)[0]),
        value_text(v)[0] != 0x7d,
        value_text(v)[0] != 0x5d,
        value_text(v)[0] != 0x2c,
{
    match v {
        ValueModel::Number(n) => {
            if n >= 0 {
                lemma_digits_of(n as nat);
                assert(is_digit(digits_of(n as nat)[0]));
            }
        },
        _ => {},
    }
}

/// Scanning a value's text gives the value back, where a byte that can end
/// a number follows it.
pub proof fn lemma_scan_value_text(data: Seq<u8>, v: ValueModel, i: int, room: Option<nat>, close: u8)
    requires
        valid_value(v),
        sits(data, i, value_text(v)),
        i + value_text(v).len() < data.len(),
        ends_number(data[i + value_text(v).len()], close),
        close == 0x7d || close == 0x5d,
        room_fits(room, escape_use(v)),
    ensures
        scan_value(data, i, room, close) == Scan::Done(v, i + value_text(v).len()),
{
    let t = value_text(v);
    lemma_value_text_first(v);
    lemma_sits_index(data, i, t, 0);
    match v {
        ValueModel::Str(s) => {
            lemma_scan_string_text(data, s, i, room);
        },
        ValueModel::Null => {
            lemma_scan_literal_text(data, i, lit_null(), JsonParseFailure::InvalidNullField, 0);
        },
        ValueModel::Boolean(b) => {
            if b {
                lemma_scan_literal_text(data, i, lit_true(), JsonParseFailure::InvalidBooleanField, 0);
            } else {
                lemma_scan_literal_text(data, i, lit_false(), JsonParseFailure::InvalidBooleanField, 0);
            }
        },
        ValueModel::Number(n) => {
            let e = i + t.len();
            assert(!is_digit(data[e]));
            if n < 0 {
                let ds = digits_of((-n) as nat);
                lemma_digits_of((-n) as nat);
                lemma_sits_split(data, i, seq![0x2du8], ds);
                assert forall|k: int| i + 1 <= k < e implies is_digit(#[trigger] data[k]) by {
                    lemma_sits_index(data, i + 1, ds, k - i - 1);
                }
                lemma_digits_end_run(data, i + 1, e);
                assert(data.subrange(i + 1, e) == ds);
                assert(scan_number(data, i, close) == Scan::Done(n, e));
            } else {
                let ds = digits_of(n as nat);
                lemma_digits_of(n as nat);
                assert forall|k: int| i <= k < e implies is_digit(#[trigger] data[k]) by {
                    lemma_sits_index(data, i, ds, k - i);
                }
                lemma_digits_end_run(data, i + 1, e);
                assert(data.subrange(i, e) == ds);
                assert(scan_number(data, i, close) == Scan::Done(n, e));
            }
        },
    }
}


proof fn lemma_shrink_twice(room: Option<nat>, a: int, b: int)
    requires
        0 <= a,
        0 <= b,
        room_fits(room, a + b),
    ensures
        shrink(shrink(room, a), b) == shrink(room, a + b),
        room_fits(shrink(room, a), b),
{
}

/// Where the `k`-th field's pieces stand in an object's text.
#[verifier::rlimit(80)]
proof fn lemma_field_layout(fs: Seq<FieldModel>, k: int)
    requires
        valid_fields(fs),
        0 <= k < fs.len(),
    ensures
        ({
            let text = object_text(fs);
            let f = fs[k];
            let p = 1 + fields_upto(fs, k).len() as int;
            let key_at = p + separator(k).len() as int;
            let colon_at = key_at + string_text(f.key).len() as int;
            let value_at = colon_at + 1;
            let next = value_at + value_text(f.value).len() as int;
            &&& k > 0 ==> text[p] == 0x2c
            &&& sits(text, key_at, string_text(f.key))
            &&& text[key_at] == 0x22
            &&& text[colon_at] == 0x3a
            &&& sits(text, value_at, value_text(f.value))
            &&& !is_ws(text[value_at])
            &&& next == 1 + fields_upto(fs, k + 1).len()
            &&& next < text.len()
            &&& ends_number(text[next], 0x7d)
        }),
{
    let n = fs.len() as int;
    let text = object_text(fs);
    let all = fields_upto(fs, n);
    let f = fs[k];
    let sep = separator(k);
    let p: int = 1 + fields_upto(fs, k).len() as int;
    let key_at: int = p + sep.len() as int;
    let colon_at: int = key_at + string_text(f.key).len() as int;
    let value_at: int = colon_at + 1;
    let next: int = value_at + value_text(f.value).len() as int;
    assert(text.subrange(0, text.len() as int) =~= text);
    lemma_sits_split(text, 0, seq![0x7bu8] + all, seq![0x7du8]);
    lemma_sits_split(text, 0, seq![0x7bu8], all);
    lemma_fields_upto_prefix(fs, k + 1, n);
    lemma_sits_prefix(text, 1, fields_upto(fs, k + 1), all);
    lemma_sits_split(text, 1, fields_upto(fs, k) + sep, field_text(f));
    lemma_sits_split(text, 1, fields_upto(fs, k), sep);
    lemma_sits_split(text, key_at, string_text(f.key) + seq![0x3au8], value_text(f.value));
    lemma_sits_split(text, key_at, string_text(f.key), seq![0x3au8]);
    if k > 0 {
        lemma_sits_index(text, p, sep, 0);
    }
    lemma_sits_index(text, key_at, string_text(f.key), 0);
    lemma_sits_index(text, colon_at, seq![0x3au8], 0);
    lemma_value_text_first(f.value);
    lemma_sits_index(text, value_at, value_text(f.value), 0);
    if k + 1 < n {
        lemma_fields_upto_prefix(fs, k + 2, n);
        lemma_sits_prefix(text, 1, fields_upto(fs, k + 2), all);
        lemma_sits_split(text, 1, fields_upto(fs, k + 1) + separator(k + 1), field_text(fs[k + 1]));
        lemma_sits_split(text, 1, fields_upto(fs, k + 1), separator(k + 1));
        lemma_sits_index(text, next, separator(k + 1), 0);
    } else {
        lemma_sits_index(text, 1 + all.len() as int, seq![0x7du8], 0);
    }
}

/// One field of the object scan over an object's text.
#[verifier::rlimit(40)]
proof fn lemma_field_step(fs: Seq<FieldModel>, k: int, room_k: Option<nat>, cap: Option<nat>)
    requires
        valid_fields(fs),
        0 <= k < fs.len(),
        room_fits(room_k, fs[k].key.len() + escape_use(fs[k].value)),
        cap matches Some(c) ==> k <= c,
    ensures
        ({
            let text = object_text(fs);
            let f = fs[k];
            let p = 1 + fields_upto(fs, k).len() as int;
            let next = 1 + fields_upto(fs, k + 1).len() as int;
            let r = object_loop(text, p, k > 0, fs.subrange(0, k), room_k, cap);
            &&& cap == Some(k as nat) ==> r == Scan::<Seq<FieldModel>>::Fail(
                JsonParseFailure::FieldBufferTooSmall,
            )
            &&& cap != Some(k as nat) ==> r == object_loop(
                text,
                next,
                true,
                fs.subrange(0, k + 1),
                shrink(room_k, f.key.len() + escape_use(f.value)),
                cap,
            )
        }),
{
    let text = object_text(fs);
    let f = fs[k];
    let p: int = 1 + fields_upto(fs, k).len() as int;
    let key_at: int = p + separator(k).len() as int;
    lemma_field_layout(fs, k);
    lemma_shrink_twice(room_k, f.key.len() as int, escape_use(f.value));
    lemma_scan_string_text(text, f.key, key_at, room_k);
    let colon_at: int = key_at + string_text(f.key).len() as int;
    lemma_scan_value_text(text, f.value, colon_at + 1, shrink(room_k, f.key.len() as int), 0x7d);
    assert(fs.subrange(0, k).push(FieldModel { key: f.key, value: f.value }) =~= fs.subrange(0, k + 1));
    if k > 0 {
        assert(object_loop(text, p, true, fs.subrange(0, k), room_k, cap) == object_loop(
            text,
            key_at,
            false,
            fs.subrange(0, k),
            room_k,
            cap,
        ));
    }
}

/// The object scan over an object's text, from the start of its `k`-th
/// field on: all fields come back, unless `cap` is below their number;
/// then the field past `cap` overflows the buffer.
#[verifier::rlimit(40)]
proof fn lemma_object_loop_text(
    fs: Seq<FieldModel>,
    k: int,
    room: Option<nat>,
    cap: Option<nat>,
)
    requires
        valid_fields(fs),
        0 <= k <= fs.len(),
        room_fits(room, string_bytes_upto(fs, fs.len() as int)),
        cap matches Some(c) ==> k <= c,
    ensures
        ({
            let text = object_text(fs);
            let r = object_loop(
                text,
                1 + fields_upto(fs, k).len() as int,
                k > 0,
                fs.subrange(0, k),
                shrink(room, string_bytes_upto(fs, k)),
                cap,
            );
            &&& (cap matches Some(c) && c < fs.len()) ==> r == Scan::<Seq<FieldModel>>::Fail(
                JsonParseFailure::FieldBufferTooSmall,
            )
            &&& !(cap matches Some(c) && c < fs.len()) ==> r == Scan::Done(fs, text.len() as int)
        }),
    decreases fs.len() - k,
{
    let n = fs.len() as int;
    let text = object_text(fs);
    let all = fields_upto(fs, n);
    lemma_string_bytes_mono(fs, k, n);
    if k == n {
        assert(text.subrange(0, text.len() as int) =~= text);
        lemma_sits_split(text, 0, seq![0x7bu8] + all, seq![0x7du8]);
        lemma_sits_index(text, 1 + all.len() as int, seq![0x7du8], 0);
        assert(fs.subrange(0, k) =~= fs);
    } else {
        let f = fs[k];
        lemma_string_bytes_mono(fs, k + 1, n);
        lemma_shrink_twice(room, string_bytes_upto(fs, k), f.key.len() + escape_use(f.value));
        lemma_field_step(fs, k, shrink(room, string_bytes_upto(fs, k)), cap);
        if cap != Some(k as nat) {
            lemma_object_loop_text(fs, k + 1, room, cap);
        }
    }
}

/// Round trip: parsing the text of fields with ASCII strings gives the same
/// fields back, in order, and consumes the whole text, given escape room for
/// their strings and room for the fields.
pub proof fn law_round_trip(fs: Seq<FieldModel>, room: Option<nat>, cap: Option<nat>)
    requires
        valid_fields(fs),
        room_fits(room, string_bytes_upto(fs, fs.len() as int)),
        cap matches Some(c) ==> fs.len() <= c,
    ensures
        parse_object_spec(object_text(fs), room, cap) == Scan::Done(fs, object_text(fs).len() as int),
{
    lemma_object_loop_text(fs, 0, room, cap);
    assert(fs.subrange(0, 0) =~= Seq::<FieldModel>::empty());
    assert(object_text(fs)[0] == 0x7b);
}

/// Capacity boundary: the text of `n + 1` fields overflows a field buffer
/// of `n` slots, and the text of `n` fields fits one.
pub proof fn law_capacity_boundary(fs: Seq<FieldModel>, room: Option<nat>)
    requires
        valid_fields(fs),
        fs.len() >= 1,
        room_fits(room, string_bytes_upto(fs, fs.len() as int)),
    ensures
        parse_object_spec(object_text(fs), room, Some((fs.len() - 1) as nat))
            == Scan::<Seq<FieldModel>>::Fail(JsonParseFailure::FieldBufferTooSmall),
        parse_object_spec(object_text(fs), room, Some(fs.len())) is Done,
{
    lemma_object_loop_text(fs, 0, room, Some((fs.len() - 1) as nat));
    lemma_object_loop_text(fs, 0, room, Some(fs.len()));
    assert(fs.subrange(0, 0) =~= Seq::<FieldModel>::empty());
    assert(object_text(fs)[0] == 0x7b);
}

/// Resumability: resuming at any offset up to the text's length yields
/// exactly the text from that offset on, and resuming at 0 the whole text.
pub proof fn law_resume_suffix(text: Seq<u8>, k: int)
    requires
        0 <= k <= text.len(),
    ensures
        tail_from(text, k) == text.subrange(k, text.len() as int),
        tail_from(text, 0) == text,
        tail_from(text, k).len() == text.len() - k,
{
    assert(text.subrange(0, text.len() as int) =~= text);
    assert(text.subrange(text.len() as int, text.len() as int) =~= Seq::<u8>::empty());
}


/// A scan of a prefix of some data either asks for more bytes or agrees
/// with the scan of the whole.
pub open spec fn agrees<T>(part: Scan<T>, whole: Scan<T>) -> bool {
    part == Scan::<T>::Fail(JsonParseFailure::Incomplete) || part == whole
}

/// A scan that, when it succeeds, ends past `lo` and within the first `k`
/// bytes.
pub open spec fn ends_within<T>(r: Scan<T>, lo: int, k: int) -> bool {
    r matches Scan::Done(_, e) ==> lo < e <= k
}

proof fn lemma_skip_ws_prefix(data: Seq<u8>, k: int, i: int)
    requires
        0 <= i <= k <= data.len(),
    ensures
        skip_ws(data.subrange(0, k), i) <= k,
        skip_ws(data.subrange(0, k), i) < k ==> skip_ws(data.subrange(0, k), i) == skip_ws(data, i),
        skip_ws(data.subrange(0, k), i) >= k ==> skip_ws(data, i) >= k,
    decreases k - i,
{
    if i < k {
        assert(data.subrange(0, k)[i] == data[i]);
        if is_ws(data[i]) {
            lemma_skip_ws_prefix(data, k, i + 1);
        }
    } else {
        lemma_skip_ws(data, i);
    }
}

proof fn lemma_digits_end_prefix(data: Seq<u8>, k: int, j: int)
    requires
        0 <= j <= k <= data.len(),
    ensures
        digits_end(data.subrange(0, k), j) <= k,
        digits_end(data.subrange(0, k), j) < k ==> digits_end(data.subrange(0, k), j) == digits_end(data, j),
    decreases k - j,
{
    if j < k {
        assert(data.subrange(0, k)[j] == data[j]);
        if is_digit(data[j]) {
            lemma_digits_end_prefix(data, k, j + 1);
        }
    }
}

proof fn lemma_string_body_prefix(
    data: Seq<u8>,
    k: int,
    j: int,
    acc: Seq<u8>,
    escaped: bool,
    room: Option<nat>,
)
    requires
        0 <= j,
        0 <= k <= data.len(),
    ensures
        agrees(
            scan_string_body(data.subrange(0, k), j, acc, escaped, room),
            scan_string_body(data, j, acc, escaped, room),
        ),
        ends_within(scan_string_body(data.subrange(0, k), j, acc, escaped, room), j, k),
    decreases data.len() - j,
{
    let part = data.subrange(0, k);
    if j < k {
        assert(part[j] == data[j]);
        let b = data[j];
        if b < 0x80 {
            if escaped {
                if unescape_letter(b) is Some && !room_full(room, acc.len() as int) {
                    lemma_string_body_prefix(data, k, j + 1, acc.push(unescape_letter(b)->0), false, room);
                }
            } else if b == 0x5c {
                lemma_string_body_prefix(data, k, j + 1, acc, true, room);
            } else if b != 0x22 && !room_full(room, acc.len() as int) {
                lemma_string_body_prefix(data, k, j + 1, acc.push(b), false, room);
            }
        }
    }
}

proof fn lemma_scan_string_prefix(data: Seq<u8>, k: int, i: int, room: Option<nat>)
    requires
        0 <= i < k <= data.len(),
    ensures
        agrees(scan_string(data.subrange(0, k), i, room), scan_string(data, i, room)),
        ends_within(scan_string(data.subrange(0, k), i, room), i, k),
{
    assert(data.subrange(0, k)[i] == data[i]);
    lemma_string_body_prefix(data, k, i + 1, seq![], false, room);
}

proof fn lemma_literal_prefix(data: Seq<u8>, k: int, i: int, lit: Seq<u8>, err: JsonParseFailure, m: int)
    requires
        0 <= i,
        0 <= m,
        0 <= k <= data.len(),
    ensures
        agrees(scan_literal(data.subrange(0, k), i, lit, err, m), scan_literal(data, i, lit, err, m)),
        scan_literal(data.subrange(0, k), i, lit, err, m) matches Scan::Done(_, e) ==> e == i + lit.len() && (e <= k || m >= lit.len()),
    decreases lit.len() - m,
{
    if m < lit.len() && i + m < k {
        assert(data.subrange(0, k)[i + m] == data[i + m]);
        lemma_literal_prefix(data, k, i, lit, err, m + 1);
    }
}

proof fn lemma_value_prefix(data: Seq<u8>, k: int, i: int, room: Option<nat>, close: u8)
    requires
        0 <= i,
        0 <= k <= data.len(),
    ensures
        agrees(scan_value(data.subrange(0, k), i, room, close), scan_value(data, i, room, close)),
        ends_within(scan_value(data.subrange(0, k), i, room, close), i, k),
{
    let part = data.subrange(0, k);
    if i < k {
        assert(part[i] == data[i]);
        let b = data[i];
        if b == 0x22 {
            lemma_scan_string_prefix(data, k, i, room);
        } else if b == 0x6e {
            lemma_literal_prefix(data, k, i, lit_null(), JsonParseFailure::InvalidNullField, 0);
        } else if b == 0x74 || b == 0x66 {
            let lit = if b == 0x74 { lit_true() } else { lit_false() };
            lemma_literal_prefix(data, k, i, lit, JsonParseFailure::InvalidBooleanField, 0);
        } else if b == 0x2d || is_digit(b) {
            lemma_digits_end_prefix(data, k, i + 1);
            lemma_digits_end(part, i + 1);
            let e = digits_end(part, i + 1);
            if e < k {
                assert(part[e] == data[e]);
                assert(part.subrange(i + 1, e) =~= data.subrange(i + 1, e));
                assert(part.subrange(i, e) =~= data.subrange(i, e));
            }
        }
    }
}

#[verifier::rlimit(40)]
proof fn lemma_object_loop_prefix(
    data: Seq<u8>,
    k: int,
    i: int,
    needs_comma: bool,
    fields: Seq<FieldModel>,
    room: Option<nat>,
    cap: Option<nat>,
)
    requires
        0 <= i,
        0 <= k <= data.len(),
    ensures
        agrees(
            object_loop(data.subrange(0, k), i, needs_comma, fields, room, cap),
            object_loop(data, i, needs_comma, fields, room, cap),
        ),
    decreases data.len() - i,
{
    let part = data.subrange(0, k);
    if i < k {
        lemma_skip_ws_prefix(data, k, i);
        lemma_skip_ws(data, i);
        lemma_skip_ws(part, i);
        let j = skip_ws(part, i);
        if j < k {
            assert(part[j] == data[j]);
            if data[j] != 0x7d {
                if needs_comma {
                    if data[j] == 0x2c {
                        lemma_object_loop_prefix(data, k, j + 1, false, fields, room, cap);
                    }
                } else {
                    lemma_scan_string_prefix(data, k, j, room);
                    if let Scan::Done(key, j2) = scan_string(part, j, room) {
                        lemma_skip_ws_prefix(data, k, j2);
                        lemma_skip_ws(part, j2);
                        let j3 = skip_ws(part, j2);
                        if j3 < k {
                            assert(part[j3] == data[j3]);
                            if data[j3] == 0x3a {
                                lemma_skip_ws_prefix(data, k, j3 + 1);
                                lemma_skip_ws(data, j3 + 1);
                                lemma_skip_ws(part, j3 + 1);
                                let j4 = skip_ws(part, j3 + 1);
                                let vroom = shrink(room, key.len() as int);
                                lemma_value_prefix(data, k, j4, vroom, 0x7d);
                                if j4 >= k {
                                    assert(scan_value(part, j4, vroom, 0x7d) == Scan::<ValueModel>::Fail(JsonParseFailure::Incomplete));
                                }
                                if let Scan::Done(v, j5) = scan_value(part, j4, vroom, 0x7d) {
                                    if j5 > i && j5 <= data.len() {
                                        lemma_object_loop_prefix(
                                            data,
                                            k,
                                            j5,
                                            true,
                                            fields.push(FieldModel { key, value: v }),
                                            shrink(vroom, escape_use(v)),
                                            cap,
                                        );
                                    }
                                }
                            }
                        }
                    }
                }
            }
        }
    }
}

/// Incremental equivalence: parsing any prefix of some data either asks
/// for more bytes or gives exactly what parsing all of the data gives; so
/// retrying on `Incomplete` with ever more of the data ends in the result
/// of a single call on all of it.
pub proof fn law_incremental(data: Seq<u8>, k: int, room: Option<nat>, cap: Option<nat>)
    requires
        0 <= k <= data.len(),
    ensures
        agrees(parse_object_spec(data.subrange(0, k), room, cap), parse_object_spec(data, room, cap)),
{
    let part = data.subrange(0, k);
    lemma_skip_ws_prefix(data, k, 0);
    lemma_skip_ws(part, 0);
    let i = skip_ws(part, 0);
    if i < k {
        assert(part[i] == data[i]);
        lemma_object_loop_prefix(data, k, i + 1, false, seq![], room, cap);
    }
}


/// Every value is valid.
pub open spec fn valid_values(vs: Seq<ValueModel>) -> bool {
    forall|i: int| 0 <= i < vs.len() ==> valid_value(#[trigger] vs[i])
}

/// The unescaped string bytes of the first `i` values.
pub open spec fn value_bytes_upto(vs: Seq<ValueModel>, i: int) -> int
    decreases i,
{
    if i <= 0 {
        0
    } else {
        value_bytes_upto(vs, i - 1) + escape_use(vs[i - 1])
    }
}

proof fn lemma_value_bytes_mono(vs: Seq<ValueModel>, i: int, j: int)
    requires
        0 <= i <= j,
    ensures
        0 <= value_bytes_upto(vs, i) <= value_bytes_upto(vs, j),
    decreases j,
{
    if i < j {
        lemma_value_bytes_mono(vs, i, j - 1);
    } else if i > 0 {
        lemma_value_bytes_mono(vs, 0, i - 1);
    }
}

/// Where the `k`-th value stands in an array's text.
#[verifier::rlimit(80)]
proof fn lemma_array_layout(vs: Seq<ValueModel>, k: int)
    requires
        valid_values(vs),
        0 <= k < vs.len(),
    ensures
        ({
            let text = array_text(vs);
            let p = 1 + values_upto(vs, k).len() as int;
            let at = p + separator(k).len() as int;
            let next = at + value_text(vs[k]).len() as int;
            &&& k > 0 ==> text[p] == 0x2c
            &&& sits(text, at, value_text(vs[k]))
            &&& !is_ws(text[at])
            &&& text[at] != 0x5d
            &&& next == 1 + values_upto(vs, k + 1).len()
            &&& next < text.len()
            &&& ends_number(text[next], 0x5d)
        }),
{
    let n = vs.len() as int;
    let text = array_text(vs);
    let all = values_upto(vs, n);
    let sep = separator(k);
    let p: int = 1 + values_upto(vs, k).len() as int;
    let at: int = p + sep.len() as int;
    let next: int = at + value_text(vs[k]).len() as int;
    assert(text.subrange(0, text.len() as int) =~= text);
    lemma_sits_split(text, 0, seq![0x5bu8] + all, seq![0x5du8]);
    lemma_sits_split(text, 0, seq![0x5bu8], all);
    lemma_values_upto_prefix(vs, k + 1, n);
    lemma_sits_prefix(text, 1, values_upto(vs, k + 1), all);
    lemma_sits_split(text, 1, values_upto(vs, k) + sep, value_text(vs[k]));
    lemma_sits_split(text, 1, values_upto(vs, k), sep);
    if k > 0 {
        lemma_sits_index(text, p, sep, 0);
    }
    lemma_value_text_first(vs[k]);
    lemma_sits_index(text, at, value_text(vs[k]), 0);
    if k + 1 < n {
        lemma_values_upto_prefix(vs, k + 2, n);
        lemma_sits_prefix(text, 1, values_upto(vs, k + 2), all);
        lemma_sits_split(text, 1, values_upto(vs, k + 1) + separator(k + 1), value_text(vs[k + 1]));
        lemma_sits_split(text, 1, values_upto(vs, k + 1), separator(k + 1));
        lemma_sits_index(text, next, separator(k + 1), 0);
    } else {
        lemma_sits_index(text, 1 + all.len() as int, seq![0x5du8], 0);
    }
}

/// The array scan over an array's text, from its `k`-th value on: all
/// values come back, unless `cap` is below their number; then the value
/// past `cap` overflows the buffer.
#[verifier::rlimit(60)]
proof fn lemma_array_loop_text(vs: Seq<ValueModel>, k: int, room: Option<nat>, cap: Option<nat>)
    requires
        valid_values(vs),
        0 <= k <= vs.len(),
        room_fits(room, value_bytes_upto(vs, vs.len() as int)),
        cap matches Some(c) ==> k <= c,
    ensures
        ({
            let text = array_text(vs);
            let r = array_loop(
                text,
                1 + values_upto(vs, k).len() as int,
                k > 0,
                vs.subrange(0, k),
                shrink(room, value_bytes_upto(vs, k)),
                cap,
            );
            &&& (cap matches Some(c) && c < vs.len()) ==> r == Scan::<Seq<ValueModel>>::Fail(
                JsonParseFailure::FieldBufferTooSmall,
            )
            &&& !(cap matches Some(c) && c < vs.len()) ==> r == Scan::Done(vs, text.len() as int)
        }),
    decreases vs.len() - k,
{
    let n = vs.len() as int;
    let text = array_text(vs);
    let all = values_upto(vs, n);
    lemma_value_bytes_mono(vs, k, n);
    if k == n {
        assert(text.subrange(0, text.len() as int) =~= text);
        lemma_sits_split(text, 0, seq![0x5bu8] + all, seq![0x5du8]);
        lemma_sits_index(text, 1 + all.len() as int, seq![0x5du8], 0);
        assert(vs.subrange(0, k) =~= vs);
    } else {
        let v = vs[k];
        let p: int = 1 + values_upto(vs, k).len() as int;
        let at: int = p + separator(k).len() as int;
        let room_k = shrink(room, value_bytes_upto(vs, k));
        lemma_value_bytes_mono(vs, k + 1, n);
        lemma_shrink_twice(room, value_bytes_upto(vs, k), escape_use(v));
        lemma_array_layout(vs, k);
        lemma_scan_value_text(text, v, at, room_k, 0x5d);
        assert(vs.subrange(0, k).push(v) =~= vs.subrange(0, k + 1));
        if k > 0 {
            assert(array_loop(text, p, true, vs.subrange(0, k), room_k, cap) == array_loop(
                text,
                at,
                false,
                vs.subrange(0, k),
                room_k,
                cap,
            ));
        }
        if cap != Some(k as nat) {
            lemma_array_loop_text(vs, k + 1, room, cap);
        }
    }
}

/// Round trip for arrays: parsing the text of valid values gives the same
/// values back, in order, and consumes the whole text, given escape room for
/// their strings and room for the values.
pub proof fn law_array_round_trip(vs: Seq<ValueModel>, room: Option<nat>, cap: Option<nat>)
    requires
        valid_values(vs),
        room_fits(room, value_bytes_upto(vs, vs.len() as int)),
        cap matches Some(c) ==> vs.len() <= c,
    ensures
        parse_array_spec(array_text(vs), room, cap) == Scan::Done(vs, array_text(vs).len() as int),
{
    lemma_array_loop_text(vs, 0, room, cap);
    assert(vs.subrange(0, 0) =~= Seq::<ValueModel>::empty());
    assert(array_text(vs)[0] == 0x5b);
}

/// Capacity boundary for arrays: the text of `n + 1` values overflows a
/// buffer of `n` slots, and the text of `n` values fits one.
pub proof fn law_array_capacity_boundary(vs: Seq<ValueModel>, room: Option<nat>)
    requires
        valid_values(vs),
        vs.len() >= 1,
        room_fits(room, value_bytes_upto(vs, vs.len() as int)),
    ensures
        parse_array_spec(array_text(vs), room, Some((vs.len() - 1) as nat))
            == Scan::<Seq<ValueModel>>::Fail(JsonParseFailure::FieldBufferTooSmall),
        parse_array_spec(array_text(vs), room, Some(vs.len())) is Done,
{
    lemma_array_loop_text(vs, 0, room, Some((vs.len() - 1) as nat));
    lemma_array_loop_text(vs, 0, room, Some(vs.len()));
    assert(vs.subrange(0, 0) =~= Seq::<ValueModel>::empty());
    assert(array_text(vs)[0] == 0x5b);
}

#[verifier::rlimit(40)]
proof fn lemma_array_loop_prefix(
    data: Seq<u8>,
    k: int,
    i: int,
    needs_comma: bool,
    values: Seq<ValueModel>,
    room: Option<nat>,
    cap: Option<nat>,
)
    requires
        0 <= i,
        0 <= k <= data.len(),
    ensures
        agrees(
            array_loop(data.subrange(0, k), i, needs_comma, values, room, cap),
            array_loop(data, i, needs_comma, values, room, cap),
        ),
    decreases data.len() - i,
{
    let part = data.subrange(0, k);
    if i < k {
        lemma_skip_ws_prefix(data, k, i);
        lemma_skip_ws(data, i);
        lemma_skip_ws(part, i);
        let j = skip_ws(part, i);
        if j < k {
            assert(part[j] == data[j]);
            if data[j] != 0x5d {
                if needs_comma {
                    if data[j] == 0x2c {
                        lemma_array_loop_prefix(data, k, j + 1, false, values, room, cap);
                    }
                } else {
                    lemma_value_prefix(data, k, j, room, 0x5d);
                    if let Scan::Done(v, e) = scan_value(part, j, room, 0x5d) {
                        if e > i && e <= data.len() {
                            lemma_array_loop_prefix(data, k, e, true, values.push(v), shrink(room, escape_use(v)), cap);
                        }
                    }
                }
            }
        }
    }
}

/// Incremental equivalence for arrays: parsing any prefix of some data
/// either asks for more bytes or gives exactly what parsing all of it gives.
pub proof fn law_array_incremental(data: Seq<u8>, k: int, room: Option<nat>, cap: Option<nat>)
    requires
        0 <= k <= data.len(),
    ensures
        agrees(parse_array_spec(data.subrange(0, k), room, cap), parse_array_spec(data, room, cap)),
{
    let part = data.subrange(0, k);
    lemma_skip_ws_prefix(data, k, 0);
    lemma_skip_ws(part, 0);
    let i = skip_ws(part, 0);
    if i < k {
        assert(part[i] == data[i]);
        lemma_array_loop_prefix(data, k, i + 1, false, seq![], room, cap);
    }
}

/// The object scan with a bound on the fields follows the unbounded one
/// until the bound is reached.
#[verifier::rlimit(40)]
proof fn lemma_object_loop_cap(
    data: Seq<u8>,
    i: int,
    needs_comma: bool,
    fields: Seq<FieldModel>,
    room: Option<nat>,
    c: nat,
)
    requires
        0 <= i,
        fields.len() <= c,
        object_loop(data, i, needs_comma, fields, room, None) is Done,
    ensures
        ({
            let whole = object_loop(data, i, needs_comma, fields, room, None);
            let fs = whole->Done_0;
            let e = whole->Done_1;
            &&& fields.len() <= fs.len()
            &&& 0 < e <= data.len() && data[e - 1] == 0x7d
            &&& fs.len() <= c ==> object_loop(data, i, needs_comma, fields, room, Some(c)) == whole
            &&& fs.len() > c ==> object_loop(data, i, needs_comma, fields, room, Some(c))
                == Scan::<Seq<FieldModel>>::Fail(JsonParseFailure::FieldBufferTooSmall)
        }),
    decreases data.len() - i,
{
    lemma_skip_ws(data, i);
    let j = skip_ws(data, i);
    if data[j] != 0x7d {
        if needs_comma {
            lemma_object_loop_cap(data, j + 1, false, fields, room, c);
        } else {
            if let Scan::Done(key, j2) = scan_string(data, j, room) {
                let j3 = skip_ws(data, j2);
                let j4 = skip_ws(data, j3 + 1);
                let vroom = shrink(room, key.len() as int);
                if let Scan::Done(v, j5) = scan_value(data, j4, vroom, 0x7d) {
                    if fields.len() < c {
                        lemma_object_loop_cap(
                            data,
                            j5,
                            true,
                            fields.push(FieldModel { key, value: v }),
                            shrink(vroom, escape_use(v)),
                            c,
                        );
                    } else {
                        lemma_object_loop_cap(
                            data,
                            j5,
                            true,
                            fields.push(FieldModel { key, value: v }),
                            shrink(vroom, escape_use(v)),
                            c + 1,
                        );
                    }
                }
            }
        }
    }
}

/// Capacity boundary for any well-formed object: where parsing with no
/// bound on the fields gives `n` fields, a buffer of `n` slots gives the
/// same result, ending on the closing brace, and one of fewer slots gives
/// `FieldBufferTooSmall`.
pub proof fn law_capacity_boundary_any(data: Seq<u8>, room: Option<nat>, c: nat)
    requires
        parse_object_spec(data, room, None) is Done,
    ensures
        ({
            let whole = parse_object_spec(data, room, None);
            let fs = whole->Done_0;
            let e = whole->Done_1;
            &&& 0 < e <= data.len() && data[e - 1] == 0x7d
            &&& fs.len() <= c ==> parse_object_spec(data, room, Some(c)) == whole
            &&& fs.len() > c ==> parse_object_spec(data, room, Some(c))
                == Scan::<Seq<FieldModel>>::Fail(JsonParseFailure::FieldBufferTooSmall)
        }),
{
    lemma_skip_ws(data, 0);
    let i = skip_ws(data, 0);
    lemma_object_loop_cap(data, i + 1, false, seq![], room, c);
}
} // verus!
