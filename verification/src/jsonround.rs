//! The canonical rendering parses back to the value it came from.
//!
//! The main results are [`lemma_parse_render`] — parsing a rendered
//! value embedded in a larger input consumes exactly the rendered bytes
//! and yields the original model — and its corollary
//! [`lemma_parse_document_render`] for whole documents.

use vstd::prelude::*;
use vstd::utf8::{valid_utf8, decode_utf8, encode_utf8};
use crate::jsonval::{ValModel, model_wf};
use crate::jsontext::{
    hex_digit,
    escape_byte,
    escape_bytes,
    dec_digits,
    render_int,
    render_string,
    spec_render,
    render_items,
    render_fields,
    lemma_escape_bytes_concat,
};
use crate::jsonparse::{
    is_digit,
    hex_val,
    escape_code,
    parse_str_body,
    digits_end,
    digits_val,
    parse_int,
    parse_value,
    parse_items,
    parse_fields,
    parse_document,
};

verus! {

/// `sub` occurs in `s` starting at `i`.
pub open spec fn at_range(s: Seq<u8>, i: int, sub: Seq<u8>) -> bool {
    &&& 0 <= i
    &&& i + sub.len() <= s.len()
    &&& s.subrange(i, i + sub.len()) == sub
}

proof fn lemma_at_range_one(s: Seq<u8>, i: int, sub: Seq<u8>, t: int)
    requires
        at_range(s, i, sub),
        0 <= t < sub.len(),
    ensures
        s[i + t] == sub[t],
{
    assert(s.subrange(i, i + sub.len())[t] == s[i + t]);
}

proof fn lemma_at_range_split(s: Seq<u8>, i: int, a: Seq<u8>, b: Seq<u8>)
    requires
        at_range(s, i, a + b),
    ensures
        at_range(s, i, a),
        at_range(s, i + a.len(), b),
{
    assert(s.subrange(i, i + a.len()) =~= a) by {
        assert forall|t: int| 0 <= t < a.len() implies s.subrange(i, i + a.len())[t]
            == a[t] by {
            assert(s.subrange(i, i + (a + b).len())[t] == s[i + t]);
            assert((a + b)[t] == a[t]);
        }
    }
    assert(s.subrange(i + a.len(), i + a.len() + b.len()) =~= b) by {
        assert forall|t: int| 0 <= t < b.len() implies s.subrange(
            i + a.len(),
            i + a.len() + b.len(),
        )[t] == b[t] by {
            assert(s.subrange(i, i + (a + b).len())[a.len() + t] == s[i + a.len() + t]);
            assert((a + b)[a.len() + t] == b[t]);
        }
    }
}

proof fn lemma_dec_digits_shape(n: int)
    requires
        n >= 0,
    ensures
        dec_digits(n).len() >= 1,
        forall|t: int| 0 <= t < dec_digits(n).len() ==> is_digit(#[trigger] dec_digits(n)[t]),
    decreases n,
{
    if n >= 10 {
        lemma_dec_digits_shape(n / 10);
        assert forall|t: int| 0 <= t < dec_digits(n).len() implies is_digit(
            #[trigger] dec_digits(n)[t],
        ) by {
            if t < dec_digits(n / 10).len() {
                assert(dec_digits(n)[t] == dec_digits(n / 10)[t]);
            } else {
                assert(dec_digits(n)[t] == (48 + n % 10) as u8);
            }
        }
    }
}

proof fn lemma_digits_end_of_run(s: Seq<u8>, j0: int, end: int)
    requires
        0 <= j0 <= end <= s.len(),
        forall|t: int| j0 <= t < end ==> is_digit(#[trigger] s[t]),
        end == s.len() || !is_digit(s[end]),
    ensures
        digits_end(s, j0) == end,
    decreases end - j0,
{
    if j0 < end {
        lemma_digits_end_of_run(s, j0 + 1, end);
    }
}

proof fn lemma_digits_val_inverts(n: int, s: Seq<u8>, j0: int)
    requires
        n >= 0,
        at_range(s, j0, dec_digits(n)),
    ensures
        digits_val(s, j0, j0 + dec_digits(n).len()) == n,
    decreases n,
{
    if n < 10 {
        lemma_at_range_one(s, j0, dec_digits(n), 0);
        assert(s[j0] == (48 + n) as u8);
        assert(digits_val(s, j0, j0 + 1) == digits_val(s, j0, j0) * 10 + (s[j0] - 48));
    } else {
        let prefix = dec_digits(n / 10);
        let all = dec_digits(n);
        assert(all =~= prefix + seq![(48 + n % 10) as u8]);
        lemma_at_range_split(s, j0, prefix, seq![(48 + n % 10) as u8]);
        lemma_digits_val_inverts(n / 10, s, j0);
        let end = j0 + all.len();
        lemma_at_range_one(s, j0, all, all.len() - 1);
        assert(all[all.len() - 1] == (48 + n % 10) as u8);
        assert(s[end - 1] == (48 + n % 10) as u8);
        assert(digits_val(s, j0, end) == digits_val(s, j0, end - 1) * 10 + (s[end - 1]
            - 48));
        vstd::arithmetic::div_mod::lemma_fundamental_div_mod(n, 10);
    }
}

proof fn lemma_parse_int_of_render(v: int, s: Seq<u8>, i: int)
    requires
        i64::MIN <= v <= i64::MAX,
        at_range(s, i, render_int(v)),
        i + render_int(v).len() == s.len() || !is_digit(s[i + render_int(v).len()]),
    ensures
        parse_int(s, i) == Option::Some((ValModel::Int(v), i + render_int(v).len())),
{
    let rend = render_int(v);
    if v < 0 {
        let mag = -v;
        lemma_dec_digits_shape(mag);
        assert(rend =~= seq![45u8] + dec_digits(mag));
        lemma_at_range_split(s, i, seq![45u8], dec_digits(mag));
        lemma_at_range_one(s, i, seq![45u8], 0);
        assert(s[i] == 45);
        assert forall|t: int|
            i + 1 <= t < i + 1 + dec_digits(mag).len() implies is_digit(
            #[trigger] s[t],
        ) by {
            lemma_at_range_one(s, i + 1, dec_digits(mag), t - (i + 1));
        }
        lemma_digits_end_of_run(s, i + 1, i + 1 + dec_digits(mag).len());
        lemma_digits_val_inverts(mag, s, i + 1);
        assert(is_digit(s[i + 1]));
    } else {
        lemma_dec_digits_shape(v);
        assert(rend == dec_digits(v));
        assert forall|t: int| i <= t < i + rend.len() implies is_digit(
            #[trigger] s[t],
        ) by {
            lemma_at_range_one(s, i, rend, t - i);
        }
        lemma_digits_end_of_run(s, i, i + rend.len());
        lemma_digits_val_inverts(v, s, i);
        assert(is_digit(s[i]));
        assert(s[i] != 45);
    }
}

proof fn lemma_hex_val_of_hex_digit(x: u8)
    requires
        x < 16,
    ensures
        hex_val(hex_digit(x)) == Option::Some(x),
{
}

proof fn lemma_parse_str_body_of_escape(b: Seq<u8>, s: Seq<u8>, i: int)
    requires
        at_range(s, i, escape_bytes(b) + seq![34u8]),
    ensures
        parse_str_body(s, i) == Option::Some((b, i + escape_bytes(b).len() + 1)),
    decreases b.len(),
{
    if b.len() == 0 {
        assert(escape_bytes(b) + seq![34u8] =~= seq![34u8]);
        lemma_at_range_one(s, i, escape_bytes(b) + seq![34u8], 0);
        assert(s[i] == 34);
        assert(parse_str_body(s, i) == Option::Some((Seq::<u8>::empty(), i + 1)));
        assert(b =~= Seq::<u8>::empty());
    } else {
        let b0 = b[0];
        let rest = b.drop_first();
        assert(escape_bytes(b) == escape_byte(b0) + escape_bytes(rest));
        assert(escape_bytes(b) + seq![34u8] =~= escape_byte(b0) + (escape_bytes(rest)
            + seq![34u8]));
        lemma_at_range_split(s, i, escape_byte(b0), escape_bytes(rest) + seq![34u8]);
        let eb0 = escape_byte(b0);
        let i2 = i + eb0.len();
        lemma_parse_str_body_of_escape(rest, s, i2);
        if b0 == 34 {
            lemma_at_range_one(s, i, eb0, 0);
            lemma_at_range_one(s, i, eb0, 1);
            assert(s[i] == 92 && s[i + 1] == 34);
            assert(escape_code(34) == Option::Some(34u8));
            assert(seq![b0] + rest =~= b);
        } else if b0 == 92 {
            lemma_at_range_one(s, i, eb0, 0);
            lemma_at_range_one(s, i, eb0, 1);
            assert(s[i] == 92 && s[i + 1] == 92);
            assert(seq![b0] + rest =~= b);
        } else if b0 < 32 {
            lemma_at_range_one(s, i, eb0, 0);
            lemma_at_range_one(s, i, eb0, 1);
            lemma_at_range_one(s, i, eb0, 2);
            lemma_at_range_one(s, i, eb0, 3);
            lemma_at_range_one(s, i, eb0, 4);
            lemma_at_range_one(s, i, eb0, 5);
            assert(s[i] == 92 && s[i + 1] == 117 && s[i + 2] == 48 && s[i + 3] == 48);
            assert(s[i + 4] == hex_digit(b0 / 16) && s[i + 5] == hex_digit(b0 % 16));
            lemma_hex_val_of_hex_digit(b0 / 16);
            lemma_hex_val_of_hex_digit(b0 % 16);
            assert(hex_val(s[i + 2]) == Option::Some(0u8));
            assert(hex_val(s[i + 3]) == Option::Some(0u8));
            let code = 0 * 4096 + 0 * 256 + (b0 / 16) as int * 16 + (b0 % 16) as int;
            assert(code == b0 as int);
            assert(code <= 127);
            assert(seq![b0] + rest =~= b);
        } else {
            lemma_at_range_one(s, i, eb0, 0);
            assert(s[i] == b0);
            assert(b0 != 34 && b0 != 92 && b0 >= 32);
            assert(seq![b0] + rest =~= b);
        }
    }
}

/// A byte that can begin the canonical rendering of a value.
pub open spec fn value_start(b: u8) -> bool {
    b == 110 || b == 116 || b == 102 || b == 45 || is_digit(b) || b == 34 || b == 91 || b
        == 123
}

proof fn lemma_render_head(m: ValModel)
    requires
        model_wf(m),
    ensures
        spec_render(m).len() >= 1,
        value_start(spec_render(m)[0]),
{
    match m {
        ValModel::Null => {},
        ValModel::Bool(_) => {},
        ValModel::Int(v) => {
            if v < 0 {
                lemma_dec_digits_shape(-v);
                assert(spec_render(m)[0] == 45);
            } else {
                lemma_dec_digits_shape(v);
                assert(is_digit(spec_render(m)[0]));
            }
        },
        ValModel::Str(str0) => {
            assert(spec_render(m)[0] == 34);
        },
        ValModel::Arr(items) => {
            assert(spec_render(m)[0] == 91);
        },
        ValModel::Obj(fields) => {
            assert(spec_render(m)[0] == 123);
        },
    }
}

/// Parsing at the start of a rendered well-formed value, embedded in any
/// larger input not continuing with a digit, yields exactly that value.
pub proof fn lemma_parse_render(m: ValModel, s: Seq<u8>, i: int)
    requires
        model_wf(m),
        at_range(s, i, spec_render(m)),
        i + spec_render(m).len() == s.len() || !is_digit(s[i + spec_render(m).len()]),
    ensures
        parse_value(s, i) == Option::Some((m, i + spec_render(m).len())),
    decreases m, 0int, 0int,
{
    let rend = spec_render(m);
    lemma_at_range_one(s, i, rend, 0);
    lemma_render_head(m);
    match m {
        ValModel::Null => {
            lemma_at_range_one(s, i, rend, 1);
            lemma_at_range_one(s, i, rend, 2);
            lemma_at_range_one(s, i, rend, 3);
            assert(s[i] == 110 && s[i + 1] == 117 && s[i + 2] == 108 && s[i + 3] == 108);
        },
        ValModel::Bool(v) => {
            lemma_at_range_one(s, i, rend, 1);
            lemma_at_range_one(s, i, rend, 2);
            lemma_at_range_one(s, i, rend, 3);
            if !v {
                lemma_at_range_one(s, i, rend, 4);
            }
        },
        ValModel::Int(v) => {
            lemma_parse_int_of_render(v, s, i);
            if v < 0 {
                lemma_dec_digits_shape(-v);
                assert(s[i] == 45);
            } else {
                lemma_dec_digits_shape(v);
            }
        },
        ValModel::Str(cs) => {
            let eb = encode_utf8(cs);
            assert(rend =~= seq![34u8] + (escape_bytes(eb) + seq![34u8]));
            lemma_at_range_split(s, i, seq![34u8], escape_bytes(eb) + seq![34u8]);
            lemma_parse_str_body_of_escape(eb, s, i + 1);
            vstd::utf8::encode_utf8_valid_utf8(cs);
            vstd::utf8::encode_utf8_decode_utf8(cs);
        },
        ValModel::Arr(items) => {
            if items.len() == 0 {
                assert(rend =~= seq![91u8, 93u8]);
                lemma_at_range_one(s, i, rend, 1);
                assert(s[i] == 91 && s[i + 1] == 93);
                assert(items =~= Seq::<ValModel>::empty());
            } else {
                let inner = render_items(items, 0);
                assert(rend =~= seq![91u8] + inner + seq![93u8]);
                assert(rend =~= seq![91u8] + (inner + seq![93u8]));
                lemma_at_range_split(s, i, seq![91u8], inner + seq![93u8]);
                lemma_render_items_head(items, 0);
                lemma_at_range_one(s, i + 1, inner + seq![93u8], 0);
                assert(s[i + 1] == inner[0]);
                assert(inner[0] != 93);
                lemma_parse_render_items(items, 0, s, i + 1);
                assert(items.skip(0) =~= items);
            }
        },
        ValModel::Obj(fields) => {
            if fields.len() == 0 {
                assert(rend =~= seq![123u8, 125u8]);
                lemma_at_range_one(s, i, rend, 1);
                assert(s[i] == 123 && s[i + 1] == 125);
                assert(fields =~= Seq::<(Seq<char>, ValModel)>::empty());
            } else {
                let inner = render_fields(fields, 0);
                assert(rend =~= seq![123u8] + (inner + seq![125u8]));
                lemma_at_range_split(s, i, seq![123u8], inner + seq![125u8]);
                lemma_render_fields_head(fields, 0);
                lemma_at_range_one(s, i + 1, inner + seq![125u8], 0);
                assert(s[i + 1] == inner[0]);
                assert(inner[0] != 125);
                lemma_parse_render_fields(fields, 0, s, i + 1);
                assert(fields.skip(0) =~= fields);
            }
        },
    }
}

proof fn lemma_render_items_head(items: Seq<ValModel>, k: int)
    requires
        0 <= k < items.len(),
        forall|t: int| 0 <= t < items.len() ==> model_wf(#[trigger] items[t]),
    ensures
        render_items(items, k).len() >= 1,
        value_start(render_items(items, k)[0]),
    decreases items.len() - k,
{
    lemma_render_head(items[k]);
    if k < items.len() - 1 {
        assert(render_items(items, k)[0] == spec_render(items[k])[0]);
    }
}

proof fn lemma_render_fields_head(fields: Seq<(Seq<char>, ValModel)>, k: int)
    requires
        0 <= k < fields.len(),
    ensures
        render_fields(fields, k).len() >= 1,
        render_fields(fields, k)[0] == 34,
    decreases fields.len() - k,
{
}

proof fn lemma_parse_render_items(items: Seq<ValModel>, k: int, s: Seq<u8>, i: int)
    requires
        0 <= k < items.len(),
        forall|t: int| 0 <= t < items.len() ==> model_wf(#[trigger] items[t]),
        at_range(s, i, render_items(items, k) + seq![93u8]),
    ensures
        parse_items(s, i) == Option::Some(
            (items.skip(k), i + render_items(items, k).len() + 1),
        ),
    decreases items, 1int, items.len() - k,
{
    let rk = render_items(items, k);
    let elem = spec_render(items[k]);
    lemma_render_head(items[k]);
    if k == items.len() - 1 {
        assert(rk == elem);
        lemma_at_range_split(s, i, elem, seq![93u8]);
        let j = i + elem.len();
        lemma_at_range_one(s, j, seq![93u8], 0);
        assert(s[j] == 93);
        lemma_parse_render(items[k], s, i);
        assert(seq![items[k]] =~= items.skip(k));
    } else {
        assert(rk == elem + seq![44u8] + render_items(items, k + 1));
        assert(rk + seq![93u8] =~= elem + (seq![44u8] + (render_items(items, k + 1)
            + seq![93u8])));
        lemma_at_range_split(s, i, elem, seq![44u8] + (render_items(items, k + 1)
            + seq![93u8]));
        let j = i + elem.len();
        lemma_at_range_split(s, j, seq![44u8], render_items(items, k + 1) + seq![93u8]);
        lemma_at_range_one(s, j, seq![44u8], 0);
        assert(s[j] == 44);
        lemma_parse_render(items[k], s, i);
        lemma_parse_render_items(items, k + 1, s, j + 1);
        assert(seq![items[k]] + items.skip(k + 1) =~= items.skip(k));
    }
}

proof fn lemma_parse_render_fields(
    fields: Seq<(Seq<char>, ValModel)>,
    k: int,
    s: Seq<u8>,
    i: int,
)
    requires
        0 <= k < fields.len(),
        forall|t: int| 0 <= t < fields.len() ==> model_wf((#[trigger] fields[t]).1),
        at_range(s, i, render_fields(fields, k) + seq![125u8]),
    ensures
        parse_fields(s, i) == Option::Some(
            (fields.skip(k), i + render_fields(fields, k).len() + 1),
        ),
    decreases fields, 1int, fields.len() - k,
{
    let rk = render_fields(fields, k);
    let key = fields[k].0;
    let keyb = encode_utf8(key);
    let krend = render_string(key);
    let elem = spec_render(fields[k].1);
    lemma_render_head(fields[k].1);
    // The key: a quote, the escaped bytes, a quote.
    assert(krend =~= seq![34u8] + (escape_bytes(keyb) + seq![34u8]));
    if k == fields.len() - 1 {
        assert(rk == krend + seq![58u8] + elem);
        assert(rk + seq![125u8] =~= seq![34u8] + ((escape_bytes(keyb) + seq![34u8]) + (
        seq![58u8] + (elem + seq![125u8]))));
        lemma_at_range_split(s, i, seq![34u8], (escape_bytes(keyb) + seq![34u8]) + (
        seq![58u8] + (elem + seq![125u8])));
        lemma_at_range_one(s, i, seq![34u8], 0);
        assert(s[i] == 34);
        lemma_at_range_split(s, i + 1, escape_bytes(keyb) + seq![34u8], seq![58u8] + (elem
            + seq![125u8]));
        lemma_parse_str_body_of_escape(keyb, s, i + 1);
        let j = i + 1 + escape_bytes(keyb).len() + 1;
        lemma_at_range_split(s, j, seq![58u8], elem + seq![125u8]);
        lemma_at_range_one(s, j, seq![58u8], 0);
        assert(s[j] == 58);
        lemma_at_range_split(s, j + 1, elem, seq![125u8]);
        lemma_at_range_one(s, j + 1 + elem.len(), seq![125u8], 0);
        assert(s[j + 1 + elem.len()] == 125);
        lemma_parse_render(fields[k].1, s, j + 1);
        vstd::utf8::encode_utf8_valid_utf8(key);
        vstd::utf8::encode_utf8_decode_utf8(key);
        assert(seq![(decode_utf8(keyb), fields[k].1)] =~= fields.skip(k));
        assert(i + rk.len() + 1 == j + 1 + elem.len() + 1);
    } else {
        assert(rk == krend + seq![58u8] + elem + seq![44u8] + render_fields(fields, k + 1));
        assert(rk + seq![125u8] =~= seq![34u8] + ((escape_bytes(keyb) + seq![34u8]) + (
        seq![58u8] + (elem + (seq![44u8] + (render_fields(fields, k + 1) + seq![125u8]))))));
        lemma_at_range_split(s, i, seq![34u8], (escape_bytes(keyb) + seq![34u8]) + (
        seq![58u8] + (elem + (seq![44u8] + (render_fields(fields, k + 1) + seq![125u8])))));
        lemma_at_range_one(s, i, seq![34u8], 0);
        assert(s[i] == 34);
        lemma_at_range_split(s, i + 1, escape_bytes(keyb) + seq![34u8], seq![58u8] + (elem
            + (seq![44u8] + (render_fields(fields, k + 1) + seq![125u8]))));
        lemma_parse_str_body_of_escape(keyb, s, i + 1);
        let j = i + 1 + escape_bytes(keyb).len() + 1;
        lemma_at_range_split(s, j, seq![58u8], elem + (seq![44u8] + (render_fields(
            fields,
            k + 1,
        ) + seq![125u8])));
        lemma_at_range_one(s, j, seq![58u8], 0);
        assert(s[j] == 58);
        lemma_at_range_split(s, j + 1, elem, seq![44u8] + (render_fields(fields, k + 1)
            + seq![125u8]));
        let j2 = j + 1 + elem.len();
        lemma_at_range_split(s, j2, seq![44u8], render_fields(fields, k + 1) + seq![125u8]);
        lemma_at_range_one(s, j2, seq![44u8], 0);
        assert(s[j2] == 44);
        lemma_parse_render(fields[k].1, s, j + 1);
        lemma_parse_render_fields(fields, k + 1, s, j2 + 1);
        vstd::utf8::encode_utf8_valid_utf8(key);
        vstd::utf8::encode_utf8_decode_utf8(key);
        assert(seq![(decode_utf8(keyb), fields[k].1)] + fields.skip(k + 1) =~= fields.skip(
            k,
        ));
        assert(i + rk.len() + 1 == j2 + 1 + render_fields(fields, k + 1).len() + 1);
    }
}

/// A rendered well-formed document parses back to itself.
pub proof fn lemma_parse_document_render(m: ValModel)
    requires
        model_wf(m),
    ensures
        parse_document(spec_render(m)) == Option::Some(m),
{
    let s = spec_render(m);
    assert(s.subrange(0, s.len() as int) =~= s);
    lemma_parse_render(m, s, 0);
}

} // verus!
