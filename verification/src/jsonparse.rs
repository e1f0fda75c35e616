//! Parsing canonical JSON text back into document values.
//!
//! The grammar accepted is the one [`crate::jsontext`] writes: `null`,
//! `true`, `false`, decimal integers that fit an `i64`, quoted strings
//! with byte-level escapes (`\"`, `\\`, `\/`, `\n`, `\t`, `\r`, `\b`,
//! `\f` and `\u00XX` for ASCII codes), arrays and objects without
//! whitespace.  The specification-level parser below defines the meaning
//! of a byte sequence; the executable parser is proved to agree with it.

use vstd::prelude::*;
use vstd::utf8::{valid_utf8, decode_utf8, encode_utf8};
use crate::jsonval::{Val, ValModel, val_model, val_models, field_models};
use crate::jsonval::{lemma_val_models_len, lemma_field_models_len};
use crate::outside::string_from_utf8;

verus! {

/// ASCII decimal digit.
pub open spec fn is_digit(b: u8) -> bool {
    48 <= b && b <= 57
}

/// The value of an ASCII hex digit, if it is one.
pub open spec fn hex_val(b: u8) -> Option<u8> {
    if 48 <= b && b <= 57 {
        Option::Some((b - 48) as u8)
    } else if 97 <= b && b <= 102 {
        Option::Some((b - 87) as u8)
    } else if 65 <= b && b <= 70 {
        Option::Some((b - 55) as u8)
    } else {
        Option::None
    }
}

/// The byte a single-character escape stands for, if the character is a
/// recognised escape.
pub open spec fn escape_code(e: u8) -> Option<u8> {
    if e == 34 {
        Option::Some(34u8)
    } else if e == 92 {
        Option::Some(92u8)
    } else if e == 47 {
        Option::Some(47u8)
    } else if e == 110 {
        Option::Some(10u8)
    } else if e == 116 {
        Option::Some(9u8)
    } else if e == 114 {
        Option::Some(13u8)
    } else if e == 98 {
        Option::Some(8u8)
    } else if e == 102 {
        Option::Some(12u8)
    } else {
        Option::None
    }
}

/// Parses the body of a string after its opening quote, returning the
/// unescaped bytes and the position after the closing quote.
pub open spec fn parse_str_body(s: Seq<u8>, i: int) -> Option<(Seq<u8>, int)>
    decreases s.len() - i,
{
    if i < 0 || i >= s.len() {
        Option::None
    } else {
        let b = s[i];
        if b == 34 {
            Option::Some((Seq::empty(), i + 1))
        } else if b == 92 {
            if i + 1 >= s.len() {
                Option::None
            } else {
                let e = s[i + 1];
                if e == 117 {
                    if i + 6 > s.len() {
                        Option::None
                    } else {
                        match (hex_val(s[i + 2]), hex_val(s[i + 3]), hex_val(s[i + 4]),
                        hex_val(s[i + 5])) {
                            (
                                Option::Some(h0),
                                Option::Some(h1),
                                Option::Some(h2),
                                Option::Some(h3),
                            ) => {
                                let code = (h0 as int) * 4096 + (h1 as int) * 256 + (
                                h2 as int) * 16 + (h3 as int);
                                if code <= 127 {
                                    match parse_str_body(s, i + 6) {
                                        Option::Some((rest, j)) => Option::Some(
                                            (seq![code as u8] + rest, j),
                                        ),
                                        Option::None => Option::None,
                                    }
                                } else {
                                    Option::None
                                }
                            },
                            _ => Option::None,
                        }
                    }
                } else {
                    match escape_code(e) {
                        Option::Some(d) => match parse_str_body(s, i + 2) {
                            Option::Some((rest, j)) => Option::Some((seq![d] + rest, j)),
                            Option::None => Option::None,
                        },
                        Option::None => Option::None,
                    }
                }
            }
        } else if b < 32 {
            Option::None
        } else {
            match parse_str_body(s, i + 1) {
                Option::Some((rest, j)) => Option::Some((seq![b] + rest, j)),
                Option::None => Option::None,
            }
        }
    }
}

/// The first position at or after `j` holding a non-digit byte (or the
/// end of the input).
pub open spec fn digits_end(s: Seq<u8>, j: int) -> int
    decreases s.len() - j,
{
    if j < 0 || j >= s.len() {
        j
    } else if is_digit(s[j]) {
        digits_end(s, j + 1)
    } else {
        j
    }
}

/// The value of the decimal digits in `s[j..end]`.
pub open spec fn digits_val(s: Seq<u8>, j: int, end: int) -> int
    decreases end - j,
{
    if j >= end {
        0
    } else {
        digits_val(s, j, end - 1) * 10 + (s[end - 1] - 48)
    }
}

/// Parses an integer at `i`: an optional minus sign and a maximal run of
/// digits, rejected when the value does not fit an `i64`.
pub open spec fn parse_int(s: Seq<u8>, i: int) -> Option<(ValModel, int)> {
    if i < 0 || i >= s.len() {
        Option::None
    } else {
        let neg = s[i] == 45;
        let j0 = if neg {
            i + 1
        } else {
            i
        };
        let end = digits_end(s, j0);
        if end == j0 || !(j0 < s.len() && is_digit(s[j0])) {
            Option::None
        } else {
            let v = digits_val(s, j0, end);
            let sv = if neg {
                -v
            } else {
                v
            };
            if i64::MIN <= sv <= i64::MAX {
                Option::Some((ValModel::Int(sv), end))
            } else {
                Option::None
            }
        }
    }
}

/// Parses one value at position `i`, returning its model and the first
/// position after it.
pub open spec fn parse_value(s: Seq<u8>, i: int) -> Option<(ValModel, int)>
    decreases s.len() - i, 0int,
{
    if i < 0 || i >= s.len() {
        Option::None
    } else {
        let b = s[i];
        if b == 110 {
            if s.len() - i >= 4 && s[i + 1] == 117 && s[i + 2] == 108 && s[i + 3] == 108 {
                Option::Some((ValModel::Null, i + 4))
            } else {
                Option::None
            }
        } else if b == 116 {
            if s.len() - i >= 4 && s[i + 1] == 114 && s[i + 2] == 117 && s[i + 3] == 101 {
                Option::Some((ValModel::Bool(true), i + 4))
            } else {
                Option::None
            }
        } else if b == 102 {
            if s.len() - i >= 5 && s[i + 1] == 97 && s[i + 2] == 108 && s[i + 3] == 115 && s[i
                + 4] == 101 {
                Option::Some((ValModel::Bool(false), i + 5))
            } else {
                Option::None
            }
        } else if b == 34 {
            match parse_str_body(s, i + 1) {
                Option::Some((bytes, j)) => if valid_utf8(bytes) {
                    Option::Some((ValModel::Str(decode_utf8(bytes)), j))
                } else {
                    Option::None
                },
                Option::None => Option::None,
            }
        } else if b == 45 || is_digit(b) {
            parse_int(s, i)
        } else if b == 91 {
            if i + 1 < s.len() && s[i + 1] == 93 {
                Option::Some((ValModel::Arr(Seq::empty()), i + 2))
            } else {
                match parse_items(s, i + 1) {
                    Option::Some((vs, j)) => Option::Some((ValModel::Arr(vs), j)),
                    Option::None => Option::None,
                }
            }
        } else if b == 123 {
            if i + 1 < s.len() && s[i + 1] == 125 {
                Option::Some((ValModel::Obj(Seq::empty()), i + 2))
            } else {
                match parse_fields(s, i + 1) {
                    Option::Some((fs, j)) => Option::Some((ValModel::Obj(fs), j)),
                    Option::None => Option::None,
                }
            }
        } else {
            Option::None
        }
    }
}

/// Parses the items of a non-empty array from position `i` up to and
/// including the closing bracket.
pub open spec fn parse_items(s: Seq<u8>, i: int) -> Option<(Seq<ValModel>, int)>
    decreases s.len() - i, 1int,
{
    if i < 0 || i > s.len() {
        Option::None
    } else {
        match parse_value(s, i) {
            Option::None => Option::None,
            Option::Some((v, j)) => if !(i < j && j < s.len()) {
                Option::None
            } else if s[j] == 44 {
                match parse_items(s, j + 1) {
                    Option::Some((vs, j2)) => Option::Some((seq![v] + vs, j2)),
                    Option::None => Option::None,
                }
            } else if s[j] == 93 {
                Option::Some((seq![v], j + 1))
            } else {
                Option::None
            },
        }
    }
}

/// Parses the fields of a non-empty object from position `i` up to and
/// including the closing brace.
pub open spec fn parse_fields(s: Seq<u8>, i: int) -> Option<
    (Seq<(Seq<char>, ValModel)>, int),
>
    decreases s.len() - i, 1int,
{
    if i < 0 || i >= s.len() || s[i] != 34 {
        Option::None
    } else {
        match parse_str_body(s, i + 1) {
            Option::None => Option::None,
            Option::Some((kb, j)) => if !(i < j && j < s.len() && valid_utf8(kb)) {
                Option::None
            } else if s[j] != 58 {
                Option::None
            } else {
                match parse_value(s, j + 1) {
                    Option::None => Option::None,
                    Option::Some((v, j2)) => if !(j + 1 < j2 && j2 < s.len()) {
                        Option::None
                    } else if s[j2] == 44 {
                        match parse_fields(s, j2 + 1) {
                            Option::Some((fs, j3)) => Option::Some(
                                (seq![(decode_utf8(kb), v)] + fs, j3),
                            ),
                            Option::None => Option::None,
                        }
                    } else if s[j2] == 125 {
                        Option::Some((seq![(decode_utf8(kb), v)], j2 + 1))
                    } else {
                        Option::None
                    },
                }
            },
        }
    }
}

/// A whole document: one value covering the entire input.
pub open spec fn parse_document(s: Seq<u8>) -> Option<ValModel> {
    match parse_value(s, 0) {
        Option::Some((m, j)) => if j == s.len() {
            Option::Some(m)
        } else {
            Option::None
        },
        Option::None => Option::None,
    }
}

fn hex_val_exec(b: u8) -> (r: Option<u8>)
    ensures
        r == hex_val(b),
{
    if 48 <= b && b <= 57 {
        Option::Some(b - 48)
    } else if 97 <= b && b <= 102 {
        Option::Some(b - 87)
    } else if 65 <= b && b <= 70 {
        Option::Some(b - 55)
    } else {
        Option::None
    }
}

fn is_digit_exec(b: u8) -> (r: bool)
    ensures
        r == is_digit(b),
{
    48 <= b && b <= 57
}

fn parse_str_body_at(s: &[u8], i: usize) -> (r: Option<(Vec<u8>, usize)>)
    ensures
        match r {
            Option::Some(p) => parse_str_body(s@, i as int) == Option::Some(
                (p.0@, p.1 as int),
            ) && i < p.1 <= s@.len(),
            Option::None => parse_str_body(s@, i as int) is None,
        },
    decreases s@.len() - i,
{
    if i >= s.len() {
        return Option::None;
    }
    let b = s[i];
    if b == 34 {
        let empty: Vec<u8> = Vec::new();
        proof {
            assert(empty@ =~= Seq::<u8>::empty());
        }
        Option::Some((empty, i + 1))
    } else if b == 92 {
        if i + 1 >= s.len() {
            return Option::None;
        }
        let e = s[i + 1];
        if e == 117 {
            if s.len() - i < 6 {
                return Option::None;
            }
            let h0 = hex_val_exec(s[i + 2]);
            let h1 = hex_val_exec(s[i + 3]);
            let h2 = hex_val_exec(s[i + 4]);
            let h3 = hex_val_exec(s[i + 5]);
            match (h0, h1, h2, h3) {
                (
                    Option::Some(a),
                    Option::Some(b1),
                    Option::Some(c),
                    Option::Some(d),
                ) => {
                    let code: u32 = (a as u32) * 4096 + (b1 as u32) * 256 + (c as u32) * 16
                        + (d as u32);
                    if code <= 127 {
                        match parse_str_body_at(s, i + 6) {
                            Option::Some((mut rest, j)) => {
                                let ghost grest = rest@;
                                rest.insert(0, code as u8);
                                proof {
                                    assert(rest@ =~= seq![code as u8] + grest);
                                }
                                Option::Some((rest, j))
                            },
                            Option::None => Option::None,
                        }
                    } else {
                        Option::None
                    }
                },
                _ => Option::None,
            }
        } else {
            let decoded: Option<u8> = if e == 34 {
                Option::Some(34)
            } else if e == 92 {
                Option::Some(92)
            } else if e == 47 {
                Option::Some(47)
            } else if e == 110 {
                Option::Some(10)
            } else if e == 116 {
                Option::Some(9)
            } else if e == 114 {
                Option::Some(13)
            } else if e == 98 {
                Option::Some(8)
            } else if e == 102 {
                Option::Some(12)
            } else {
                Option::None
            };
            proof {
                assert(decoded == escape_code(e));
            }
            match decoded {
                Option::Some(d) => match parse_str_body_at(s, i + 2) {
                    Option::Some((mut rest, j)) => {
                        let ghost grest = rest@;
                        rest.insert(0, d);
                        proof {
                            assert(rest@ =~= seq![d] + grest);
                        }
                        Option::Some((rest, j))
                    },
                    Option::None => Option::None,
                },
                Option::None => Option::None,
            }
        }
    } else if b < 32 {
        Option::None
    } else {
        match parse_str_body_at(s, i + 1) {
            Option::Some((mut rest, j)) => {
                let ghost grest = rest@;
                rest.insert(0, b);
                proof {
                    assert(rest@ =~= seq![b] + grest);
                }
                Option::Some((rest, j))
            },
            Option::None => Option::None,
        }
    }
}

proof fn lemma_digits_val_nonneg(s: Seq<u8>, j0: int, end: int)
    requires
        j0 <= end,
        forall|t: int| j0 <= t < end ==> is_digit(#[trigger] s[t]),
    ensures
        digits_val(s, j0, end) >= 0,
    decreases end - j0,
{
    if j0 < end {
        lemma_digits_val_nonneg(s, j0, end - 1);
    }
}

proof fn lemma_digits_val_grows(s: Seq<u8>, j0: int, a: int, b: int)
    requires
        j0 <= a <= b,
        forall|t: int| j0 <= t < b ==> is_digit(#[trigger] s[t]),
    ensures
        digits_val(s, j0, b) >= digits_val(s, j0, a),
    decreases b - a,
{
    if a < b {
        lemma_digits_val_grows(s, j0, a, b - 1);
        lemma_digits_val_nonneg(s, j0, b - 1);
    }
}

fn parse_int_at(s: &[u8], i: usize) -> (r: Option<(i64, usize)>)
    requires
        i < s@.len(),
    ensures
        match r {
            Option::Some(p) => parse_int(s@, i as int) == Option::Some(
                (ValModel::Int(p.0 as int), p.1 as int),
            ) && i < p.1 <= s@.len(),
            Option::None => parse_int(s@, i as int) is None,
        },
{
    let neg = s[i] == 45;
    let j0: usize = if neg {
        i + 1
    } else {
        i
    };
    if j0 >= s.len() || !is_digit_exec(s[j0]) {
        return Option::None;
    }
    // Find the end of the run of digits.
    let mut end: usize = j0;
    while end < s.len() && is_digit_exec(s[end])
        invariant
            j0 <= end <= s@.len(),
            digits_end(s@, j0 as int) == digits_end(s@, end as int),
            forall|t: int| j0 <= t < end ==> is_digit(#[trigger] s@[t]),
        decreases s@.len() - end,
    {
        end = end + 1;
    }
    proof {
        assert(digits_end(s@, end as int) == end as int);
        assert(digits_end(s@, j0 as int) == end as int);
    }
    // Accumulate the value, stopping once it can no longer fit an i64.
    let mut acc: u64 = 0;
    let mut j: usize = j0;
    while j < end
        invariant
            j0 <= j <= end <= s@.len(),
            i < s@.len(),
            j0 == if neg { i + 1 } else { i as int },
            neg == (s@[i as int] == 45),
            digits_end(s@, j0 as int) == end as int,
            forall|t: int| j0 <= t < end ==> is_digit(#[trigger] s@[t]),
            acc as int == digits_val(s@, j0 as int, j as int),
            acc <= 9223372036854775808u64,
        decreases end - j,
    {
        let d = (s[j] - 48) as u64;
        if acc > 922337203685477580u64 {
            proof {
                assert(digits_val(s@, j0 as int, j as int + 1) > 9223372036854775808int);
                lemma_digits_val_grows(s@, j0 as int, j as int + 1, end as int);
            }
            return Option::None;
        }
        let acc2 = acc * 10 + d;
        if acc2 > 9223372036854775808u64 {
            proof {
                assert(digits_val(s@, j0 as int, j as int + 1) > 9223372036854775808int);
                lemma_digits_val_grows(s@, j0 as int, j as int + 1, end as int);
            }
            return Option::None;
        }
        acc = acc2;
        j = j + 1;
    }
    if neg {
        if acc == 9223372036854775808u64 {
            Option::Some((i64::MIN, end))
        } else {
            Option::Some((-(acc as i64), end))
        }
    } else {
        if acc == 9223372036854775808u64 {
            Option::None
        } else {
            Option::Some((acc as i64, end))
        }
    }
}

/// Parses one value at position `i`; agrees exactly with [`parse_value`].
pub fn parse_value_at(s: &[u8], i: usize) -> (r: Option<(Val, usize)>)
    ensures
        match r {
            Option::Some(p) => parse_value(s@, i as int) == Option::Some(
                (p.0@, p.1 as int),
            ) && i < p.1 <= s@.len(),
            Option::None => parse_value(s@, i as int) is None,
        },
    decreases s@.len() - i, 0int,
{
    if i >= s.len() {
        return Option::None;
    }
    let b = s[i];
    if b == 110 {
        if s.len() - i >= 4 && s[i + 1] == 117 && s[i + 2] == 108 && s[i + 3] == 108 {
            Option::Some((Val::Null, i + 4))
        } else {
            Option::None
        }
    } else if b == 116 {
        if s.len() - i >= 4 && s[i + 1] == 114 && s[i + 2] == 117 && s[i + 3] == 101 {
            Option::Some((Val::Bool(true), i + 4))
        } else {
            Option::None
        }
    } else if b == 102 {
        if s.len() - i >= 5 && s[i + 1] == 97 && s[i + 2] == 108 && s[i + 3] == 115 && s[i + 4]
            == 101 {
            Option::Some((Val::Bool(false), i + 5))
        } else {
            Option::None
        }
    } else if b == 34 {
        match parse_str_body_at(s, i + 1) {
            Option::Some((bytes, j)) => {
                let ghost gb = bytes@;
                match string_from_utf8(bytes) {
                    Option::Some(st) => {
                        proof {
                            vstd::utf8::encode_utf8_decode_utf8(st@);
                            assert(decode_utf8(gb) == st@);
                        }
                        Option::Some((Val::Str(st), j))
                    },
                    Option::None => Option::None,
                }
            },
            Option::None => Option::None,
        }
    } else if b == 45 || is_digit_exec(b) {
        match parse_int_at(s, i) {
            Option::Some((v, j)) => Option::Some((Val::Int(v), j)),
            Option::None => Option::None,
        }
    } else if b == 91 {
        if i + 1 < s.len() && s[i + 1] == 93 {
            let items: Vec<Val> = Vec::new();
            proof {
                assert(val_models(items@) =~= Seq::<ValModel>::empty());
            }
            Option::Some((Val::Arr(items), i + 2))
        } else {
            match parse_items_at(s, i + 1) {
                Option::Some((vs, j)) => Option::Some((Val::Arr(vs), j)),
                Option::None => Option::None,
            }
        }
    } else if b == 123 {
        if i + 1 < s.len() && s[i + 1] == 125 {
            let fields: Vec<(String, Val)> = Vec::new();
            proof {
                assert(field_models(fields@) =~= Seq::<(Seq<char>, ValModel)>::empty());
            }
            Option::Some((Val::Obj(fields), i + 2))
        } else {
            match parse_fields_at(s, i + 1) {
                Option::Some((fs, j)) => Option::Some((Val::Obj(fs), j)),
                Option::None => Option::None,
            }
        }
    } else {
        Option::None
    }
}

fn parse_items_at(s: &[u8], i: usize) -> (r: Option<(Vec<Val>, usize)>)
    ensures
        match r {
            Option::Some(p) => parse_items(s@, i as int) == Option::Some(
                (val_models(p.0@), p.1 as int),
            ) && i < p.1 <= s@.len(),
            Option::None => parse_items(s@, i as int) is None,
        },
    decreases s@.len() - i, 1int,
{
    match parse_value_at(s, i) {
        Option::None => Option::None,
        Option::Some((v, j)) => {
            if j >= s.len() {
                return Option::None;
            }
            if s[j] == 44 {
                match parse_items_at(s, j + 1) {
                    Option::Some((mut vs, j2)) => {
                        let ghost gvs = vs@;
                        let ghost gv = v@;
                        vs.insert(0, v);
                        proof {
                            assert(vs@ =~= seq![vs@[0]] + gvs);
                            crate::jsonval::lemma_val_models_cons(vs@[0], gvs);
                            assert(val_models(vs@) =~= seq![gv] + val_models(gvs));
                        }
                        Option::Some((vs, j2))
                    },
                    Option::None => Option::None,
                }
            } else if s[j] == 93 {
                let mut vs: Vec<Val> = Vec::new();
                let ghost gv = v@;
                vs.push(v);
                proof {
                    assert(vs@ =~= seq![vs@[0]] + Seq::<Val>::empty());
                    crate::jsonval::lemma_val_models_cons(vs@[0], Seq::<Val>::empty());
                    assert(val_models(Seq::<Val>::empty()) =~= Seq::<ValModel>::empty());
                    assert(val_models(vs@) =~= seq![gv]);
                }
                Option::Some((vs, j + 1))
            } else {
                Option::None
            }
        },
    }
}

fn parse_fields_at(s: &[u8], i: usize) -> (r: Option<(Vec<(String, Val)>, usize)>)
    ensures
        match r {
            Option::Some(p) => parse_fields(s@, i as int) == Option::Some(
                (field_models(p.0@), p.1 as int),
            ) && i < p.1 <= s@.len(),
            Option::None => parse_fields(s@, i as int) is None,
        },
    decreases s@.len() - i, 1int,
{
    if i >= s.len() || s[i] != 34 {
        return Option::None;
    }
    match parse_str_body_at(s, i + 1) {
        Option::None => Option::None,
        Option::Some((kb, j)) => {
            let ghost gkb = kb@;
            if j >= s.len() {
                return Option::None;
            }
            let key = match string_from_utf8(kb) {
                Option::Some(st) => st,
                Option::None => {
                    return Option::None;
                },
            };
            proof {
                vstd::utf8::encode_utf8_decode_utf8(key@);
                assert(decode_utf8(gkb) == key@);
            }
            if s[j] != 58 {
                return Option::None;
            }
            match parse_value_at(s, j + 1) {
                Option::None => Option::None,
                Option::Some((v, j2)) => {
                    if j2 >= s.len() {
                        return Option::None;
                    }
                    if s[j2] == 44 {
                        match parse_fields_at(s, j2 + 1) {
                            Option::Some((mut fs, j3)) => {
                                let ghost gfs = fs@;
                                let ghost gv = v@;
                                let ghost gk = key@;
                                fs.insert(0, (key, v));
                                proof {
                                    assert(fs@ =~= seq![fs@[0]] + gfs);
                                    crate::jsonval::lemma_field_models_cons(fs@[0], gfs);
                                    assert(field_models(fs@) =~= seq![(gk, gv)]
                                        + field_models(gfs));
                                }
                                Option::Some((fs, j3))
                            },
                            Option::None => Option::None,
                        }
                    } else if s[j2] == 125 {
                        let mut fs: Vec<(String, Val)> = Vec::new();
                        let ghost gv = v@;
                        let ghost gk = key@;
                        fs.push((key, v));
                        proof {
                            assert(fs@ =~= seq![fs@[0]] + Seq::<(String, Val)>::empty());
                            crate::jsonval::lemma_field_models_cons(
                                fs@[0],
                                Seq::<(String, Val)>::empty(),
                            );
                            assert(field_models(Seq::<(String, Val)>::empty()) =~= Seq::<
                                (Seq<char>, ValModel),
                            >::empty());
                            assert(field_models(fs@) =~= seq![(gk, gv)]);
                        }
                        Option::Some((fs, j2 + 1))
                    } else {
                        Option::None
                    }
                },
            }
        },
    }
}

/// Parses a whole document: one value that covers the entire input.
pub fn parse_document_bytes(s: &[u8]) -> (r: Option<Val>)
    ensures
        match r {
            Option::Some(v) => parse_document(s@) == Option::Some(v@),
            Option::None => parse_document(s@) is None,
        },
{
    match parse_value_at(s, 0) {
        Option::Some((v, j)) => if j == s.len() {
            Option::Some(v)
        } else {
            Option::None
        },
        Option::None => Option::None,
    }
}

} // verus!
