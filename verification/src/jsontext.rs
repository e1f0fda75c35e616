//! Canonical JSON text rendering of document values.
//!
//! The canonical form is minimal: no whitespace, object and array items
//! separated by single commas, integers in decimal, and strings escaped
//! byte-wise — `\"` and `\\` for the quote and backslash, `\u00XX` for
//! control bytes, every other byte of the UTF-8 encoding written as is.

use vstd::prelude::*;
use vstd::utf8::encode_utf8;
use crate::jsonval::{Val, ValModel, val_model, val_models, field_models};
use crate::jsonval::{lemma_val_models_index, lemma_val_models_len};
use crate::jsonval::{lemma_field_models_index, lemma_field_models_len};

verus! {

/// The ASCII hex digit (lowercase) for a value below 16.
pub open spec fn hex_digit(n: u8) -> u8 {
    if n < 10 {
        (48 + n) as u8
    } else {
        (87 + n) as u8
    }
}

/// How one byte of a string is written inside quotes.
pub open spec fn escape_byte(b: u8) -> Seq<u8> {
    if b == 34 {
        seq![92u8, 34u8]
    } else if b == 92 {
        seq![92u8, 92u8]
    } else if b < 32 {
        seq![92u8, 117u8, 48u8, 48u8, hex_digit(b / 16), hex_digit(b % 16)]
    } else {
        seq![b]
    }
}

/// The escaped form of a whole byte sequence.
pub open spec fn escape_bytes(s: Seq<u8>) -> Seq<u8>
    decreases s.len(),
{
    if s.len() == 0 {
        Seq::empty()
    } else {
        escape_byte(s[0]) + escape_bytes(s.drop_first())
    }
}

pub proof fn lemma_escape_bytes_concat(a: Seq<u8>, b: Seq<u8>)
    ensures
        escape_bytes(a + b) == escape_bytes(a) + escape_bytes(b),
    decreases a.len(),
{
    if a.len() == 0 {
        assert(a + b =~= b);
        assert(escape_bytes(a) + escape_bytes(b) =~= escape_bytes(b));
    } else {
        lemma_escape_bytes_concat(a.drop_first(), b);
        assert((a + b).drop_first() =~= a.drop_first() + b);
        assert(escape_byte(a[0]) + (escape_bytes(a.drop_first()) + escape_bytes(b)) =~= (
        escape_byte(a[0]) + escape_bytes(a.drop_first())) + escape_bytes(b));
    }
}

/// The decimal digits of a non-negative integer, most significant first.
pub open spec fn dec_digits(n: int) -> Seq<u8>
    decreases n,
{
    if n < 10 {
        seq![(48 + if n >= 0 { n } else { 0 }) as u8]
    } else {
        dec_digits(n / 10) + seq![(48 + n % 10) as u8]
    }
}

/// The canonical decimal rendering of an integer, with a leading minus
/// for negative values.
pub open spec fn render_int(i: int) -> Seq<u8> {
    if i < 0 {
        seq![45u8] + dec_digits(-i)
    } else {
        dec_digits(i)
    }
}

/// The canonical rendering of a string: quoted and escaped.
pub open spec fn render_string(s: Seq<char>) -> Seq<u8> {
    seq![34u8] + escape_bytes(encode_utf8(s)) + seq![34u8]
}

/// The canonical rendering of a value model.
pub open spec fn spec_render(m: ValModel) -> Seq<u8>
    decreases m, 0int,
{
    match m {
        ValModel::Null => seq![110u8, 117u8, 108u8, 108u8],
        ValModel::Bool(b) => if b {
            seq![116u8, 114u8, 117u8, 101u8]
        } else {
            seq![102u8, 97u8, 108u8, 115u8, 101u8]
        },
        ValModel::Int(i) => render_int(i),
        ValModel::Str(s) => render_string(s),
        ValModel::Arr(items) => seq![91u8] + render_items(items, 0) + seq![93u8],
        ValModel::Obj(fields) => seq![123u8] + render_fields(fields, 0) + seq![125u8],
    }
}

/// The comma-separated renderings of the items from index `k` on.
pub open spec fn render_items(items: Seq<ValModel>, k: int) -> Seq<u8>
    decreases items, 1int, items.len() - k,
{
    if k < 0 || k >= items.len() {
        Seq::empty()
    } else if k == items.len() - 1 {
        spec_render(items[k])
    } else {
        spec_render(items[k]) + seq![44u8] + render_items(items, k + 1)
    }
}

/// The comma-separated renderings of the fields from index `k` on, each
/// a quoted key, a colon and the value.
pub open spec fn render_fields(fields: Seq<(Seq<char>, ValModel)>, k: int) -> Seq<u8>
    decreases fields, 1int, fields.len() - k,
{
    if k < 0 || k >= fields.len() {
        Seq::empty()
    } else if k == fields.len() - 1 {
        render_string(fields[k].0) + seq![58u8] + spec_render(fields[k].1)
    } else {
        render_string(fields[k].0) + seq![58u8] + spec_render(fields[k].1) + seq![44u8]
            + render_fields(fields, k + 1)
    }
}

/// A byte that the string escaping writes through unchanged.
pub open spec fn plain_byte(b: u8) -> bool {
    b >= 32 && b != 34 && b != 92
}

/// Escaping a sequence of plain bytes leaves it unchanged.
pub proof fn lemma_escape_plain(s: Seq<u8>)
    requires
        forall|i: int| 0 <= i < s.len() ==> plain_byte(#[trigger] s[i]),
    ensures
        escape_bytes(s) == s,
    decreases s.len(),
{
    if s.len() > 0 {
        assert forall|i: int| 0 <= i < s.drop_first().len() implies plain_byte(
            #[trigger] s.drop_first()[i],
        ) by {
            assert(s.drop_first()[i] == s[i + 1]);
        }
        lemma_escape_plain(s.drop_first());
        assert(escape_byte(s[0]) =~= seq![s[0]]);
        assert(escape_bytes(s) =~= s);
    }
}

/// Rendering fields ignores the entries before the start index.
pub proof fn lemma_render_fields_congruent(
    s1: Seq<(Seq<char>, crate::jsonval::ValModel)>,
    s2: Seq<(Seq<char>, crate::jsonval::ValModel)>,
    k: int,
)
    requires
        s1.len() == s2.len(),
        forall|j: int| k <= j < s1.len() ==> #[trigger] s1[j] == s2[j],
    ensures
        render_fields(s1, k) == render_fields(s2, k),
    decreases s1.len() - k,
{
    if 0 <= k < s1.len() {
        lemma_render_fields_congruent(s1, s2, k + 1);
    }
}

fn render_u64(n: u64, out: &mut Vec<u8>)
    ensures
        final(out)@ == old(out)@ + dec_digits(n as int),
    decreases n,
{
    if n < 10 {
        out.push(48 + n as u8);
        proof {
            assert(final(out)@ =~= old(out)@ + dec_digits(n as int));
        }
    } else {
        render_u64(n / 10, out);
        out.push(48 + (n % 10) as u8);
        proof {
            assert(final(out)@ =~= old(out)@ + dec_digits(n as int));
        }
    }
}

fn render_i64(i: i64, out: &mut Vec<u8>)
    ensures
        final(out)@ == old(out)@ + render_int(i as int),
{
    if i < 0 {
        out.push(45);
        let mag: u64 = ((-(i + 1)) as u64) + 1;
        assert(mag as int == -(i as int));
        render_u64(mag, out);
        proof {
            assert(final(out)@ =~= old(out)@ + render_int(i as int));
        }
    } else {
        render_u64(i as u64, out);
    }
}

fn render_str(s: &str, out: &mut Vec<u8>)
    ensures
        final(out)@ == old(out)@ + render_string(s@),
{
    let bytes = s.as_bytes();
    out.push(34);
    let n = bytes.len();
    let mut k: usize = 0;
    while k < n
        invariant
            n == bytes@.len(),
            k <= n,
            bytes@ == encode_utf8(s@),
            out@ == old(out)@ + seq![34u8] + escape_bytes(bytes@.take(k as int)),
        decreases n - k,
    {
        let b = bytes[k];
        proof {
            assert(bytes@.take(k as int + 1) =~= bytes@.take(k as int) + seq![bytes@[
                k as int]]);
            lemma_escape_bytes_concat(bytes@.take(k as int), seq![bytes@[k as int]]);
            assert(seq![bytes@[k as int]].drop_first() =~= Seq::<u8>::empty());
            assert(escape_bytes(Seq::<u8>::empty()) =~= Seq::<u8>::empty());
            assert(escape_bytes(seq![bytes@[k as int]]) =~= escape_byte(bytes@[k as int]));
        }
        if b == 34 {
            out.push(92);
            out.push(34);
        } else if b == 92 {
            out.push(92);
            out.push(92);
        } else if b < 32 {
            out.push(92);
            out.push(117);
            out.push(48);
            out.push(48);
            let hi = b / 16;
            let lo = b % 16;
            out.push(if hi < 10 { 48 + hi } else { 87 + hi });
            out.push(if lo < 10 { 48 + lo } else { 87 + lo });
        } else {
            out.push(b);
        }
        proof {
            assert(out@ =~= old(out)@ + seq![34u8] + escape_bytes(bytes@.take(k as int + 1)));
        }
        k = k + 1;
    }
    out.push(34);
    proof {
        assert(bytes@.take(n as int) =~= bytes@);
        assert(final(out)@ =~= old(out)@ + render_string(s@));
    }
}

/// Appends the canonical rendering of `v` to `out`.
pub fn render_val(v: &Val, out: &mut Vec<u8>)
    ensures
        final(out)@ == old(out)@ + spec_render(v@),
    decreases v, 0int,
{
    match v {
        Val::Null => {
            out.push(110);
            out.push(117);
            out.push(108);
            out.push(108);
            proof {
                assert(final(out)@ =~= old(out)@ + spec_render(v@));
            }
        },
        Val::Bool(b) => {
            if *b {
                out.push(116);
                out.push(114);
                out.push(117);
                out.push(101);
            } else {
                out.push(102);
                out.push(97);
                out.push(108);
                out.push(115);
                out.push(101);
            }
            proof {
                assert(final(out)@ =~= old(out)@ + spec_render(v@));
            }
        },
        Val::Int(i) => {
            render_i64(*i, out);
        },
        Val::Str(s) => {
            render_str(s.as_str(), out);
        },
        Val::Arr(items) => {
            out.push(91);
            render_items_exec(items, 0, out);
            out.push(93);
            proof {
                assert(final(out)@ =~= old(out)@ + spec_render(v@));
            }
        },
        Val::Obj(fields) => {
            out.push(123);
            render_fields_exec(fields, 0, out);
            out.push(125);
            proof {
                assert(final(out)@ =~= old(out)@ + spec_render(v@));
            }
        },
    }
}

fn render_items_exec(items: &Vec<Val>, k: usize, out: &mut Vec<u8>)
    requires
        k <= items@.len(),
    ensures
        final(out)@ == old(out)@ + render_items(val_models(items@), k as int),
    decreases items, 1int, items@.len() - k,
{
    proof {
        lemma_val_models_len(items@);
    }
    if k < items.len() {
        proof {
            lemma_val_models_index(items@, k as int);
        }
        render_val(&items[k], out);
        if k + 1 < items.len() {
            out.push(44);
            render_items_exec(items, k + 1, out);
            proof {
                assert(final(out)@ =~= old(out)@ + render_items(
                    val_models(items@),
                    k as int,
                ));
            }
        } else {
            proof {
                assert(final(out)@ =~= old(out)@ + render_items(
                    val_models(items@),
                    k as int,
                ));
            }
        }
    } else {
        proof {
            assert(final(out)@ =~= old(out)@ + render_items(val_models(items@), k as int));
        }
    }
}

fn render_fields_exec(fields: &Vec<(String, Val)>, k: usize, out: &mut Vec<u8>)
    requires
        k <= fields@.len(),
    ensures
        final(out)@ == old(out)@ + render_fields(field_models(fields@), k as int),
    decreases fields, 1int, fields@.len() - k,
{
    proof {
        lemma_field_models_len(fields@);
    }
    if k < fields.len() {
        proof {
            lemma_field_models_index(fields@, k as int);
        }
        let pair = &fields[k];
        render_str(pair.0.as_str(), out);
        out.push(58);
        render_val(&pair.1, out);
        if k + 1 < fields.len() {
            out.push(44);
            render_fields_exec(fields, k + 1, out);
            proof {
                assert(final(out)@ =~= old(out)@ + render_fields(
                    field_models(fields@),
                    k as int,
                ));
            }
        } else {
            proof {
                assert(final(out)@ =~= old(out)@ + render_fields(
                    field_models(fields@),
                    k as int,
                ));
            }
        }
    } else {
        proof {
            assert(final(out)@ =~= old(out)@ + render_fields(
                field_models(fields@),
                k as int,
            ));
        }
    }
}

/// The canonical rendering of a value, as a fresh byte vector.
pub fn render_to_bytes(v: &Val) -> (out: Vec<u8>)
    ensures
        out@ == spec_render(v@),
{
    let mut out: Vec<u8> = Vec::new();
    render_val(v, &mut out);
    proof {
        assert(out@ =~= spec_render(v@));
    }
    out
}

} // verus!
