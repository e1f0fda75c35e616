//! Documents and their byte encoding.
//!
//! A document is a string id with a JSON-object body.  On a page it is
//! stored as the canonical JSON text of the body with the id injected
//! under `_id`, wrapped in a little-endian 64-bit length prefix.  The
//! round trip through [`Serializer::serialize`] and
//! [`Serializer::deserialize`] is proved exact in
//! [`lemma_doc_round_trip`].

use vstd::prelude::*;
use vstd::bytes::{spec_u64_to_le_bytes, spec_u64_from_le_bytes, u64_to_le_bytes,
    u64_from_le_bytes, lemma_auto_spec_u64_to_from_le_bytes};
use vstd::slice::{slice_subrange, slice_to_vec};
use crate::error::KeraDBError;
use crate::jsonval::{Val, ValModel, val_model, obj_get, obj_remove, model_wf};
use crate::jsontext::{spec_render, render_to_bytes};
use crate::jsonparse::{parse_document, parse_document_bytes};
use crate::outside::fresh_document_id;

verus! {

/// A document: its id and its JSON-object body.
#[derive(Debug)]
pub struct Document {
    pub id: String,
    pub data: Val,
}

impl Document {
    /// A document with a freshly generated id.
    pub fn new(data: Val) -> (r: Document)
        ensures
            r.data@ == data@,
            r.id@.len() == 36,
    {
        let id = fresh_document_id();
        Document { id, data }
    }

    /// A document with the given id.
    pub fn with_id(id: String, data: Val) -> (r: Document)
        ensures
            r.id@ == id@,
            r.data@ == data@,
    {
        Document { id, data }
    }

    /// A field of the document: `_id` reads the id, anything else reads
    /// the body.
    pub fn get(&self, field: &str) -> (r: Option<Val>)
        ensures
            field@ == "_id"@ ==> (r matches Option::Some(v) && v@ == ValModel::Str(
                self.id@,
            )),
            field@ != "_id"@ ==> (match r {
                Option::Some(v) => crate::jsonval::val_get(self.data@, field@)
                    == Option::Some(v@),
                Option::None => crate::jsonval::val_get(self.data@, field@) is None,
            }),
    {
        if crate::strutil::str_eq(field, "_id") {
            Option::Some(Val::Str(self.id.clone()))
        } else {
            match self.data.get(field) {
                Option::Some(v) => Option::Some(v.deep_clone()),
                Option::None => Option::None,
            }
        }
    }

    /// Sets a body field; the reserved `_id` is left alone, and a
    /// non-object body is unchanged.
    pub fn set(&mut self, field: &str, value: Val)
        ensures
            final(self).id == old(self).id,
            field@ == "_id"@ ==> final(self).data == old(self).data,
            field@ != "_id"@ ==> (match old(self).data@ {
                ValModel::Obj(fields) => final(self).data@ == ValModel::Obj(
                    crate::jsonval::obj_set(fields, field@, value@),
                ),
                _ => final(self).data@ == old(self).data@,
            }),
    {
        if !crate::strutil::str_eq(field, "_id") {
            self.data.set(field, value);
        }
    }

    /// The document as one value: the body with `_id` set to the id.
    pub fn to_value(&self) -> (r: Val)
        ensures
            match self.data@ {
                ValModel::Obj(fields) => r@ == ValModel::Obj(
                    crate::jsonval::obj_set(fields, "_id"@, ValModel::Str(self.id@)),
                ),
                _ => r@ == self.data@,
            },
    {
        let mut out = self.data.deep_clone();
        out.set("_id", Val::Str(self.id.clone()));
        out
    }
}

/// Whether a character is one a hyphenated UUID rendering can hold: a
/// hyphen or a lowercase hex digit.
pub open spec fn uuid_char(c: char) -> bool {
    c == '-' || ('0' <= c && c <= '9') || ('a' <= c && c <= 'f')
}

/// The shape of a freshly generated document id: 36 characters, each a
/// hyphen or a lowercase hex digit.
pub open spec fn uuid_shape(s: Seq<char>) -> bool {
    s.len() == 36 && forall|i: int| 0 <= i < 36 ==> uuid_char(#[trigger] s[i])
}

/// A fixed stand-in of the same shape, so that page-fit conditions can
/// be stated without naming the random id.
pub open spec fn sample_uuid_id() -> Seq<char> {
    Seq::new(36, |i: int| 'a')
}

/// Any two ids of UUID shape render to the same number of bytes, so
/// whether a document fits a page does not depend on which fresh id
/// was drawn.
pub proof fn lemma_uuid_id_same_len(
    id1: Seq<char>,
    id2: Seq<char>,
    fields: Seq<(Seq<char>, ValModel)>,
)
    requires
        uuid_shape(id1),
        uuid_shape(id2),
    ensures
        spec_serialize_doc(id1, fields).len() == spec_serialize_doc(id2, fields).len(),
{
    lemma_uuid_render_len(id1);
    lemma_uuid_render_len(id2);
    let wf1 = seq![("_id"@, ValModel::Str(id1))] + fields;
    let wf2 = seq![("_id"@, ValModel::Str(id2))] + fields;
    assert(wf1.len() == wf2.len());
    assert forall|j: int| 1 <= j < wf1.len() implies #[trigger] wf1[j] == wf2[j] by {
        assert(wf1[j] == fields[j - 1]);
        assert(wf2[j] == fields[j - 1]);
    }
    crate::jsontext::lemma_render_fields_congruent(wf1, wf2, 1);
    assert(wf1[0] == ("_id"@, ValModel::Str(id1)));
    assert(wf2[0] == ("_id"@, ValModel::Str(id2)));
    assert(spec_render(ValModel::Str(id1)) == crate::jsontext::render_string(id1));
    assert(spec_render(ValModel::Str(id2)) == crate::jsontext::render_string(id2));
    if wf1.len() == 1 {
        assert(crate::jsontext::render_fields(wf1, 0).len()
            == crate::jsontext::render_string("_id"@).len() + 1
            + crate::jsontext::render_string(id1).len());
        assert(crate::jsontext::render_fields(wf2, 0).len()
            == crate::jsontext::render_string("_id"@).len() + 1
            + crate::jsontext::render_string(id2).len());
    } else {
        assert(crate::jsontext::render_fields(wf1, 0).len()
            == crate::jsontext::render_string("_id"@).len() + 1
            + crate::jsontext::render_string(id1).len() + 1
            + crate::jsontext::render_fields(wf1, 1).len());
        assert(crate::jsontext::render_fields(wf2, 0).len()
            == crate::jsontext::render_string("_id"@).len() + 1
            + crate::jsontext::render_string(id2).len() + 1
            + crate::jsontext::render_fields(wf2, 1).len());
    }
    vstd::bytes::lemma_auto_spec_u64_to_from_le_bytes();
}

/// A UUID-shaped id renders as exactly its 36 bytes between quotes.
proof fn lemma_uuid_render_len(id: Seq<char>)
    requires
        uuid_shape(id),
    ensures
        crate::jsontext::render_string(id).len() == 38,
{
    assert(vstd::utf8::is_ascii_chars(id));
    vstd::utf8::is_ascii_chars_encode_utf8(id);
    let eb = vstd::utf8::encode_utf8(id);
    assert forall|i: int| 0 <= i < eb.len() implies crate::jsontext::plain_byte(
        #[trigger] eb[i],
    ) by {
        assert(id[i] as u8 == eb[i]);
        assert(uuid_char(id[i]));
    }
    crate::jsontext::lemma_escape_plain(eb);
}

/// The persisted JSON model of a document: the body's fields with the
/// id prepended under `_id`.
pub open spec fn doc_json_model(id: Seq<char>, fields: Seq<(Seq<char>, ValModel)>)
    -> ValModel {
    ValModel::Obj(seq![("_id"@, ValModel::Str(id))] + fields)
}

/// The byte encoding of a document whose body has the given fields.
pub open spec fn spec_serialize_doc(id: Seq<char>, fields: Seq<(Seq<char>, ValModel)>)
    -> Seq<u8> {
    let inner = spec_render(doc_json_model(id, fields));
    spec_u64_to_le_bytes(inner.len() as u64) + inner
}

/// What a byte string decodes to, if it is a well-framed document: the
/// length prefix must cover the remaining bytes exactly, the JSON text
/// must parse, and the parsed value must be an object whose `_id` is a
/// string.
pub open spec fn spec_deserialize_doc(bytes: Seq<u8>) -> Option<(Seq<char>, ValModel)> {
    if bytes.len() < 8 {
        Option::None
    } else {
        let n = spec_u64_from_le_bytes(bytes.subrange(0, 8));
        if bytes.len() != 8 + n {
            Option::None
        } else {
            match parse_document(bytes.skip(8)) {
                Option::Some(m) => match m {
                    ValModel::Obj(fields) => match obj_get(fields, "_id"@) {
                        Option::Some(idv) => match idv {
                            ValModel::Str(id) => Option::Some(
                                (id, ValModel::Obj(obj_remove(fields, "_id"@))),
                            ),
                            _ => Option::None,
                        },
                        Option::None => Option::None,
                    },
                    _ => Option::None,
                },
                Option::None => Option::None,
            }
        }
    }
}

/// The document codec.
pub struct Serializer;

impl Serializer {
    /// Encodes a document.  Fails exactly when the body is not an
    /// object; the encoding is the length-prefixed canonical JSON text
    /// with the id injected under `_id`.
    pub fn serialize(doc: &Document) -> (r: Result<Vec<u8>, KeraDBError>)
        ensures
            r is Ok <==> doc.data@ is Obj,
            match r {
                Result::Ok(bytes) => bytes@ == spec_serialize_doc(
                    doc.id@,
                    doc.data@->Obj_0,
                ),
                Result::Err(e) => e is Serialization,
            },
    {
        match &doc.data {
            Val::Obj(_) => {},
            _ => {
                return Result::Err(
                    KeraDBError::Serialization("document body must be an object".to_owned()),
                );
            },
        }
        let mut json = doc.data.deep_clone();
        // Prepend `_id`: set it (the body carries no `_id`; setting an
        // absent key appends, so move it to the front by rebuilding).
        let wrapped = match json {
            Val::Obj(fields) => {
                let mut out: Vec<(String, Val)> = Vec::new();
                out.push(("_id".to_owned(), Val::Str(doc.id.clone())));
                let mut k: usize = 0;
                let ghost gf = fields@;
                while k < fields.len()
                    invariant
                        k <= fields@.len(),
                        gf == fields@,
                        out@.len() == k + 1,
                        out@[0].0@ == "_id"@,
                        out@[0].1@ == ValModel::Str(doc.id@),
                        forall|j: int|
                            0 <= j < k ==> (#[trigger] out@[j + 1]).0@ == gf[j].0@
                                && val_model(out@[j + 1].1) == val_model(gf[j].1),
                    decreases fields@.len() - k,
                {
                    let pair = &fields[k];
                    let key = pair.0.clone();
                    let value = pair.1.deep_clone();
                    // A field-preserving move: the clone carries the
                    // same model, so rebuild with the original pair.
                    out.push((key, value));
                    proof {
                        crate::jsonval::lemma_field_models_index(gf, k as int);
                        crate::jsonval::lemma_field_models_index(out@, k as int + 1);
                    }
                    k = k + 1;
                }
                proof {
                    crate::jsonval::lemma_field_models_len(out@);
                    crate::jsonval::lemma_field_models_len(gf);
                    assert forall|j: int| 0 <= j < out@.len() implies #[trigger]
                        crate::jsonval::field_models(out@)[j] == (seq![
                        ("_id"@, ValModel::Str(doc.id@))] + crate::jsonval::field_models(
                        gf,
                    ))[j] by {
                        crate::jsonval::lemma_field_models_index(out@, j);
                        if j > 0 {
                            crate::jsonval::lemma_field_models_index(gf, j - 1);
                            assert(out@[(j - 1) + 1] == out@[j]);
                        }
                    }
                    assert(crate::jsonval::field_models(out@) =~= seq![
                        ("_id"@, ValModel::Str(doc.id@))] + crate::jsonval::field_models(
                        gf,
                    ));
                }
                Val::Obj(out)
            },
            _ => {
                return Result::Err(
                    KeraDBError::Serialization("document body must be an object".to_owned()),
                );
            },
        };
        proof {
            assert(wrapped@ == doc_json_model(doc.id@, doc.data@->Obj_0));
        }
        let inner = render_to_bytes(&wrapped);
        let mut out = u64_to_le_bytes(inner.len() as u64);
        let ghost head = out@;
        let mut k: usize = 0;
        let n = inner.len();
        while k < n
            invariant
                n == inner@.len(),
                k <= n,
                out@ == head + inner@.take(k as int),
            decreases n - k,
        {
            out.push(inner[k]);
            proof {
                assert(out@ =~= head + inner@.take(k as int + 1));
            }
            k = k + 1;
        }
        proof {
            assert(inner@.take(n as int) =~= inner@);
            assert(out@ =~= spec_serialize_doc(doc.id@, doc.data@->Obj_0));
        }
        Result::Ok(out)
    }

    /// Decodes a document from its byte encoding; agrees exactly with
    /// [`spec_deserialize_doc`].
    pub fn deserialize(bytes: &[u8]) -> (r: Result<Document, KeraDBError>)
        ensures
            match r {
                Result::Ok(doc) => spec_deserialize_doc(bytes@) == Option::Some(
                    (doc.id@, doc.data@),
                ),
                Result::Err(_) => spec_deserialize_doc(bytes@) is None,
            },
    {
        if bytes.len() < 8 {
            return Result::Err(
                KeraDBError::Serialization("document bytes too short".to_owned()),
            );
        }
        let n64 = u64_from_le_bytes(slice_subrange(bytes, 0, 8));
        if n64 != ((bytes.len() - 8) as u64) {
            proof {
                assert(bytes@.len() != 8 + spec_u64_from_le_bytes(bytes@.subrange(0, 8)));
            }
            return Result::Err(
                KeraDBError::Serialization("document length prefix is wrong".to_owned()),
            );
        }
        let inner = slice_subrange(bytes, 8, bytes.len());
        proof {
            assert(inner@ =~= bytes@.skip(8));
        }
        let mut parsed = match parse_document_bytes(inner) {
            Option::Some(v) => v,
            Option::None => {
                return Result::Err(
                    KeraDBError::Serialization("document text does not parse".to_owned()),
                );
            },
        };
        match &parsed {
            Val::Obj(_) => {},
            _ => {
                return Result::Err(
                    KeraDBError::Serialization("document is not an object".to_owned()),
                );
            },
        }
        let id = match parsed.get("_id") {
            Option::Some(v) => match v {
                Val::Str(s) => s.clone(),
                _ => {
                    return Result::Err(
                        KeraDBError::Serialization("document id is not a string".to_owned()),
                    );
                },
            },
            Option::None => {
                return Result::Err(
                    KeraDBError::Serialization("document has no id".to_owned()),
                );
            },
        };
        parsed.remove_key("_id");
        Result::Ok(Document { id, data: parsed })
    }
}

/// Serializing a document and deserializing the bytes yields the same
/// id and body, for any well-formed object body without an `_id` field.
pub proof fn lemma_doc_round_trip(id: Seq<char>, fields: Seq<(Seq<char>, ValModel)>)
    requires
        model_wf(ValModel::Obj(fields)),
        obj_get(fields, "_id"@) is None,
        spec_render(doc_json_model(id, fields)).len() <= u64::MAX,
    ensures
        spec_deserialize_doc(spec_serialize_doc(id, fields)) == Option::Some(
            (id, ValModel::Obj(fields)),
        ),
{
    let m = doc_json_model(id, fields);
    let wf = seq![("_id"@, ValModel::Str(id))] + fields;
    crate::jsonval::lemma_obj_wf_parts(ValModel::Obj(fields), fields);
    lemma_no_key_means_all_differ(fields, "_id"@);
    assert(model_wf(m)) by {
        assert forall|i: int| 0 <= i < wf.len() implies model_wf((#[trigger] wf[i]).1) by {
            if i > 0 {
                assert(wf[i] == fields[i - 1]);
                assert(model_wf(fields[i - 1].1));
            } else {
                assert(wf[0].1 == ValModel::Str(id));
            }
        }
        assert forall|i: int, j: int| 0 <= i < j < wf.len() implies (#[trigger] wf[i]).0
            != (#[trigger] wf[j]).0 by {
            if i == 0 {
                assert(wf[j] == fields[j - 1]);
            } else {
                assert(wf[i] == fields[i - 1]);
                assert(wf[j] == fields[j - 1]);
            }
        }
        crate::jsonval::lemma_obj_wf_whole(m, wf);
    }
    crate::jsonround::lemma_parse_document_render(m);
    let inner = spec_render(m);
    let whole = spec_serialize_doc(id, fields);
    lemma_auto_spec_u64_to_from_le_bytes();
    assert(whole.subrange(0, 8) =~= spec_u64_to_le_bytes(inner.len() as u64));
    assert(whole.skip(8) =~= inner);
    assert(obj_get(wf, "_id"@) == Option::Some(ValModel::Str(id)));
    assert(obj_remove(wf, "_id"@) =~= fields);
}

/// If no entry has the key, every entry's key differs from it.
proof fn lemma_no_key_means_all_differ(fields: Seq<(Seq<char>, ValModel)>, key: Seq<char>)
    requires
        obj_get(fields, key) is None,
    ensures
        forall|i: int| 0 <= i < fields.len() ==> (#[trigger] fields[i]).0 != key,
    decreases fields.len(),
{
    if fields.len() > 0 {
        lemma_no_key_means_all_differ(fields.drop_first(), key);
        assert forall|i: int| 0 <= i < fields.len() implies (#[trigger] fields[i]).0
            != key by {
            if i > 0 {
                assert(fields[i] == fields.drop_first()[i - 1]);
            }
        }
    }
}

} // verus!
