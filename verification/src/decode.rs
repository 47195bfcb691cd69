//! Ingestion: decoding each channel's export file (a JSON array of
//! message records) into the corpus, and the fan-in that concatenates the
//! per-file results. Parsing goes through serde_json behind trusted
//! declarations; everything read out of a parsed document is modelled by
//! named functions of the document, so decoding itself is verified.
use vstd::prelude::*;

use crate::text::{contains_chars, contains_sub, str_chars};
use crate::{Message, MessageView};

verus! {

#[verifier::external_type_specification]
#[verifier::external_body]
pub struct ExValue(serde_json::Value);

#[verifier::external_type_specification]
#[verifier::external_body]
pub struct ExJsonError(serde_json::Error);

// --- names for what serde_json computes ---

/// What `serde_json::from_str::<Value>` returns for a given text: the
/// parsed document exactly when the text is well-formed JSON.
pub uninterp spec fn json_doc(s: Seq<char>) -> Option<serde_json::Value>;

/// What `serde_json::Value::as_array` returns: the element sequence of an
/// array value, nothing for any other value.
pub uninterp spec fn arr_of(v: serde_json::Value) -> Option<Seq<serde_json::Value>>;

/// What `serde_json::Value::get` returns for a string key: the named
/// field of an object value.
pub uninterp spec fn field_of(v: serde_json::Value, key: Seq<char>) -> Option<serde_json::Value>;

/// What `serde_json::Value::as_u64` returns: the content of an integral
/// number value that fits an unsigned 64-bit integer.
pub uninterp spec fn u64_of(v: serde_json::Value) -> Option<u64>;

/// What `serde_json::Value::as_str` returns: the text of a string value.
pub uninterp spec fn str_of(v: serde_json::Value) -> Option<Seq<char>>;

// --- the trusted calls ---

/// Relies on serde_json::from_str: parses the text as one JSON document;
/// the outcome is a function of the text alone.
#[verifier::external_body]
fn parse_json(s: &str) -> (r: Result<serde_json::Value, serde_json::Error>)
    ensures
        match r {
            Ok(v) => json_doc(s@) == Some(v),
            Err(_) => json_doc(s@) is None,
        },
{
    serde_json::from_str::<serde_json::Value>(s)
}

/// Relies on serde_json::Value::as_array: the elements when the value is
/// an array, nothing otherwise.
#[verifier::external_body]
fn value_as_array(v: &serde_json::Value) -> (r: Option<&Vec<serde_json::Value>>)
    ensures
        match r {
            Some(a) => arr_of(*v) == Some(a@),
            None => arr_of(*v) is None,
        },
{
    v.as_array()
}

/// Relies on serde_json::Value::get: the named field when the value is an
/// object holding that key, nothing otherwise.
#[verifier::external_body]
fn value_get<'a>(v: &'a serde_json::Value, key: &str) -> (r: Option<&'a serde_json::Value>)
    ensures
        match r {
            Some(f) => field_of(*v, key@) == Some(*f),
            None => field_of(*v, key@) is None,
        },
{
    v.get(key)
}

/// Relies on serde_json::Value::as_u64: the number when the value is an
/// integer representable as u64, nothing otherwise.
#[verifier::external_body]
fn value_as_u64(v: &serde_json::Value) -> (r: Option<u64>)
    ensures
        r == u64_of(*v),
{
    v.as_u64()
}

/// Relies on serde_json::Value::as_str: the text when the value is a
/// string, nothing otherwise.
#[verifier::external_body]
fn value_as_str<'a>(v: &'a serde_json::Value) -> (r: Option<&'a str>)
    ensures
        match r {
            Some(s) => str_of(*v) == Some(s@),
            None => str_of(*v) is None,
        },
{
    v.as_str()
}

// --- the decoded shape ---

/// Why ingestion rejected a file; any of these aborts the whole load.
#[derive(PartialEq, Eq, Structural, Clone, Copy, Debug)]
pub enum DecodeError {
    /// The file's text is not well-formed JSON.
    MalformedJson,
    /// The document is not a JSON array.
    NotAnArray,
    /// An element lacks a required field, or a field has the wrong type.
    InvalidRecord,
}

/// The message a record value denotes, when the four required fields are
/// present with the right types.
pub open spec fn record_of(v: serde_json::Value) -> Option<MessageView> {
    if field_of(v, "ID"@) is Some && u64_of(field_of(v, "ID"@)->Some_0) is Some && field_of(
        v,
        "Timestamp"@,
    ) is Some && str_of(field_of(v, "Timestamp"@)->Some_0) is Some && field_of(
        v,
        "Contents"@,
    ) is Some && str_of(field_of(v, "Contents"@)->Some_0) is Some && field_of(
        v,
        "Attachments"@,
    ) is Some && str_of(field_of(v, "Attachments"@)->Some_0) is Some {
        Some(
            MessageView {
                id: u64_of(field_of(v, "ID"@)->Some_0)->Some_0,
                timestamp: str_of(field_of(v, "Timestamp"@)->Some_0)->Some_0,
                contents: str_of(field_of(v, "Contents"@)->Some_0)->Some_0,
                attachments: str_of(field_of(v, "Attachments"@)->Some_0)->Some_0,
            },
        )
    } else {
        None
    }
}

/// What decoding one file's text denotes, as a function of the text: the
/// message sequence, or the reason the file was rejected.
pub open spec fn decode_spec(s: Seq<char>) -> Result<Seq<MessageView>, DecodeError> {
    if json_doc(s) is None {
        Err(DecodeError::MalformedJson)
    } else if arr_of(json_doc(s)->Some_0) is None {
        Err(DecodeError::NotAnArray)
    } else {
        let elems = arr_of(json_doc(s)->Some_0)->Some_0;
        if forall|i: int| 0 <= i < elems.len() ==> record_of(#[trigger] elems[i]) is Some {
            Ok(Seq::new(elems.len(), |i: int| record_of(elems[i])->Some_0))
        } else {
            Err(DecodeError::InvalidRecord)
        }
    }
}

/// Decodes one export file: a JSON array of records with the fields `ID`,
/// `Timestamp`, `Contents` and `Attachments`. A malformed file is
/// rejected whole; no partial corpus is produced.
pub fn decode_file(text: &str) -> (r: Result<Vec<Message>, DecodeError>)
    ensures
        match r {
            Ok(ms) => decode_spec(text@) is Ok && ms@.len() == decode_spec(text@)->Ok_0.len()
                && forall|i: int|
                0 <= i < ms@.len() ==> (#[trigger] ms@[i])@ == decode_spec(text@)->Ok_0[i],
            Err(e) => decode_spec(text@) == Err::<Seq<MessageView>, DecodeError>(e),
        },
{
    let doc = match parse_json(text) {
        Ok(v) => v,
        Err(_) => {
            return Err(DecodeError::MalformedJson);
        },
    };
    let elems = match value_as_array(&doc) {
        Some(a) => a,
        None => {
            return Err(DecodeError::NotAnArray);
        },
    };
    let mut out: Vec<Message> = Vec::new();
    let mut i: usize = 0;
    while i < elems.len()
        invariant
            i <= elems@.len(),
            json_doc(text@) == Some(doc),
            arr_of(doc) == Some(elems@),
            out@.len() == i,
            forall|j: int|
                0 <= j < i ==> record_of(#[trigger] elems@[j]) is Some && out@[j]@ == record_of(
                    elems@[j],
                )->Some_0,
        decreases elems@.len() - i,
    {
        let e = &elems[i];
        let id = match value_get(e, "ID") {
            Some(f) => match value_as_u64(f) {
                Some(x) => x,
                None => {
                    return Err(DecodeError::InvalidRecord);
                },
            },
            None => {
                return Err(DecodeError::InvalidRecord);
            },
        };
        let timestamp = match value_get(e, "Timestamp") {
            Some(f) => match value_as_str(f) {
                Some(x) => x.to_owned(),
                None => {
                    return Err(DecodeError::InvalidRecord);
                },
            },
            None => {
                return Err(DecodeError::InvalidRecord);
            },
        };
        let contents = match value_get(e, "Contents") {
            Some(f) => match value_as_str(f) {
                Some(x) => x.to_owned(),
                None => {
                    return Err(DecodeError::InvalidRecord);
                },
            },
            None => {
                return Err(DecodeError::InvalidRecord);
            },
        };
        let attachments = match value_get(e, "Attachments") {
            Some(f) => match value_as_str(f) {
                Some(x) => x.to_owned(),
                None => {
                    return Err(DecodeError::InvalidRecord);
                },
            },
            None => {
                return Err(DecodeError::InvalidRecord);
            },
        };
        out.push(Message { id, timestamp, contents, attachments });
        i = i + 1;
    }
    proof {
        assert(decode_spec(text@) is Ok);
        assert forall|j: int| 0 <= j < out@.len() implies (#[trigger] out@[j])@ == decode_spec(
            text@,
        )->Ok_0[j] by {
            assert(decode_spec(text@)->Ok_0[j] == record_of(elems@[j])->Some_0);
        }
    }
    Ok(out)
}

// --- the fan-in over files ---

/// What decoding a list of file texts denotes: the concatenation of the
/// per-file corpora in file order, or the first file's rejection.
pub open spec fn corpus_spec(texts: Seq<Seq<char>>) -> Result<Seq<MessageView>, DecodeError>
    decreases texts.len(),
{
    if texts.len() == 0 {
        Ok(Seq::empty())
    } else {
        match corpus_spec(texts.drop_last()) {
            Err(e) => Err(e),
            Ok(init) => match decode_spec(texts.last()) {
                Err(e) => Err(e),
                Ok(tail) => Ok(init + tail),
            },
        }
    }
}

/// A rejected prefix rejects the whole list, with the same reason.
proof fn lemma_corpus_err_persists(texts: Seq<Seq<char>>, m: int)
    requires
        0 <= m <= texts.len(),
        corpus_spec(texts.take(m)) is Err,
    ensures
        corpus_spec(texts) == corpus_spec(texts.take(m)),
    decreases texts.len() - m,
{
    if m == texts.len() {
        assert(texts.take(m) =~= texts);
    } else {
        assert(texts.take(m + 1).drop_last() =~= texts.take(m));
        lemma_corpus_err_persists(texts, m + 1);
    }
}

/// Decodes every file and concatenates the results in file order; the
/// first malformed file aborts the whole load with its reason, and no
/// partial corpus is produced.
pub fn build_corpus(texts: &Vec<String>) -> (r: Result<Vec<Message>, DecodeError>)
    ensures
        match r {
            Ok(ms) => corpus_spec(texts@.map_values(|t: String| t@)) is Ok && ms@.len()
                == corpus_spec(texts@.map_values(|t: String| t@))->Ok_0.len() && forall|i: int|
                0 <= i < ms@.len() ==> (#[trigger] ms@[i])@ == corpus_spec(
                    texts@.map_values(|t: String| t@),
                )->Ok_0[i],
            Err(e) => corpus_spec(texts@.map_values(|t: String| t@)) == Err::<
                Seq<MessageView>,
                DecodeError,
            >(e),
        },
{
    let ghost tv = texts@.map_values(|t: String| t@);
    let mut out: Vec<Message> = Vec::new();
    let mut i: usize = 0;
    proof {
        assert(tv.take(0) =~= Seq::<Seq<char>>::empty());
    }
    while i < texts.len()
        invariant
            i <= texts@.len(),
            tv == texts@.map_values(|t: String| t@),
            corpus_spec(tv.take(i as int)) is Ok,
            out@.len() == corpus_spec(tv.take(i as int))->Ok_0.len(),
            forall|j: int|
                0 <= j < out@.len() ==> (#[trigger] out@[j])@ == corpus_spec(
                    tv.take(i as int),
                )->Ok_0[j],
        decreases texts@.len() - i,
    {
        proof {
            assert(tv.take(i as int + 1).drop_last() =~= tv.take(i as int));
            assert(tv.take(i as int + 1).last() == tv[i as int]);
            assert(tv[i as int] == texts@[i as int]@);
        }
        let mut part = match decode_file(texts[i].as_str()) {
            Ok(p) => p,
            Err(e) => {
                proof {
                    assert(corpus_spec(tv.take(i as int + 1)) == Err::<
                        Seq<MessageView>,
                        DecodeError,
                    >(e));
                    lemma_corpus_err_persists(tv, i as int + 1);
                }
                return Err(e);
            },
        };
        let ghost old_out = out@;
        let ghost part_v = part@;
        out.append(&mut part);
        proof {
            assert(out@ == old_out + part_v);
        }
        i = i + 1;
    }
    proof {
        assert(tv.take(tv.len() as int) =~= tv);
    }
    Ok(out)
}

/// The per-file corpora, concatenated in file order.
pub open spec fn flatten_corpora(parts: Seq<Seq<Message>>) -> Seq<Message>
    decreases parts.len(),
{
    if parts.len() == 0 {
        Seq::empty()
    } else {
        flatten_corpora(parts.drop_last()) + parts.last()
    }
}

/// Concatenates per-file corpora in file order: the single-threaded
/// fan-in after the files were decoded independently.
pub fn merge_corpora(parts: Vec<Vec<Message>>) -> (r: Vec<Message>)
    ensures
        r@ == flatten_corpora(parts@.map_values(|p: Vec<Message>| p@)),
{
    let ghost pv = parts@.map_values(|p: Vec<Message>| p@);
    let mut r: Vec<Message> = Vec::new();
    let mut i: usize = 0;
    proof {
        assert(pv.take(0) =~= Seq::<Seq<Message>>::empty());
    }
    while i < parts.len()
        invariant
            i <= parts@.len(),
            pv == parts@.map_values(|p: Vec<Message>| p@),
            r@ == flatten_corpora(pv.take(i as int)),
        decreases parts@.len() - i,
    {
        let ghost old_r = r@;
        let mut part = crate::search::clone_messages(&parts[i]);
        r.append(&mut part);
        proof {
            assert(pv.take(i as int + 1).drop_last() =~= pv.take(i as int));
            assert(pv.take(i as int + 1).last() == pv[i as int]);
            assert(pv[i as int] == parts@[i as int]@);
            assert(r@ == old_r + parts@[i as int]@);
        }
        i = i + 1;
    }
    proof {
        assert(pv.take(pv.len() as int) =~= pv);
    }
    r
}

// --- locating export files ---

/// Whether a file name marks a channel's message-export file.
pub fn file_name_matches(name: &str) -> (r: bool)
    ensures
        r == contains_sub(name@, "messages.json"@),
{
    let nc = str_chars(name);
    let marker = str_chars("messages.json");
    contains_chars(&nc, &marker)
}

} // verus!
