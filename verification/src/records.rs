//! The document record format: one JSON object per input line, with a string
//! field `id` for the canonical identifier and an optional string field
//! `text` for the body (empty when absent). A line that does not parse is
//! not a record; the build skips it.

use vstd::prelude::*;

verus! {

/// The member list of `line` read as one JSON object whose values are all
/// strings: `Some` of the (key, value) pairs, each key once and the keys in
/// ascending order, or `None` when `line` is not such an object.
pub uninterp spec fn json_object_fields(line: Seq<char>) -> Option<Seq<(Seq<char>, Seq<char>)>>;

/// Relies on serde_json::from_str deserializing into a
/// std::collections::BTreeMap<String, String>: it succeeds exactly on one
/// JSON object whose member values are all strings, and the map iterates
/// its entries in ascending key order. The outcome is a pure function of
/// the input text.
#[verifier::external_body]
fn parse_string_object(line: &str) -> (r: Option<Vec<(String, String)>>)
    ensures
        (r matches Some(v) ==> json_object_fields(line@) == Some(
            v@.map_values(|p: (String, String)| (p.0@, p.1@)),
        )),
        (r is None ==> json_object_fields(line@) is None),
{
    match serde_json::from_str::<std::collections::BTreeMap<String, String>>(line) {
        Ok(m) => Some(m.into_iter().collect()),
        Err(_) => None,
    }
}

/// The value under `key` in a field list: the first pair whose key matches.
pub open spec fn field_value(fields: Seq<(Seq<char>, Seq<char>)>, key: Seq<char>) -> Option<
    Seq<char>,
>
    decreases fields.len(),
{
    if fields.len() == 0 {
        None
    } else if fields[0].0 == key {
        Some(fields[0].1)
    } else {
        field_value(fields.skip(1), key)
    }
}

/// The canonical-identifier key.
pub open spec fn id_key() -> Seq<char> {
    seq!['i', 'd']
}

/// The text-body key.
pub open spec fn text_key() -> Seq<char> {
    seq!['t', 'e', 'x', 't']
}

/// What one input line contributes to the corpus: `Some((id, text))` when
/// the line is a JSON object of string fields among which `id` occurs, with
/// `text` defaulting to empty when absent; `None` for a malformed line.
pub open spec fn record_of(line: Seq<char>) -> Option<(Seq<char>, Seq<char>)> {
    match json_object_fields(line) {
        None => None,
        Some(fields) => match field_value(fields, id_key()) {
            None => None,
            Some(id) => Some(
                (
                    id,
                    match field_value(fields, text_key()) {
                        None => Seq::empty(),
                        Some(t) => t,
                    },
                ),
            ),
        },
    }
}

/// The view of an executable field list.
pub open spec fn fields_view(fields: Seq<(String, String)>) -> Seq<(Seq<char>, Seq<char>)> {
    fields.map_values(|p: (String, String)| (p.0@, p.1@))
}

/// Skipping pairs whose keys do not match leaves the looked-up value alone.
proof fn lemma_field_value_skip(fields: Seq<(Seq<char>, Seq<char>)>, key: Seq<char>, i: int)
    requires
        0 <= i <= fields.len(),
        forall|m: int| 0 <= m < i ==> (#[trigger] fields[m]).0 != key,
    ensures
        field_value(fields, key) == field_value(fields.skip(i), key),
    decreases i,
{
    if i == 0 {
        assert(fields.skip(0) =~= fields);
    } else {
        lemma_field_value_skip(fields.skip(1), key, i - 1);
        assert(fields.skip(1).skip(i - 1) =~= fields.skip(i));
    }
}

/// Character-by-character string equality.
fn str_eq(a: &str, b: &str) -> (r: bool)
    ensures
        r == (a@ == b@),
{
    let n = a.unicode_len();
    let m = b.unicode_len();
    if n != m {
        return false;
    }
    let mut i: usize = 0;
    while i < n
        invariant
            n == a@.len(),
            n == b@.len(),
            i <= n,
            forall|k: int| 0 <= k < i ==> a@[k] == b@[k],
        decreases n - i,
    {
        if a.get_char(i) != b.get_char(i) {
            return false;
        }
        i += 1;
    }
    proof {
        assert(a@ =~= b@);
    }
    true
}

/// Looks `key` up in a parsed field list.
fn find_field(fields: &Vec<(String, String)>, key: &str) -> (r: Option<String>)
    ensures
        (r matches Some(v) ==> field_value(fields_view(fields@), key@) == Some(v@)),
        (r is None ==> field_value(fields_view(fields@), key@) is None),
{
    let ghost fv = fields_view(fields@);
    let mut i: usize = 0;
    while i < fields.len()
        invariant
            i <= fields@.len(),
            fv == fields_view(fields@),
            forall|m: int| 0 <= m < i ==> (#[trigger] fv[m]).0 != key@,
        decreases fields@.len() - i,
    {
        if str_eq(fields[i].0.as_str(), key) {
            proof {
                lemma_field_value_skip(fv, key@, i as int);
                assert(fv.skip(i as int)[0] == fv[i as int]);
            }
            return Some(fields[i].1.clone());
        }
        i += 1;
    }
    proof {
        lemma_field_value_skip(fv, key@, fields@.len() as int);
        assert(fv.skip(fv.len() as int) =~= Seq::<(Seq<char>, Seq<char>)>::empty());
    }
    None
}

/// Parses one line into a document record, or `None` for a malformed line.
pub fn parse_record(line: &str) -> (r: Option<(String, String)>)
    ensures
        (r matches Some(d) ==> record_of(line@) == Some((d.0@, d.1@))),
        (r is None ==> record_of(line@) is None),
{
    let fields = match parse_string_object(line) {
        None => {
            return None;
        },
        Some(f) => f,
    };
    proof {
        reveal_strlit("id");
        reveal_strlit("text");
        assert("id"@ =~= id_key());
        assert("text"@ =~= text_key());
    }
    let id = match find_field(&fields, "id") {
        None => {
            return None;
        },
        Some(v) => v,
    };
    let text = match find_field(&fields, "text") {
        None => String::new(),
        Some(v) => v,
    };
    Some((id, text))
}

/// The corpus a sequence of input lines yields: the records of the lines
/// that parse, in arrival order; malformed lines contribute nothing.
pub open spec fn docs_of(lines: Seq<Seq<char>>) -> Seq<(Seq<char>, Seq<char>)>
    decreases lines.len(),
{
    if lines.len() == 0 {
        Seq::empty()
    } else {
        match record_of(lines.last()) {
            None => docs_of(lines.drop_last()),
            Some(d) => docs_of(lines.drop_last()).push(d),
        }
    }
}

/// At most one document per input line.
pub proof fn lemma_docs_of_len(lines: Seq<Seq<char>>)
    ensures
        docs_of(lines).len() <= lines.len(),
    decreases lines.len(),
{
    if lines.len() == 0 {
    } else {
        lemma_docs_of_len(lines.drop_last());
    }
}

} // verus!
