//! Assembling one row into a document.
use vstd::prelude::*;
use crate::model::{
    Node, merge, has_key, key_index, upsert, assemble, lemma_key_index,
    well_formed, lemma_well_formed_parts,
};
use crate::laws::{law_document_well_formed, lemma_split_well_formed};
use crate::value::{Value, entries_view};
use crate::merge::{find_key, merge_values};
use crate::path::{dimensional_converter, separator_view};

verus! {

/// A row whose number of cells differs from the number of headers.
#[derive(Debug, Clone, Copy, PartialEq, Eq)]
pub struct ShapeMismatch {
    pub headers: usize,
    pub cells: usize,
}

/// The texts that a list of strings holds.
pub open spec fn texts(v: Seq<String>) -> Seq<Seq<char>> {
    v.map_values(|s: String| s@)
}

/// The value to store under `key` when `data` arrives for it: `data`
/// itself if `entries` has no entry named `key`, else the merge of that
/// entry's value with `data`.
pub fn prepare_upsert(entries: &Vec<(String, Value)>, key: &String, data: Value) -> (r: Value)
    requires
        well_formed(Node::Object(entries_view(entries@))),
        well_formed(data@),
    ensures
        r@ == (if has_key(entries_view(entries@), key@) {
            merge(entries_view(entries@)[key_index(entries_view(entries@), key@)].1, data@)
        } else {
            data@
        }),
{
    match find_key(entries, key) {
        Some(i) => {
            proof {
                lemma_key_index(entries_view(entries@), key@, i as int);
                lemma_well_formed_parts(Node::Object(entries_view(entries@)));
            }
            merge_values(&entries[i].1, &data)
        },
        None => data,
    }
}

/// Adds the field `(key, data)` to the entries of a document under
/// construction: merged into the entry named `key` if there is one, else
/// appended.
pub fn upsert_entry(entries: &mut Vec<(String, Value)>, key: String, data: Value)
    requires
        well_formed(Node::Object(entries_view(old(entries)@))),
        well_formed(data@),
    ensures
        entries_view(final(entries)@) == upsert(entries_view(old(entries)@), key@, data@),
{
    let ghost ev = entries_view(entries@);
    let stored = prepare_upsert(entries, &key, data);
    match find_key(entries, &key) {
        Some(i) => {
            proof {
                lemma_key_index(ev, key@, i as int);
            }
            let ghost kv = (key@, stored@);
            entries[i] = (key, stored);
            assert(entries_view(entries@) =~= ev.update(i as int, kv));
        },
        None => {
            let ghost kv = (key@, stored@);
            entries.push((key, stored));
            assert(entries_view(entries@) =~= ev.push(kv));
        },
    }
}

/// The document for one row: each header is split with the separator `ds`
/// and its cell added in order, fields that land on the same key being
/// merged.  A row with a different number of cells than there are headers
/// is refused.  The headers are only read, and the document owns all of its
/// parts, so documents of different rows share nothing.
pub fn row_to_object(headers: &Vec<String>, row: Vec<String>, ds: Option<&str>) -> (r: Result<
    Value,
    ShapeMismatch,
>)
    ensures
        r is Err <==> headers@.len() != row@.len(),
        r matches Err(e) ==> e.headers == headers@.len() && e.cells == row@.len(),
        r matches Ok(d) ==> d@ == Node::Object(
            assemble(texts(headers@), texts(row@), separator_view(ds), headers@.len()),
        ),
{
    if headers.len() != row.len() {
        return Err(ShapeMismatch { headers: headers.len(), cells: row.len() });
    }
    let ghost hv = texts(headers@);
    let ghost rv = texts(row@);
    let mut entries: Vec<(String, Value)> = Vec::new();
    let mut i: usize = 0;
    assert(entries_view(entries@) =~= Seq::empty());
    while i < headers.len()
        invariant
            hv == texts(headers@),
            rv == texts(row@),
            headers@.len() == row@.len(),
            i <= headers@.len(),
            entries_view(entries@) == assemble(hv, rv, separator_view(ds), i as nat),
        decreases headers@.len() - i,
    {
        let (key, value) = dimensional_converter(headers[i].clone(), row[i].clone(), &ds);
        proof {
            law_document_well_formed(hv, rv, separator_view(ds), i as nat);
            lemma_split_well_formed(hv[i as int], rv[i as int], separator_view(ds));
        }
        upsert_entry(&mut entries, key, value);
        i = i + 1;
    }
    Ok(Value::Mapping(entries))
}

} // verus!
