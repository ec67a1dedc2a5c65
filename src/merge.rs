//! Merging an existing value with an incoming one.
use vstd::prelude::*;
use crate::model::{
    Node, merge, has_key, key_index, is_first_key, fresh_entries, lemma_key_index, well_formed,
    lemma_well_formed_parts,
};
use crate::value::{Value, entries_view};

verus! {

/// The position of the first entry named `k`, if there is one.
pub fn find_key(entries: &Vec<(String, Value)>, k: &String) -> (r: Option<usize>)
    ensures
        match r {
            Some(i) => is_first_key(entries_view(entries@), k@, i as int),
            None => !has_key(entries_view(entries@), k@),
        },
{
    let ghost ev = entries_view(entries@);
    let mut i: usize = 0;
    while i < entries.len()
        invariant
            ev == entries_view(entries@),
            i <= entries@.len(),
            forall|j: int| 0 <= j < i ==> ev[j].0 != k@,
        decreases entries@.len() - i,
    {
        if entries[i].0 == *k {
            return Some(i);
        }
        i = i + 1;
    }
    None
}

/// Merges `incoming` into `existing`, following the rules of [`merge`]:
/// mappings are united key by key (recursively), sequences are
/// concatenated, a single value is appended to a sequence, and two other
/// values become the sequence `[existing, incoming]`.  Both values are
/// well-formed: no mapping in them names an entry twice.
pub fn merge_values(existing: &Value, incoming: &Value) -> (r: Value)
    requires
        well_formed(existing@),
        well_formed(incoming@),
    ensures
        r@ == merge(existing@, incoming@),
    decreases existing,
{
    match (existing, incoming) {
        (Value::Mapping(ma), Value::Mapping(mb)) => {
            let ghost mav = entries_view(ma@);
            let ghost mbv = entries_view(mb@);
            proof {
                lemma_well_formed_parts(existing@);
                lemma_well_formed_parts(incoming@);
            }
            let mut out: Vec<(String, Value)> = Vec::new();
            let mut i: usize = 0;
            while i < ma.len()
                invariant
                    *existing == Value::Mapping(*ma),
                    mav == entries_view(ma@),
                    mbv == entries_view(mb@),
                    forall|k: int| 0 <= k < mav.len() ==> #[trigger] well_formed(mav[k].1),
                    forall|k: int| 0 <= k < mbv.len() ==> #[trigger] well_formed(mbv[k].1),
                    i <= ma@.len(),
                    out@.len() == i,
                    forall|j: int|
                        0 <= j < i ==> (#[trigger] entries_view(out@)[j]) == (if has_key(mbv, mav[j].0) {
                            (mav[j].0, merge(mav[j].1, mbv[key_index(mbv, mav[j].0)].1))
                        } else {
                            mav[j]
                        }),
                decreases ma@.len() - i,
            {
                proof {
                    assert(decreases_to!(*existing => existing->Mapping_0));
                    assert(decreases_to!(existing->Mapping_0 => existing->Mapping_0[i as int]));
                    assert(decreases_to!(existing->Mapping_0[i as int] => existing->Mapping_0[i as int].1));
                }
                let v = match find_key(mb, &ma[i].0) {
                    Some(j) => {
                        proof {
                            lemma_key_index(mbv, mav[i as int].0, j as int);
                            assert(well_formed(mav[i as int].1));
                            assert(well_formed(mbv[j as int].1));
                        }
                        merge_values(&ma[i].1, &mb[j].1)
                    },
                    None => ma[i].1.deep_copy(),
                };
                let ghost prev = out@;
                out.push((ma[i].0.clone(), v));
                proof {
                    assert forall|j: int| 0 <= j < i + 1 implies (#[trigger] entries_view(out@)[j]) == (if has_key(mbv, mav[j].0) {
                            (mav[j].0, merge(mav[j].1, mbv[key_index(mbv, mav[j].0)].1))
                        } else {
                            mav[j]
                        }) by {
                        if j < i {
                            assert(entries_view(out@)[j] == entries_view(prev)[j]);
                        }
                    }
                }
                i = i + 1;
            }
            let mut fresh: Vec<(String, Value)> = Vec::new();
            let mut j: usize = 0;
            while j < mb.len()
                invariant
                    mav == entries_view(ma@),
                    mbv == entries_view(mb@),
                    j <= mb@.len(),
                    entries_view(fresh@) == fresh_entries(mav, mbv.take(j as int)),
                decreases mb@.len() - j,
            {
                let ghost prev = fresh@;
                if find_key(ma, &mb[j].0).is_none() {
                    let v = mb[j].1.deep_copy();
                    fresh.push((mb[j].0.clone(), v));
                    assert(entries_view(fresh@) =~= entries_view(prev).push(mbv[j as int]));
                } else {
                    assert(entries_view(fresh@) =~= entries_view(prev));
                }
                proof {
                    reveal(Seq::filter);
                    assert(mbv.take(j + 1).drop_last() =~= mbv.take(j as int));
                }
                j = j + 1;
            }
            assert(mbv.take(mb@.len() as int) =~= mbv);
            let ghost left = entries_view(out@);
            out.append(&mut fresh);
            let r = Value::Mapping(out);
            proof {
                assert(entries_view(out@) =~= left + fresh_entries(mav, mbv));
                let m = merge(existing@, incoming@);
                assert(m->Object_0 =~= r@->Object_0);
            }
            r
        },
        (Value::Sequence(sa), Value::Sequence(sb)) => {
            let mut out: Vec<Value> = Vec::new();
            let mut i: usize = 0;
            while i < sa.len()
                invariant
                    i <= sa@.len(),
                    out@.len() == i,
                    forall|k: int| 0 <= k < i ==> out@[k]@ == sa@[k]@,
                decreases sa@.len() - i,
            {
                out.push(sa[i].deep_copy());
                i = i + 1;
            }
            let mut j: usize = 0;
            while j < sb.len()
                invariant
                    j <= sb@.len(),
                    out@.len() == sa@.len() + j,
                    forall|k: int| 0 <= k < sa@.len() ==> out@[k]@ == sa@[k]@,
                    forall|k: int| 0 <= k < j ==> out@[sa@.len() + k]@ == sb@[k]@,
                decreases sb@.len() - j,
            {
                out.push(sb[j].deep_copy());
                j = j + 1;
            }
            let r = Value::Sequence(out);
            assert(r@->List_0 =~= existing@->List_0 + incoming@->List_0);
            r
        },
        (Value::Sequence(sa), _) => {
            let r = Value::Sequence(push_copy(sa, incoming));
            assert(r@->List_0 =~= existing@->List_0.push(incoming@));
            r
        },
        (_, Value::Sequence(sb)) => {
            let r = Value::Sequence(push_copy(sb, existing));
            assert(r@->List_0 =~= incoming@->List_0.push(existing@));
            r
        },
        _ => {
            let mut out: Vec<Value> = Vec::new();
            out.push(existing.deep_copy());
            out.push(incoming.deep_copy());
            let r = Value::Sequence(out);
            assert(r@->List_0 =~= seq![existing@, incoming@]);
            r
        },
    }
}

/// A copy of `items` with a copy of `last` after them.
fn push_copy(items: &Vec<Value>, last: &Value) -> (r: Vec<Value>)
    ensures
        r@.len() == items@.len() + 1,
        forall|k: int| 0 <= k < items@.len() ==> r@[k]@ == items@[k]@,
        r@[items@.len() as int]@ == last@,
{
    let mut out: Vec<Value> = Vec::new();
    let mut i: usize = 0;
    while i < items.len()
        invariant
            i <= items@.len(),
            out@.len() == i,
            forall|k: int| 0 <= k < i ==> out@[k]@ == items@[k]@,
        decreases items@.len() - i,
    {
        out.push(items[i].deep_copy());
        i = i + 1;
    }
    out.push(last.deep_copy());
    out
}

} // verus!
