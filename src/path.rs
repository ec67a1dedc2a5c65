//! Splitting a header into a key and a nested value.
use vstd::prelude::*;
use crate::model::{
    occurs_at, is_first_occurrence, contains, replace_all, split_path,
    lemma_first_occurrence_unique, lemma_replace_all_len,
};
use crate::value::{Value, entries_view};

verus! {

/// The characters of `s` in order.
fn chars_of(s: &str) -> (r: Vec<char>)
    ensures
        r@ == s@,
{
    let n = s.unicode_len();
    let mut out: Vec<char> = Vec::new();
    let mut i: usize = 0;
    while i < n
        invariant
            n == s@.len(),
            i <= n,
            out@ =~= s@.subrange(0, i as int),
        decreases n - i,
    {
        out.push(s.get_char(i));
        i = i + 1;
    }
    out
}

/// Relies on `String: FromIterator<&char>`: the string made of `cs` in order.
#[verifier::external_body]
fn string_of(cs: &Vec<char>) -> (r: String)
    ensures
        r@ == cs@,
{
    cs.iter().collect()
}

/// The separator as the contracts see it.
pub open spec fn separator_view(ds: Option<&str>) -> Option<Seq<char>> {
    match ds {
        Some(d) => Some(d@),
        None => None,
    }
}

/// Whether `sep` occurs in `s` at index `i`.
fn occurs_at_exec(s: &Vec<char>, sep: &Vec<char>, i: usize) -> (r: bool)
    requires
        i <= s@.len(),
    ensures
        r == occurs_at(s@, sep@, i as int),
{
    let n = s.len();
    if sep.len() > n - i {
        return false;
    }
    let mut k: usize = 0;
    while k < sep.len()
        invariant
            n == s@.len(),
            i + sep@.len() <= s@.len(),
            k <= sep@.len(),
            s@.subrange(i as int, i + k) =~= sep@.subrange(0, k as int),
        decreases sep@.len() - k,
    {
        if s[i + k] != sep[k] {
            assert(s@.subrange(i as int, i + sep@.len())[k as int] != sep@[k as int]);
            return false;
        }
        k = k + 1;
    }
    assert(sep@.subrange(0, sep@.len() as int) =~= sep@);
    true
}

/// The first index at which `sep` occurs in `s`, if it occurs.
fn find_first(s: &Vec<char>, sep: &Vec<char>) -> (r: Option<usize>)
    ensures
        match r {
            Some(i) => is_first_occurrence(s@, sep@, i as int),
            None => !contains(s@, sep@),
        },
{
    if sep.len() == 0 {
        assert(s@.subrange(0, 0) =~= sep@);
        assert(occurs_at(s@, sep@, 0));
        return Some(0);
    }
    let mut i: usize = 0;
    while i < s.len()
        invariant
            sep@.len() > 0,
            i <= s@.len(),
            forall|j: int| 0 <= j < i ==> !occurs_at(s@, sep@, j),
        decreases s@.len() - i,
    {
        if occurs_at_exec(s, sep, i) {
            return Some(i);
        }
        i = i + 1;
    }
    assert forall|j: int| !occurs_at(s@, sep@, j) by {
        if 0 <= j < i {
        }
    }
    None
}

/// The characters of `s` from `from` on, each occurrence of `sep` replaced by `.`.
fn replace_separators(s: &Vec<char>, from: usize, sep: &Vec<char>) -> (r: Vec<char>)
    requires
        sep@.len() > 0,
        from <= s@.len(),
    ensures
        r@ == replace_all(s@.subrange(from as int, s@.len() as int), sep@, seq!['.']),
{
    let ghost whole = replace_all(s@.subrange(from as int, s@.len() as int), sep@, seq!['.']);
    let mut out: Vec<char> = Vec::new();
    let mut i: usize = from;
    while i < s.len()
        invariant
            sep@.len() > 0,
            from <= i <= s@.len(),
            whole == out@ + replace_all(s@.subrange(i as int, s@.len() as int), sep@, seq!['.']),
        decreases s@.len() - i,
    {
        let ghost t = s@.subrange(i as int, s@.len() as int);
        let ghost prev = out@;
        if occurs_at_exec(s, sep, i) {
            assert(t.subrange(0, sep@.len() as int) =~= s@.subrange(i as int, i + sep@.len()));
            assert(occurs_at(t, sep@, 0));
            out.push('.');
            i = i + sep.len();
            assert(t.subrange(sep@.len() as int, t.len() as int) =~= s@.subrange(i as int, s@.len() as int));
            assert(out@ =~= prev + seq!['.']);
        } else {
            assert(sep@.len() <= t.len() ==> t.subrange(0, sep@.len() as int) =~= s@.subrange(i as int, i + sep@.len()));
            assert(!occurs_at(t, sep@, 0));
            out.push(s[i]);
            i = i + 1;
            assert(t.subrange(1, t.len() as int) =~= s@.subrange(i as int, s@.len() as int));
            assert(out@ =~= prev + seq![t[0]]);
        }
    }
    assert(s@.subrange(i as int, s@.len() as int).len() == 0);
    assert(out@ + Seq::<char>::empty() =~= out@);
    out
}

/// The first `n` characters of `s`.
fn prefix(s: &Vec<char>, n: usize) -> (r: Vec<char>)
    requires
        n <= s@.len(),
    ensures
        r@ == s@.subrange(0, n as int),
{
    let mut out: Vec<char> = Vec::new();
    let mut i: usize = 0;
    while i < n
        invariant
            n <= s@.len(),
            i <= n,
            out@ =~= s@.subrange(0, i as int),
        decreases n - i,
    {
        out.push(s[i]);
        i = i + 1;
    }
    out
}

/// Splits the header characters `h` with a non-empty separator.
fn split_chars(h: Vec<char>, cell: &String, sep: &Vec<char>) -> (r: (String, Value))
    requires
        sep@.len() > 0,
    ensures
        (r.0@, r.1@) == split_path(h@, cell@, Some(sep@)),
    decreases h@.len(),
{
    let n = h.len();
    match find_first(&h, sep) {
        None => (string_of(&h), Value::Scalar(cell.clone())),
        Some(i) => {
            proof {
                lemma_first_occurrence_unique(h@, sep@, i as int);
                lemma_replace_all_len(h@.subrange(i + sep@.len(), h@.len() as int), sep@);
            }
            let head = prefix(&h, i);
            let rest = replace_separators(&h, i + sep.len(), sep);
            let ghost rest_view = rest@;
            let (k, v) = split_chars(rest, cell, sep);
            let ghost kv = (k@, v@);
            let mut entries: Vec<(String, Value)> = Vec::new();
            entries.push((k, v));
            let r = (string_of(&head), Value::Mapping(entries));
            assert(entries_view(entries@)[0] == kv);
            assert(r.1@->Object_0 =~= seq![split_path(rest_view, cell@, Some(sep@))]);
            r
        },
    }
}

/// Splits `key` at the separator `ds` into a top-level key and a value:
/// with no separator, an empty one, or none in `key`, the key itself and
/// the text `value`; otherwise the part before the first separator, and a mapping
/// of one entry built from the rest, in which further separators have
/// become `.`, split again with the same separator.
pub fn dimensional_converter(key: String, value: String, ds: &Option<&str>) -> (r: (String, Value))
    ensures
        (r.0@, r.1@) == split_path(key@, value@, separator_view(*ds)),
{
    match ds {
        Some(d) => {
            let sep = chars_of(d);
            if sep.len() == 0 {
                return (key, Value::Scalar(value));
            }
            let h = chars_of(key.as_str());
            split_chars(h, &value, &sep)
        },
        None => (key, Value::Scalar(value)),
    }
}

} // verus!
