//! Mathematical model of documents and the spec functions that define
//! path splitting, merging and row assembly over it.
use vstd::prelude::*;

verus! {

/// A value as the contracts see it: text, an ordered list, or an ordered
/// list of named entries.
pub enum Node {
    Text(Seq<char>),
    List(Seq<Node>),
    Object(Seq<(Seq<char>, Node)>),
}

/// `sep` occurs in `s` starting at index `i`.
pub open spec fn occurs_at(s: Seq<char>, sep: Seq<char>, i: int) -> bool {
    0 <= i && i + sep.len() <= s.len() && s.subrange(i, i + sep.len()) == sep
}

/// `i` is the first index at which `sep` occurs in `s`.
pub open spec fn is_first_occurrence(s: Seq<char>, sep: Seq<char>, i: int) -> bool {
    occurs_at(s, sep, i) && forall|j: int| 0 <= j < i ==> !occurs_at(s, sep, j)
}

pub open spec fn contains(s: Seq<char>, sep: Seq<char>) -> bool {
    exists|i: int| occurs_at(s, sep, i)
}

pub open spec fn first_occurrence(s: Seq<char>, sep: Seq<char>) -> int {
    choose|i: int| is_first_occurrence(s, sep, i)
}

/// Where `sep` occurs, it has a first occurrence.
pub proof fn lemma_first_occurrence(s: Seq<char>, sep: Seq<char>, k: int)
    requires
        occurs_at(s, sep, k),
    ensures
        is_first_occurrence(s, sep, first_occurrence(s, sep)),
    decreases k,
{
    if exists|j: int| 0 <= j < k && occurs_at(s, sep, j) {
        let j = choose|j: int| 0 <= j < k && occurs_at(s, sep, j);
        lemma_first_occurrence(s, sep, j);
    } else {
        assert(is_first_occurrence(s, sep, k));
    }
}

/// Every occurrence of `sep` in `s`, matched from the left without overlap,
/// replaced by `by`.
pub open spec fn replace_all(s: Seq<char>, sep: Seq<char>, by: Seq<char>) -> Seq<char>
    decreases s.len(),
{
    if s.len() == 0 {
        s
    } else if sep.len() > 0 && occurs_at(s, sep, 0) {
        by + replace_all(s.subrange(sep.len() as int, s.len() as int), sep, by)
    } else {
        seq![s[0]] + replace_all(s.subrange(1, s.len() as int), sep, by)
    }
}

pub proof fn lemma_replace_all_len(s: Seq<char>, sep: Seq<char>)
    requires
        sep.len() > 0,
    ensures
        replace_all(s, sep, seq!['.']).len() <= s.len(),
    decreases s.len(),
{
    if s.len() > 0 {
        if occurs_at(s, sep, 0) {
            lemma_replace_all_len(s.subrange(sep.len() as int, s.len() as int), sep);
        } else {
            lemma_replace_all_len(s.subrange(1, s.len() as int), sep);
        }
    }
}

/// The key and value that one header and cell become.  The header is cut at
/// the first occurrence of the separator; the rest has each further
/// separator replaced by `.` and is split again with the same separator.
pub open spec fn split_path(header: Seq<char>, cell: Seq<char>, sep: Option<Seq<char>>) -> (
    Seq<char>,
    Node,
)
    decreases header.len(),
{
    match sep {
        Some(d) => {
            if d.len() > 0 && contains(header, d) {
                let i = first_occurrence(header, d);
                let rest = replace_all(
                    header.subrange(i + d.len(), header.len() as int),
                    d,
                    seq!['.'],
                );
                proof {
                    let k = choose|k: int| occurs_at(header, d, k);
                    lemma_first_occurrence(header, d, k);
                    lemma_replace_all_len(header.subrange(i + d.len(), header.len() as int), d);
                }
                let inner = split_path(rest, cell, sep);
                (header.subrange(0, i), Node::Object(seq![inner]))
            } else {
                (header, Node::Text(cell))
            }
        },
        None => (header, Node::Text(cell)),
    }
}

/// `entries` has an entry named `k`.
pub open spec fn has_key(entries: Seq<(Seq<char>, Node)>, k: Seq<char>) -> bool {
    exists|i: int| 0 <= i < entries.len() && entries[i].0 == k
}

/// `i` is the first entry of `entries` named `k`.
pub open spec fn is_first_key(entries: Seq<(Seq<char>, Node)>, k: Seq<char>, i: int) -> bool {
    &&& 0 <= i < entries.len()
    &&& entries[i].0 == k
    &&& forall|j: int| 0 <= j < i ==> entries[j].0 != k
}

pub open spec fn key_index(entries: Seq<(Seq<char>, Node)>, k: Seq<char>) -> int {
    choose|i: int| is_first_key(entries, k, i)
}

/// The entries of `b` whose names `a` does not have, in `b`'s order.
pub open spec fn fresh_entries(a: Seq<(Seq<char>, Node)>, b: Seq<(Seq<char>, Node)>) -> Seq<
    (Seq<char>, Node),
> {
    b.filter(|e: (Seq<char>, Node)| !has_key(a, e.0))
}

/// Merge of an existing value `a` with an incoming value `b`.
/// Two objects: each entry of `a` in place, merged with `b`'s entry of the
/// same name if there is one, then `b`'s other entries.  Two lists: `b`
/// after `a`.  One list: the other value appended to it.  Otherwise the
/// list `[a, b]`.
pub open spec fn merge(a: Node, b: Node) -> Node
    decreases a,
{
    if a is Object && b is Object {
        let ma = a->Object_0;
        let mb = b->Object_0;
        proof {
            assert forall|i: int| 0 <= i < ma.len() implies decreases_to!(a => ma[i].1) by {
                assert(decreases_to!(a => ma));
                assert(decreases_to!(ma => ma[i]));
                assert(decreases_to!(ma[i] => ma[i].1));
            }
        }
        Node::Object(
            Seq::new(
                ma.len(),
                |i: int|
                    if 0 <= i < ma.len() && has_key(mb, ma[i].0) {
                        (ma[i].0, merge(ma[i].1, mb[key_index(mb, ma[i].0)].1))
                    } else {
                        ma[i]
                    },
            ) + fresh_entries(ma, mb),
        )
    } else if a is List && b is List {
        Node::List(a->List_0 + b->List_0)
    } else if a is List {
        Node::List(a->List_0.push(b))
    } else if b is List {
        Node::List(b->List_0.push(a))
    } else {
        Node::List(seq![a, b])
    }
}

/// `entries` with `(k, v)` added: merged into the entry named `k` if there
/// is one, else appended.
pub open spec fn upsert(entries: Seq<(Seq<char>, Node)>, k: Seq<char>, v: Node) -> Seq<
    (Seq<char>, Node),
> {
    if has_key(entries, k) {
        let i = key_index(entries, k);
        entries.update(i, (k, merge(entries[i].1, v)))
    } else {
        entries.push((k, v))
    }
}

/// The entries of the document built from the first `n` fields of a row.
pub open spec fn assemble(
    headers: Seq<Seq<char>>,
    cells: Seq<Seq<char>>,
    sep: Option<Seq<char>>,
    n: nat,
) -> Seq<(Seq<char>, Node)>
    decreases n,
{
    if n == 0 {
        Seq::empty()
    } else {
        let prev = assemble(headers, cells, sep, (n - 1) as nat);
        let kv = split_path(headers[n - 1], cells[n - 1], sep);
        upsert(prev, kv.0, kv.1)
    }
}

} // verus!

verus! {

/// The first entry named `k` is the one that `key_index` picks.
pub proof fn lemma_key_index(entries: Seq<(Seq<char>, Node)>, k: Seq<char>, i: int)
    requires
        is_first_key(entries, k, i),
    ensures
        has_key(entries, k),
        key_index(entries, k) == i,
{
    let j = key_index(entries, k);
    assert(is_first_key(entries, k, j));
    if j < i {
        assert(entries[j].0 != k);
    } else if j > i {
        assert(entries[i].0 != k);
    }
}

} // verus!

verus! {

/// There is one first occurrence.
pub proof fn lemma_first_occurrence_unique(s: Seq<char>, sep: Seq<char>, i: int)
    requires
        is_first_occurrence(s, sep, i),
    ensures
        contains(s, sep),
        first_occurrence(s, sep) == i,
{
    let j = first_occurrence(s, sep);
    assert(is_first_occurrence(s, sep, j));
    if j < i {
        assert(!occurs_at(s, sep, j));
    } else if j > i {
        assert(!occurs_at(s, sep, i));
    }
}

} // verus!

verus! {

/// The names in `entries` are pairwise distinct.
pub open spec fn keys_unique(entries: Seq<(Seq<char>, Node)>) -> bool {
    forall|i: int, j: int| 0 <= i < j < entries.len() ==> entries[i].0 != entries[j].0
}

/// No mapping, at any depth, holds two entries with the same name.
pub open spec fn well_formed(n: Node) -> bool
    decreases n, 0nat,
{
    match n {
        Node::Text(_) => true,
        Node::List(items) => items_well_formed(items, items.len()),
        Node::Object(entries) => keys_unique(entries) && values_well_formed(entries, entries.len()),
    }
}

/// The first `k` of `items` are well-formed.
pub open spec fn items_well_formed(items: Seq<Node>, k: nat) -> bool
    decreases items, k,
{
    if k == 0 || k > items.len() {
        k == 0
    } else {
        well_formed(items[k - 1]) && items_well_formed(items, (k - 1) as nat)
    }
}

/// The values of the first `k` of `entries` are well-formed.
pub open spec fn values_well_formed(entries: Seq<(Seq<char>, Node)>, k: nat) -> bool
    decreases entries, k,
{
    if k == 0 || k > entries.len() {
        k == 0
    } else {
        proof {
            assert(decreases_to!(entries => entries[k - 1]));
            assert(decreases_to!(entries[k - 1] => entries[k - 1].1));
        }
        well_formed(entries[k - 1].1) && values_well_formed(entries, (k - 1) as nat)
    }
}

proof fn lemma_items_well_formed(items: Seq<Node>, k: nat)
    requires
        k <= items.len(),
    ensures
        items_well_formed(items, k) <==> forall|i: int| 0 <= i < k ==> #[trigger] well_formed(items[i]),
    decreases k,
{
    if k > 0 {
        lemma_items_well_formed(items, (k - 1) as nat);
        assert(items_well_formed(items, k) == (well_formed(items[k - 1]) && items_well_formed(
            items,
            (k - 1) as nat,
        )));
        if forall|i: int| 0 <= i < k ==> #[trigger] well_formed(items[i]) {
            assert(well_formed(items[k - 1]));
            assert(items_well_formed(items, (k - 1) as nat));
        }
    }
}

proof fn lemma_values_well_formed(entries: Seq<(Seq<char>, Node)>, k: nat)
    requires
        k <= entries.len(),
    ensures
        values_well_formed(entries, k) <==> forall|i: int| 0 <= i < k ==> #[trigger] well_formed(entries[i].1),
    decreases k,
{
    if k > 0 {
        lemma_values_well_formed(entries, (k - 1) as nat);
        assert(values_well_formed(entries, k) == (well_formed(entries[k - 1].1) && values_well_formed(
            entries,
            (k - 1) as nat,
        )));
        if forall|i: int| 0 <= i < k ==> #[trigger] well_formed(entries[i].1) {
            assert(well_formed(entries[k - 1].1));
            assert(values_well_formed(entries, (k - 1) as nat));
        }
    }
}

/// What `well_formed` says of a value's parts.
pub proof fn lemma_well_formed_parts(n: Node)
    ensures
        n is List ==> (well_formed(n) <==> forall|i: int|
            0 <= i < n->List_0.len() ==> #[trigger] well_formed(n->List_0[i])),
        n is Object ==> (well_formed(n) <==> keys_unique(n->Object_0) && forall|i: int|
            0 <= i < n->Object_0.len() ==> #[trigger] well_formed(n->Object_0[i].1)),
        n is Text ==> well_formed(n),
{
    match n {
        Node::List(items) => lemma_items_well_formed(items, items.len()),
        Node::Object(entries) => lemma_values_well_formed(entries, entries.len()),
        Node::Text(_) => {},
    }
}

} // verus!
