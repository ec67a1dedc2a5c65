//! General properties of row assembly.
use vstd::prelude::*;
use crate::model::{
    Node, has_key, key_index, is_first_key, upsert, assemble, split_path, merge, fresh_entries,
    lemma_first_occurrence, lemma_replace_all_len, first_occurrence, contains,
    replace_all, occurs_at, lemma_key_index, keys_unique, well_formed, lemma_well_formed_parts,
};

verus! {

/// Adding a field keeps the names of a document distinct.
pub proof fn lemma_upsert_keys_unique(entries: Seq<(Seq<char>, Node)>, k: Seq<char>, v: Node)
    requires
        keys_unique(entries),
    ensures
        keys_unique(upsert(entries, k, v)),
{
    if has_key(entries, k) {
        let i = key_index(entries, k);
        let w = choose|w: int| 0 <= w < entries.len() && entries[w].0 == k;
        assert(is_first_key(entries, k, w)) by {
            assert forall|j: int| 0 <= j < w implies entries[j].0 != k by {
                assert(entries[j].0 != entries[w].0);
            }
        }
        assert(is_first_key(entries, k, i));
    }
}

/// A document never holds two entries with the same name.
pub proof fn law_document_keys_unique(
    headers: Seq<Seq<char>>,
    cells: Seq<Seq<char>>,
    sep: Option<Seq<char>>,
    n: nat,
)
    ensures
        keys_unique(assemble(headers, cells, sep, n)),
    decreases n,
{
    if n > 0 {
        law_document_keys_unique(headers, cells, sep, (n - 1) as nat);
        let kv = split_path(headers[n - 1], cells[n - 1], sep);
        lemma_upsert_keys_unique(assemble(headers, cells, sep, (n - 1) as nat), kv.0, kv.1);
    }
}

/// With no separator and pairwise distinct headers, the document has one
/// entry per header, in header order, holding that header's cell as text.
pub proof fn law_no_separator_identity(headers: Seq<Seq<char>>, cells: Seq<Seq<char>>, n: nat)
    requires
        n <= headers.len(),
        n <= cells.len(),
        forall|i: int, j: int| 0 <= i < j < headers.len() ==> headers[i] != headers[j],
    ensures
        assemble(headers, cells, None, n) == Seq::new(
            n,
            |i: int| (headers[i], Node::Text(cells[i])),
        ),
    decreases n,
{
    if n > 0 {
        law_no_separator_identity(headers, cells, (n - 1) as nat);
        let prev = assemble(headers, cells, None, (n - 1) as nat);
        assert(!has_key(prev, headers[n - 1]));
        assert(assemble(headers, cells, None, n) =~= Seq::new(
            n,
            |i: int| (headers[i], Node::Text(cells[i])),
        ));
    } else {
        assert(assemble(headers, cells, None, n) =~= Seq::new(
            n,
            |i: int| (headers[i], Node::Text(cells[i])),
        ));
    }
}

/// The names in `entries`, in order.
pub open spec fn names(entries: Seq<(Seq<char>, Node)>) -> Seq<Seq<char>> {
    entries.map_values(|e: (Seq<char>, Node)| e.0)
}

/// The texts of `s` without repeats, each where it first occurs.
pub open spec fn first_occurrences(s: Seq<Seq<char>>) -> Seq<Seq<char>>
    decreases s.len(),
{
    if s.len() == 0 {
        s
    } else {
        let p = first_occurrences(s.drop_last());
        if p.contains(s.last()) {
            p
        } else {
            p.push(s.last())
        }
    }
}

/// With no separator, the names of a document are its row's headers, each
/// once, in the order in which they first occur.
pub proof fn law_no_separator_names(headers: Seq<Seq<char>>, cells: Seq<Seq<char>>, n: nat)
    requires
        n <= headers.len(),
    ensures
        names(assemble(headers, cells, None, n)) == first_occurrences(headers.take(n as int)),
    decreases n,
{
    if n == 0 {
        assert(names(assemble(headers, cells, None, n)) =~= first_occurrences(headers.take(0)));
    } else {
        law_no_separator_names(headers, cells, (n - 1) as nat);
        let prev = assemble(headers, cells, None, (n - 1) as nat);
        let k = headers[n - 1];
        assert(headers.take(n as int).drop_last() =~= headers.take(n - 1));
        let p = first_occurrences(headers.take(n - 1));
        assert(has_key(prev, k) <==> p.contains(k)) by {
            if has_key(prev, k) {
                let w = choose|w: int| 0 <= w < prev.len() && prev[w].0 == k;
                assert(names(prev)[w] == k);
            }
            if p.contains(k) {
                let w = choose|w: int| 0 <= w < p.len() && p[w] == k;
                assert(names(prev)[w] == k);
                assert(prev[w].0 == k);
            }
        }
        if has_key(prev, k) {
            let i = key_index(prev, k);
            assert(is_first_key(prev, k, i)) by {
                let w = choose|w: int| 0 <= w < prev.len() && prev[w].0 == k;
                law_document_keys_unique(headers, cells, None, (n - 1) as nat);
                assert(is_first_key(prev, k, w)) by {
                    assert forall|j: int| 0 <= j < w implies prev[j].0 != k by {
                        assert(prev[j].0 != prev[w].0);
                    }
                }
            }
            assert(names(assemble(headers, cells, None, n)) =~= names(prev));
        } else {
            assert(names(assemble(headers, cells, None, n)) =~= names(prev).push(k));
        }
    }
}

/// What `fresh_entries` keeps: entries of `b` that `a` has no name of,
/// with distinct names where `b`'s are distinct.
pub proof fn lemma_fresh_entries(a: Seq<(Seq<char>, Node)>, b: Seq<(Seq<char>, Node)>)
    ensures
        forall|i: int|
            0 <= i < fresh_entries(a, b).len() ==> !has_key(a, #[trigger] fresh_entries(a, b)[i].0)
                && b.contains(fresh_entries(a, b)[i]),
        keys_unique(b) ==> keys_unique(fresh_entries(a, b)),
    decreases b.len(),
{
    reveal(Seq::filter);
    if b.len() > 0 {
        let p = b.drop_last();
        lemma_fresh_entries(a, p);
        let f = fresh_entries(a, b);
        let g = fresh_entries(a, p);
        assert(fresh_entries(a, b) == if !has_key(a, b.last().0) {
            g.push(b.last())
        } else {
            g
        });
        assert forall|i: int| 0 <= i < g.len() implies b.contains(#[trigger] g[i]) by {
            let w = choose|w: int| 0 <= w < p.len() && p[w] == g[i];
            assert(b[w] == g[i]);
        }
        assert(b.contains(b.last())) by {
            assert(b[b.len() - 1] == b.last());
        }
        if keys_unique(b) {
            assert forall|i: int| 0 <= i < g.len() implies (#[trigger] g[i]).0 != b.last().0 by {
                let w = choose|w: int| 0 <= w < p.len() && p[w] == g[i];
                assert(b[w] == g[i]);
            }
        }
    }
}

/// Merging well-formed values gives a well-formed value.
pub proof fn law_merge_well_formed(a: Node, b: Node)
    requires
        well_formed(a),
        well_formed(b),
    ensures
        well_formed(merge(a, b)),
    decreases a,
{
    let m = merge(a, b);
    lemma_well_formed_parts(a);
    lemma_well_formed_parts(b);
    lemma_well_formed_parts(m);
    if a is Object && b is Object {
        let ma = a->Object_0;
        let mb = b->Object_0;
        let r = m->Object_0;
        let fresh = fresh_entries(ma, mb);
        lemma_fresh_entries(ma, mb);
        assert(r.len() == ma.len() + fresh.len());
        assert forall|i: int| 0 <= i < ma.len() implies r[i].0 == ma[i].0 by {}
        assert forall|i: int| 0 <= i < fresh.len() implies r[ma.len() + i] == fresh[i] by {}
        assert forall|i: int, j: int| 0 <= i < j < r.len() implies r[i].0 != r[j].0 by {
            if j < ma.len() {
            } else if i < ma.len() {
                assert(r[j] == fresh[j - ma.len()]);
                assert(!has_key(ma, fresh[j - ma.len()].0));
            } else {
                assert(r[i] == fresh[i - ma.len()]);
                assert(r[j] == fresh[j - ma.len()]);
            }
        }
        assert forall|i: int| 0 <= i < r.len() implies #[trigger] well_formed(r[i].1) by {
            if i < ma.len() {
                if has_key(mb, ma[i].0) {
                    let k = key_index(mb, ma[i].0);
                    let w = choose|w: int| 0 <= w < mb.len() && mb[w].0 == ma[i].0;
                    assert(is_first_key(mb, ma[i].0, w)) by {
                        assert forall|j: int| 0 <= j < w implies mb[j].0 != ma[i].0 by {
                            assert(mb[j].0 != mb[w].0);
                        }
                    }
                    assert(is_first_key(mb, ma[i].0, k));
                    assert(well_formed(mb[k].1));
                    assert(decreases_to!(a => ma));
                    assert(decreases_to!(ma => ma[i]));
                    law_merge_well_formed(ma[i].1, mb[k].1);
                }
            } else {
                let e = fresh[i - ma.len()];
                assert(r[i] == e);
                let w = choose|w: int| 0 <= w < mb.len() && mb[w] == e;
                assert(well_formed(mb[w].1));
            }
        }
    } else if a is List && b is List {
        let sa = a->List_0;
        let sb = b->List_0;
        assert forall|i: int| 0 <= i < (sa + sb).len() implies #[trigger] well_formed((sa + sb)[i]) by {
            if i < sa.len() {
                assert(well_formed(sa[i]));
            } else {
                assert(well_formed(sb[i - sa.len()]));
            }
        }
    } else if a is List {
        let sa = a->List_0;
        assert forall|i: int| 0 <= i < sa.push(b).len() implies #[trigger] well_formed(sa.push(b)[i]) by {
            if i < sa.len() {
                assert(well_formed(sa[i]));
            }
        }
    } else if b is List {
        let sb = b->List_0;
        assert forall|i: int| 0 <= i < sb.push(a).len() implies #[trigger] well_formed(sb.push(a)[i]) by {
            if i < sb.len() {
                assert(well_formed(sb[i]));
            }
        }
    } else {
        assert(well_formed(seq![a, b][0]));
        assert(well_formed(seq![a, b][1]));
    }
}

/// The value that a header and cell become is well-formed.
pub proof fn lemma_split_well_formed(header: Seq<char>, cell: Seq<char>, sep: Option<Seq<char>>)
    ensures
        well_formed(split_path(header, cell, sep).1),
    decreases header.len(),
{
    lemma_well_formed_parts(split_path(header, cell, sep).1);
    if let Some(d) = sep {
        if d.len() > 0 && contains(header, d) {
            let k = choose|k: int| occurs_at(header, d, k);
            lemma_first_occurrence(header, d, k);
            let i = first_occurrence(header, d);
            let rest = replace_all(header.subrange(i + d.len(), header.len() as int), d, seq!['.']);
            lemma_replace_all_len(header.subrange(i + d.len(), header.len() as int), d);
            lemma_split_well_formed(rest, cell, sep);
            let inner = split_path(rest, cell, sep);
            lemma_well_formed_parts(split_path(header, cell, sep).1);
            assert(split_path(header, cell, sep).1->Object_0 == seq![inner]);
        }
    }
}

/// Every document is well-formed: its names are distinct at every depth.
pub proof fn law_document_well_formed(
    headers: Seq<Seq<char>>,
    cells: Seq<Seq<char>>,
    sep: Option<Seq<char>>,
    n: nat,
)
    ensures
        well_formed(Node::Object(assemble(headers, cells, sep, n))),
    decreases n,
{
    law_document_keys_unique(headers, cells, sep, n);
    lemma_well_formed_parts(Node::Object(assemble(headers, cells, sep, n)));
    if n > 0 {
        law_document_well_formed(headers, cells, sep, (n - 1) as nat);
        law_document_keys_unique(headers, cells, sep, (n - 1) as nat);
        let prev = assemble(headers, cells, sep, (n - 1) as nat);
        let kv = split_path(headers[n - 1], cells[n - 1], sep);
        lemma_split_well_formed(headers[n - 1], cells[n - 1], sep);
        let r = assemble(headers, cells, sep, n);
        lemma_well_formed_parts(Node::Object(r));
        lemma_well_formed_parts(Node::Object(prev));
        if has_key(prev, kv.0) {
            let i = key_index(prev, kv.0);
            let w = choose|w: int| 0 <= w < prev.len() && prev[w].0 == kv.0;
            assert(is_first_key(prev, kv.0, w)) by {
                assert forall|j: int| 0 <= j < w implies prev[j].0 != kv.0 by {
                    assert(prev[j].0 != prev[w].0);
                }
            }
            assert(is_first_key(prev, kv.0, i));
            assert(well_formed(prev[i].1));
            law_merge_well_formed(prev[i].1, kv.1);
            assert forall|j: int| 0 <= j < r.len() implies #[trigger] well_formed(r[j].1) by {
                if j != i {
                    assert(well_formed(prev[j].1));
                }
            }
        } else {
            assert forall|j: int| 0 <= j < r.len() implies #[trigger] well_formed(r[j].1) by {
                if j < prev.len() {
                    assert(well_formed(prev[j].1));
                }
            }
        }
    }
}

} // verus!

verus! {

/// `entries` with the first `k` entries of `incoming` added one at a time,
/// each merged into the entry of the same name or appended.
pub open spec fn upsert_all(
    entries: Seq<(Seq<char>, Node)>,
    incoming: Seq<(Seq<char>, Node)>,
    k: nat,
) -> Seq<(Seq<char>, Node)>
    decreases k,
{
    if k == 0 || k > incoming.len() {
        entries
    } else {
        let prev = upsert_all(entries, incoming, (k - 1) as nat);
        upsert(prev, incoming[k - 1].0, incoming[k - 1].1)
    }
}

/// The entries of the merge of mapping `ma` with the first `k` entries of `mb`.
spec fn merged_prefix(ma: Seq<(Seq<char>, Node)>, mb: Seq<(Seq<char>, Node)>, k: int) -> Seq<
    (Seq<char>, Node),
> {
    Seq::new(
        ma.len(),
        |i: int|
            if has_key(mb.take(k), ma[i].0) {
                (ma[i].0, merge(ma[i].1, mb[key_index(mb, ma[i].0)].1))
            } else {
                ma[i]
            },
    ) + fresh_entries(ma, mb.take(k))
}

/// In entries with distinct names, the entry named like the one at `w` is at `w`.
proof fn lemma_unique_key_index(entries: Seq<(Seq<char>, Node)>, w: int)
    requires
        keys_unique(entries),
        0 <= w < entries.len(),
    ensures
        is_first_key(entries, entries[w].0, w),
        key_index(entries, entries[w].0) == w,
{
    assert forall|j: int| 0 <= j < w implies entries[j].0 != entries[w].0 by {}
    lemma_key_index(entries, entries[w].0, w);
}

proof fn lemma_upsert_all_prefix(ma: Seq<(Seq<char>, Node)>, mb: Seq<(Seq<char>, Node)>, k: nat)
    requires
        keys_unique(ma),
        keys_unique(mb),
        k <= mb.len(),
    ensures
        upsert_all(ma, mb, k) == merged_prefix(ma, mb, k as int),
    decreases k,
{
    if k == 0 {
        reveal(Seq::filter);
        assert(mb.take(0) =~= Seq::<(Seq<char>, Node)>::empty());
        assert(merged_prefix(ma, mb, 0) =~= ma);
    } else {
        lemma_upsert_all_prefix(ma, mb, (k - 1) as nat);
        let acc = merged_prefix(ma, mb, k - 1);
        let e = mb[k - 1];
        let kk = e.0;
        let t0 = mb.take(k - 1);
        let t1 = mb.take(k as int);
        let f0 = fresh_entries(ma, t0);
        lemma_fresh_entries(ma, t0);
        lemma_unique_key_index(mb, k - 1);
        assert(t1.drop_last() =~= t0);
        assert(t1.last() == e);
        assert(fresh_entries(ma, t1) == if !has_key(ma, kk) {
            f0.push(e)
        } else {
            f0
        }) by {
            reveal(Seq::filter);
        }
        assert(!has_key(t0, kk)) by {
            if has_key(t0, kk) {
                let w = choose|w: int| 0 <= w < t0.len() && t0[w].0 == kk;
                assert(mb[w].0 == mb[k - 1].0);
            }
        }
        assert forall|x: Seq<char>| has_key(t1, x) <==> (has_key(t0, x) || x == kk) by {
            if has_key(t1, x) {
                let w = choose|w: int| 0 <= w < t1.len() && t1[w].0 == x;
                if w < k - 1 {
                    assert(t0[w].0 == x);
                }
            }
            if has_key(t0, x) {
                let w = choose|w: int| 0 <= w < t0.len() && t0[w].0 == x;
                assert(t1[w].0 == x);
            }
            if x == kk {
                assert(t1[k - 1].0 == x);
            }
        }
        assert forall|i: int| 0 <= i < f0.len() implies (#[trigger] f0[i]).0 != kk by {
            let w = choose|w: int| 0 <= w < t0.len() && t0[w] == f0[i];
            assert(t0[w].0 == f0[i].0);
        }
        assert(acc.len() == ma.len() + f0.len());
        assert forall|i: int| 0 <= i < ma.len() implies (#[trigger] acc[i]).0 == ma[i].0 by {}
        assert forall|i: int| 0 <= i < f0.len() implies acc[ma.len() + i] == #[trigger] f0[i] by {}
        let next = merged_prefix(ma, mb, k as int);
        if has_key(ma, kk) {
            let p = choose|p: int| 0 <= p < ma.len() && ma[p].0 == kk;
            lemma_unique_key_index(ma, p);
            assert(is_first_key(acc, kk, p)) by {
                assert forall|j: int| 0 <= j < p implies acc[j].0 != kk by {
                    assert(acc[j].0 == ma[j].0);
                    assert(ma[j].0 != ma[p].0);
                }
            }
            lemma_key_index(acc, kk, p);
            assert(acc[p] == ma[p]);
            assert(upsert(acc, kk, e.1) =~= next) by {
                assert forall|i: int| 0 <= i < ma.len() && i != p implies ma[i].0 != kk by {
                    assert(ma[i].0 != ma[p].0);
                }
            }
        } else {
            assert(!has_key(acc, kk)) by {
                if has_key(acc, kk) {
                    let w = choose|w: int| 0 <= w < acc.len() && acc[w].0 == kk;
                    if w < ma.len() {
                        assert(ma[w].0 == kk);
                    } else {
                        assert(f0[w - ma.len()].0 == kk);
                    }
                }
            }
            assert forall|i: int| 0 <= i < ma.len() implies ma[i].0 != kk by {
                if ma[i].0 == kk {
                    assert(has_key(ma, kk));
                }
            }
            assert(upsert(acc, kk, e.1) =~= next);
        }
    }
}

/// Merging two well-formed mappings adds the incoming entries one at a
/// time, in their order: each is merged into the existing entry of the same
/// name, or appended where there is none.
pub proof fn law_merge_mappings_entrywise(ma: Seq<(Seq<char>, Node)>, mb: Seq<(Seq<char>, Node)>)
    requires
        well_formed(Node::Object(ma)),
        well_formed(Node::Object(mb)),
    ensures
        merge(Node::Object(ma), Node::Object(mb)) == Node::Object(upsert_all(ma, mb, mb.len())),
{
    lemma_well_formed_parts(Node::Object(ma));
    lemma_well_formed_parts(Node::Object(mb));
    lemma_upsert_all_prefix(ma, mb, mb.len());
    assert(mb.take(mb.len() as int) =~= mb);
    assert(merge(Node::Object(ma), Node::Object(mb))->Object_0 =~= merged_prefix(
        ma,
        mb,
        mb.len() as int,
    ));
}

} // verus!

verus! {

/// The cells, as text, of the first `n` columns whose header is `h`, in
/// column order.
pub open spec fn cells_under(headers: Seq<Seq<char>>, cells: Seq<Seq<char>>, h: Seq<char>, n: nat) -> Seq<
    Node,
>
    decreases n,
{
    if n == 0 {
        Seq::empty()
    } else {
        let prev = cells_under(headers, cells, h, (n - 1) as nat);
        if headers[n - 1] == h {
            prev.push(Node::Text(cells[n - 1]))
        } else {
            prev
        }
    }
}

proof fn lemma_cells_under_text(headers: Seq<Seq<char>>, cells: Seq<Seq<char>>, h: Seq<char>, n: nat)
    ensures
        forall|i: int|
            0 <= i < cells_under(headers, cells, h, n).len() ==> #[trigger] cells_under(
                headers,
                cells,
                h,
                n,
            )[i] is Text,
    decreases n,
{
    if n > 0 {
        lemma_cells_under_text(headers, cells, h, (n - 1) as nat);
    }
}

/// With no separator, a document has an entry for `h` exactly when some
/// column is headed `h`.  Where one column is, the entry holds its cell as
/// text; where several are, it holds one flat list of their cells as text,
/// in column order.
pub proof fn law_no_separator_values(headers: Seq<Seq<char>>, cells: Seq<Seq<char>>, n: nat, h: Seq<char>)
    requires
        n <= headers.len(),
        n <= cells.len(),
    ensures
        has_key(assemble(headers, cells, None, n), h) <==> cells_under(headers, cells, h, n).len() > 0,
        cells_under(headers, cells, h, n).len() == 1 ==> assemble(headers, cells, None, n)[key_index(
            assemble(headers, cells, None, n),
            h,
        )].1 == cells_under(headers, cells, h, n)[0],
        cells_under(headers, cells, h, n).len() >= 2 ==> assemble(headers, cells, None, n)[key_index(
            assemble(headers, cells, None, n),
            h,
        )].1 == Node::List(cells_under(headers, cells, h, n)),
    decreases n,
{
    if n > 0 {
        law_no_separator_values(headers, cells, (n - 1) as nat, h);
        law_document_keys_unique(headers, cells, None, (n - 1) as nat);
        let prev = assemble(headers, cells, None, (n - 1) as nat);
        let doc = assemble(headers, cells, None, n);
        let k = headers[n - 1];
        let c = Node::Text(cells[n - 1]);
        let pc = cells_under(headers, cells, h, (n - 1) as nat);
        let nc = cells_under(headers, cells, h, n);
        assert(doc == upsert(prev, k, c));
        if has_key(prev, k) {
            let w = choose|w: int| 0 <= w < prev.len() && prev[w].0 == k;
            assert(is_first_key(prev, k, w)) by {
                assert forall|j: int| 0 <= j < w implies prev[j].0 != k by {
                    assert(prev[j].0 != prev[w].0);
                }
            }
            lemma_key_index(prev, k, w);
        }
        // The names of the document stay where they were, so `h` keeps its place.
        if has_key(prev, h) {
            let q = choose|q: int| 0 <= q < prev.len() && prev[q].0 == h;
            assert(is_first_key(prev, h, q)) by {
                assert forall|j: int| 0 <= j < q implies prev[j].0 != h by {
                    assert(prev[j].0 != prev[q].0);
                }
            }
            lemma_key_index(prev, h, q);
            assert(is_first_key(doc, h, q));
            lemma_key_index(doc, h, q);
            if k == h {
                assert(nc == pc.push(c));
                lemma_cells_under_text(headers, cells, h, (n - 1) as nat);
                if pc.len() == 1 {
                    assert(pc[0] is Text);
                    assert(nc =~= seq![pc[0], c]);
                }
            } else {
                assert(nc == pc);
            }
        } else if k == h {
            assert(is_first_key(doc, h, prev.len() as int));
            lemma_key_index(doc, h, prev.len() as int);
            assert(nc == pc.push(c));
        } else {
            assert(nc == pc);
            assert(!has_key(doc, h)) by {
                if has_key(doc, h) {
                    let w = choose|w: int| 0 <= w < doc.len() && doc[w].0 == h;
                    if w < prev.len() {
                        assert(prev[w].0 == h);
                    }
                }
            }
        }
    }
}

} // verus!
