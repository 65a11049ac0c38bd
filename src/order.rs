use vstd::prelude::*;
use crate::model::Entry;

verus! {

/// A name is hidden when it is text and its first byte is a dot; a name
/// that is not text is never hidden.
pub open spec fn spec_hidden(name: Seq<u8>, utf8: bool) -> bool {
    utf8 && name.len() > 0 && name[0] == 46u8
}

/// Whether an entry takes part in a listing.
pub open spec fn shown(e: Entry, show_hidden: bool) -> bool {
    show_hidden || !spec_hidden(e.name@, e.utf8)
}

/// Strict lexicographic order on byte strings.
pub open spec fn name_lt(a: Seq<u8>, b: Seq<u8>) -> bool
    decreases a.len(),
{
    if b.len() == 0 {
        false
    } else if a.len() == 0 {
        true
    } else if a[0] != b[0] {
        a[0] < b[0]
    } else {
        name_lt(a.drop_first(), b.drop_first())
    }
}

/// Places index `j` into `ord` after every entry whose name is not greater
/// than that of `kids[j]`.
pub open spec fn insert_by_name(ord: Seq<usize>, j: usize, kids: Seq<Entry>) -> Seq<usize>
    decreases ord.len(),
{
    if ord.len() == 0 {
        seq![j]
    } else if name_lt(kids[j as int].name@, kids[ord[0] as int].name@) {
        seq![j] + ord
    } else {
        seq![ord[0]] + insert_by_name(ord.drop_first(), j, kids)
    }
}

/// The shown entries among the first `n` of `kids`, as indices sorted by
/// name; entries with equal names keep their order. Indices are machine
/// words, so only the first `usize::MAX + 1` entries can take part.
pub open spec fn order_upto(kids: Seq<Entry>, n: nat, show_hidden: bool) -> Seq<usize>
    decreases n,
{
    if n == 0 || n > usize::MAX + 1 {
        seq![]
    } else {
        let o = order_upto(kids, (n - 1) as nat, show_hidden);
        if shown(kids[n - 1], show_hidden) {
            insert_by_name(o, (n - 1) as usize, kids)
        } else {
            o
        }
    }
}

/// The order in which the entries of a directory are listed.
pub open spec fn arrangement(kids: Seq<Entry>, show_hidden: bool) -> Seq<usize> {
    order_upto(kids, kids.len(), show_hidden)
}

/// Whether a name marks a hidden entry.
pub fn is_hidden(name: &Vec<u8>, utf8: bool) -> (r: bool)
    ensures
        r == spec_hidden(name@, utf8),
{
    utf8 && name.len() > 0 && name[0] == 46u8
}

/// Whether an entry takes part in a listing.
pub fn is_shown(e: &Entry, show_hidden: bool) -> (r: bool)
    ensures
        r == shown(*e, show_hidden),
{
    show_hidden || !is_hidden(&e.name, e.utf8)
}

proof fn lemma_name_lt_step(a: Seq<u8>, b: Seq<u8>, i: int)
    requires
        0 <= i < a.len(),
        i < b.len(),
        a[i] == b[i],
    ensures
        name_lt(a.skip(i), b.skip(i)) == name_lt(a.skip(i + 1), b.skip(i + 1)),
{
    assert(a.skip(i).drop_first() =~= a.skip(i + 1));
    assert(b.skip(i).drop_first() =~= b.skip(i + 1));
}

/// Compares two names byte by byte.
pub fn name_less(a: &Vec<u8>, b: &Vec<u8>) -> (r: bool)
    ensures
        r == name_lt(a@, b@),
{
    let mut i: usize = 0;
    assert(a@.skip(0) =~= a@);
    assert(b@.skip(0) =~= b@);
    while i < a.len() && i < b.len() && a[i] == b[i]
        invariant
            i <= a.len(),
            i <= b.len(),
            name_lt(a@, b@) == name_lt(a@.skip(i as int), b@.skip(i as int)),
        decreases a.len() - i,
    {
        proof {
            lemma_name_lt_step(a@, b@, i as int);
        }
        i += 1;
    }
    if i == b.len() {
        false
    } else if i == a.len() {
        true
    } else {
        a[i] < b[i]
    }
}

proof fn lemma_insert_at(ord: Seq<usize>, j: usize, kids: Seq<Entry>, p: int)
    requires
        0 <= p <= ord.len(),
        forall|k: int| 0 <= k < p ==> !name_lt(kids[j as int].name@, #[trigger] kids[ord[k] as int].name@),
        p < ord.len() ==> name_lt(kids[j as int].name@, kids[ord[p] as int].name@),
    ensures
        insert_by_name(ord, j, kids) == ord.insert(p, j),
    decreases ord.len(),
{
    if ord.len() == 0 {
        assert(ord.insert(p, j) =~= seq![j]);
    } else if p == 0 {
        assert(ord.insert(p, j) =~= seq![j] + ord);
    } else {
        let t = ord.drop_first();
        assert forall|k: int| 0 <= k < p - 1 implies !name_lt(kids[j as int].name@, #[trigger] kids[t[k] as int].name@) by {
            assert(t[k] == ord[k + 1]);
        }
        lemma_insert_at(t, j, kids, p - 1);
        assert(ord.insert(p, j) =~= seq![ord[0]] + t.insert(p - 1, j));
    }
}

/// The indices of the shown entries of a directory, sorted by name.
pub fn arrange(kids: &Vec<Entry>, show_hidden: bool) -> (r: Vec<usize>)
    ensures
        r@ == arrangement(kids@, show_hidden),
        forall|k: int| 0 <= k < r@.len() ==> r@[k] < kids@.len(),
        lists_exactly(kids@, r@, kids@.len() as int, show_hidden),
{
    let mut ord: Vec<usize> = Vec::new();
    let mut i: usize = 0;
    while i < kids.len()
        invariant
            i <= kids.len(),
            ord@ == order_upto(kids@, i as nat, show_hidden),
            forall|k: int| 0 <= k < ord@.len() ==> ord@[k] < i,
        decreases kids.len() - i,
    {
        if is_shown(&kids[i], show_hidden) {
            let mut p: usize = 0;
            while p < ord.len() && !name_less(&kids[i].name, &kids[ord[p]].name)
                invariant
                    i < kids.len(),
                    p <= ord@.len(),
                    forall|k: int| 0 <= k < ord@.len() ==> ord@[k] < i,
                    forall|k: int|
                        0 <= k < p ==> !name_lt(kids@[i as int].name@, #[trigger] kids@[ord@[k] as int].name@),
                decreases ord.len() - p,
            {
                p += 1;
            }
            proof {
                lemma_insert_at(ord@, i, kids@, p as int);
            }
            ord.insert(p, i);
        }
        i += 1;
    }
    proof {
        lemma_arrangement_exact(kids@, show_hidden);
    }
    ord
}

/// The names of `ord`'s entries never go down.
pub open spec fn sorted_by_name(kids: Seq<Entry>, ord: Seq<usize>) -> bool {
    forall|a: int, b: int|
        0 <= a < b < ord.len() ==> !name_lt(#[trigger] kids[ord[b] as int].name@, #[trigger] kids[ord[a] as int].name@)
}

pub proof fn lemma_name_lt_transitive(a: Seq<u8>, b: Seq<u8>, c: Seq<u8>)
    requires
        name_lt(a, b),
        name_lt(b, c),
    ensures
        name_lt(a, c),
    decreases a.len(),
{
    if a.len() > 0 && a[0] == b[0] && b[0] == c[0] {
        lemma_name_lt_transitive(a.drop_first(), b.drop_first(), c.drop_first());
    }
}

pub proof fn lemma_insert_members(ord: Seq<usize>, j: usize, kids: Seq<Entry>)
    ensures
        insert_by_name(ord, j, kids).len() == ord.len() + 1,
        forall|k: int|
            0 <= k < ord.len() + 1 ==> (#[trigger] insert_by_name(ord, j, kids)[k] == j
                || ord.contains(insert_by_name(ord, j, kids)[k])),
    decreases ord.len(),
{
    let r = insert_by_name(ord, j, kids);
    if ord.len() > 0 && !name_lt(kids[j as int].name@, kids[ord[0] as int].name@) {
        let t = ord.drop_first();
        lemma_insert_members(t, j, kids);
        assert forall|k: int| 0 <= k < ord.len() + 1 implies (#[trigger] r[k] == j || ord.contains(r[k])) by {
            if k > 0 {
                let x = insert_by_name(t, j, kids)[k - 1];
                assert(r[k] == x);
                if x != j {
                    let m = choose|m: int| 0 <= m < t.len() && t[m] == x;
                    assert(ord[m + 1] == x);
                }
            } else {
                assert(ord[0] == r[0]);
            }
        }
    } else if ord.len() > 0 {
        assert forall|k: int| 0 <= k < ord.len() + 1 implies (#[trigger] r[k] == j || ord.contains(r[k])) by {
            if k > 0 {
                assert(r[k] == ord[k - 1]);
            }
        }
    }
}

proof fn lemma_insert_sorted(ord: Seq<usize>, j: usize, kids: Seq<Entry>)
    requires
        sorted_by_name(kids, ord),
    ensures
        sorted_by_name(kids, insert_by_name(ord, j, kids)),
    decreases ord.len(),
{
    let r = insert_by_name(ord, j, kids);
    if ord.len() == 0 {
    } else if name_lt(kids[j as int].name@, kids[ord[0] as int].name@) {
        assert forall|a: int, b: int| 0 <= a < b < r.len() implies
            !name_lt(#[trigger] kids[r[b] as int].name@, #[trigger] kids[r[a] as int].name@) by {
            assert(r[b] == ord[b - 1]);
            if a == 0 {
                if name_lt(kids[r[b] as int].name@, kids[j as int].name@) {
                    lemma_name_lt_transitive(kids[r[b] as int].name@, kids[j as int].name@, kids[ord[0] as int].name@);
                    if b - 1 > 0 {
                        assert(!name_lt(kids[ord[b - 1] as int].name@, kids[ord[0] as int].name@));
                    } else {
                        lemma_name_lt_irreflexive(kids[ord[0] as int].name@);
                    }
                }
            } else {
                assert(r[a] == ord[a - 1]);
            }
        }
    } else {
        let t = ord.drop_first();
        assert(sorted_by_name(kids, t)) by {
            assert forall|a: int, b: int| 0 <= a < b < t.len() implies
                !name_lt(#[trigger] kids[t[b] as int].name@, #[trigger] kids[t[a] as int].name@) by {
                assert(t[a] == ord[a + 1] && t[b] == ord[b + 1]);
            }
        }
        lemma_insert_sorted(t, j, kids);
        lemma_insert_members(t, j, kids);
        let rt = insert_by_name(t, j, kids);
        assert forall|a: int, b: int| 0 <= a < b < r.len() implies
            !name_lt(#[trigger] kids[r[b] as int].name@, #[trigger] kids[r[a] as int].name@) by {
            assert(r[b] == rt[b - 1]);
            if a == 0 {
                assert(r[0] == ord[0]);
                if rt[b - 1] != j {
                    let m = choose|m: int| 0 <= m < t.len() && t[m] == rt[b - 1];
                    assert(ord[m + 1] == rt[b - 1]);
                }
            } else {
                assert(r[a] == rt[a - 1]);
            }
        }
    }
}

pub proof fn lemma_name_lt_irreflexive(a: Seq<u8>)
    ensures
        !name_lt(a, a),
    decreases a.len(),
{
    if a.len() > 0 {
        lemma_name_lt_irreflexive(a.drop_first());
    }
}

/// Every listing order is sorted by name.
pub proof fn lemma_order_sorted(kids: Seq<Entry>, n: nat, show_hidden: bool)
    ensures
        sorted_by_name(kids, order_upto(kids, n, show_hidden)),
    decreases n,
{
    if n > 0 && n <= usize::MAX + 1 {
        lemma_order_sorted(kids, (n - 1) as nat, show_hidden);
        if shown(kids[n - 1], show_hidden) {
            lemma_insert_sorted(order_upto(kids, (n - 1) as nat, show_hidden), (n - 1) as usize, kids);
        }
    }
}

/// `ord` lists the shown entries among the first `n` of `kids`: each exactly
/// once, sorted by name, entries with equal names in the order they are
/// stored.
pub open spec fn lists_exactly(kids: Seq<Entry>, ord: Seq<usize>, n: int, show_hidden: bool) -> bool {
    &&& forall|k: int| 0 <= k < ord.len() ==> #[trigger] ord[k] < n && shown(kids[ord[k] as int], show_hidden)
    &&& forall|j: int| 0 <= j < n && #[trigger] shown(kids[j], show_hidden) ==> ord.contains(j as usize)
    &&& forall|a: int, b: int| 0 <= a < b < ord.len() ==> #[trigger] ord[a] != #[trigger] ord[b]
    &&& sorted_by_name(kids, ord)
    &&& forall|a: int, b: int|
        0 <= a < b < ord.len() && #[trigger] kids[ord[a] as int].name@ == #[trigger] kids[ord[b] as int].name@
            ==> ord[a] < ord[b]
}

proof fn lemma_insert_shape(ord: Seq<usize>, j: usize, kids: Seq<Entry>) -> (p: int)
    ensures
        0 <= p <= ord.len(),
        forall|k: int| 0 <= k < p ==> !name_lt(kids[j as int].name@, #[trigger] kids[ord[k] as int].name@),
        p < ord.len() ==> name_lt(kids[j as int].name@, kids[ord[p] as int].name@),
        insert_by_name(ord, j, kids) == ord.insert(p, j),
    decreases ord.len(),
{
    if ord.len() == 0 || name_lt(kids[j as int].name@, kids[ord[0] as int].name@) {
        lemma_insert_at(ord, j, kids, 0);
        0
    } else {
        let t = ord.drop_first();
        let q = lemma_insert_shape(t, j, kids);
        assert forall|k: int| 0 <= k < q + 1 implies !name_lt(kids[j as int].name@, #[trigger] kids[ord[k] as int].name@) by {
            if k > 0 {
                assert(ord[k] == t[k - 1]);
            }
        }
        lemma_insert_at(ord, j, kids, q + 1);
        q + 1
    }
}

proof fn lemma_order_exact(kids: Seq<Entry>, n: nat, show_hidden: bool)
    requires
        n <= kids.len(),
        n <= usize::MAX + 1,
    ensures
        lists_exactly(kids, order_upto(kids, n, show_hidden), n as int, show_hidden),
    decreases n,
{
    lemma_order_sorted(kids, n, show_hidden);
    if n > 0 {
        let m = (n - 1) as nat;
        let j = m as usize;
        let o = order_upto(kids, m, show_hidden);
        lemma_order_exact(kids, m, show_hidden);
        lemma_order_sorted(kids, m, show_hidden);
        if shown(kids[m as int], show_hidden) {
            let p = lemma_insert_shape(o, j, kids);
            let r = o.insert(p, j);
            o.insert_ensures(p, j);
            assert(r == order_upto(kids, n, show_hidden));
            assert forall|k: int| 0 <= k < r.len() implies
                (if k < p { #[trigger] r[k] == o[k] } else if k == p { r[k] == j } else { r[k] == o[k - 1] }) by {
                if k > p {
                    assert(r[(k - 1) + 1] == o[k - 1]);
                }
            }
            assert forall|k: int| 0 <= k < r.len() implies #[trigger] r[k] < n && shown(kids[r[k] as int], show_hidden) by {
                if k < p {
                    assert(o[k] < m);
                } else if k > p {
                    assert(o[k - 1] < m);
                }
            }
            assert forall|i: int| 0 <= i < n && #[trigger] shown(kids[i], show_hidden) implies r.contains(i as usize) by {
                if i == m {
                    assert(r[p] == j);
                } else {
                    assert(o.contains(i as usize));
                    let q = choose|q: int| 0 <= q < o.len() && o[q] == i as usize;
                    if q < p {
                        assert(r[q] == o[q]);
                    } else {
                        assert(r[q + 1] == o[q]);
                    }
                }
            }
            assert forall|a: int, b: int| 0 <= a < b < r.len() implies #[trigger] r[a] != #[trigger] r[b] by {
                if a < p && b < p {
                    assert(o[a] != o[b]);
                } else if a < p && b > p {
                    assert(o[a] != o[b - 1]);
                } else if a > p {
                    assert(o[a - 1] != o[b - 1]);
                } else if a == p {
                    assert(o[b - 1] < m);
                } else {
                    assert(o[a] < m);
                }
            }
            assert forall|a: int, b: int|
                0 <= a < b < r.len() && #[trigger] kids[r[a] as int].name@ == #[trigger] kids[r[b] as int].name@
                implies r[a] < r[b] by {
                if a < p && b < p {
                    assert(o[a] < o[b]);
                } else if a < p && b > p {
                    assert(o[a] < o[b - 1]);
                } else if a > p {
                    assert(o[a - 1] < o[b - 1]);
                } else if a == p {
                    let x = o[b - 1];
                    let y = o[p];
                    assert(name_lt(kids[x as int].name@, kids[y as int].name@));
                    if b - 1 == p {
                        lemma_name_lt_irreflexive(kids[y as int].name@);
                    } else {
                        assert(!name_lt(kids[o[b - 1] as int].name@, kids[o[p] as int].name@));
                    }
                } else {
                    assert(o[a] < m);
                }
            }
        } else {
            let o = order_upto(kids, m, show_hidden);
            assert(order_upto(kids, n, show_hidden) == o);
        }
    }
}

/// The listing order holds each shown entry exactly once, sorted by name,
/// entries with equal names in the order they are stored.
pub proof fn lemma_arrangement_exact(kids: Seq<Entry>, show_hidden: bool)
    requires
        kids.len() <= usize::MAX,
    ensures
        lists_exactly(kids, arrangement(kids, show_hidden), kids.len() as int, show_hidden),
{
    lemma_order_exact(kids, kids.len(), show_hidden);
}

} // verus!
