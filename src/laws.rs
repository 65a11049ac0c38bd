use vstd::prelude::*;
use crate::model::{Entry, LineView, Listing, Request, may_list, spec_deeper};
use crate::order::{arrangement, order_upto, insert_by_name, shown, sorted_by_name, name_lt, lemma_order_sorted};
use crate::render::{Tally, walk_from, level, spec_enters, dir_count, file_count, entry_line, link_notes};
use crate::text::{spec_connector, spec_fragment};

verus! {

/// How many entries, directories and files an enumeration met.
pub struct Census {
    pub entries: nat,
    pub dirs: nat,
    pub files: nat,
}

pub open spec fn no_census() -> Census {
    Census { entries: 0, dirs: 0, files: 0 }
}

pub open spec fn plus(a: Census, b: Census) -> Census {
    Census { entries: a.entries + b.entries, dirs: a.dirs + b.dirs, files: a.files + b.files }
}

/// The number of tree lines (not diagnostics) among `s`.
pub open spec fn tree_count(s: Seq<LineView>) -> nat
    decreases s.len(),
{
    if s.len() == 0 {
        0
    } else {
        (if s[0] is Tree { 1nat } else { 0nat }) + tree_count(s.drop_first())
    }
}

/// Counts the first `n` entries of `kids` in their stored order, and below
/// each directory that a walk enters: every shown entry, every directory,
/// every file. Like a listing order, it goes no further than the entries
/// that a machine word can index.
pub open spec fn census(kids: Seq<Entry>, n: int, levels: Option<u32>, req: Request) -> Census
    decreases kids, n,
{
    if n <= 0 || n > kids.len() || n > usize::MAX + 1 {
        no_census()
    } else {
        let before = census(kids, n - 1, levels, req);
        let e = kids[n - 1];
        if shown(e, req.show_hidden) {
            let below = if spec_enters(e, req) && may_list(spec_deeper(levels)) {
                match e.listing {
                    Listing::Read(v) => census(v@, v@.len() as int, spec_deeper(levels), req),
                    _ => no_census(),
                }
            } else {
                no_census()
            };
            Census {
                entries: before.entries + 1 + below.entries,
                dirs: before.dirs + dir_count(e) + below.dirs,
                files: before.files + file_count(e) + below.files,
            }
        } else {
            before
        }
    }
}

/// Counts every entry of a tree, at any depth, hidden or not, entering each
/// directory that is not a link, and links too when they are followed.
pub open spec fn flat_census(kids: Seq<Entry>, n: int, follow_symlinks: bool) -> Census
    decreases kids, n,
{
    if n <= 0 || n > kids.len() || n > usize::MAX + 1 {
        no_census()
    } else {
        let before = flat_census(kids, n - 1, follow_symlinks);
        let e = kids[n - 1];
        let below = if e.kind == crate::model::Kind::Dir && (e.link is Plain || follow_symlinks) {
            match e.listing {
                Listing::Read(v) => flat_census(v@, v@.len() as int, follow_symlinks),
                _ => no_census(),
            }
        } else {
            no_census()
        };
        Census {
            entries: before.entries + 1 + below.entries,
            dirs: before.dirs + dir_count(e) + below.dirs,
            files: before.files + file_count(e) + below.files,
        }
    }
}

/// What one shown entry adds to a census.
pub open spec fn contribution(e: Entry, levels: Option<u32>, req: Request) -> Census {
    let below = if spec_enters(e, req) && may_list(spec_deeper(levels)) {
        match e.listing {
            Listing::Read(v) => census(v@, v@.len() as int, spec_deeper(levels), req),
            _ => no_census(),
        }
    } else {
        no_census()
    };
    Census { entries: 1 + below.entries, dirs: dir_count(e) + below.dirs, files: file_count(e) + below.files }
}

/// The census of the entries `kids[s[0]]`, `kids[s[1]]`, ...
pub open spec fn census_along(kids: Seq<Entry>, s: Seq<usize>, levels: Option<u32>, req: Request) -> Census
    decreases s.len(),
{
    if s.len() == 0 {
        no_census()
    } else {
        plus(contribution(kids[s[0] as int], levels, req), census_along(kids, s.drop_first(), levels, req))
    }
}

proof fn lemma_tree_count_concat(a: Seq<LineView>, b: Seq<LineView>)
    ensures
        tree_count(a + b) == tree_count(a) + tree_count(b),
    decreases a.len(),
{
    if a.len() > 0 {
        assert((a + b).drop_first() =~= a.drop_first() + b);
        lemma_tree_count_concat(a.drop_first(), b);
    } else {
        assert(a + b =~= b);
    }
}

/// Every index of a listing order names an entry.
pub proof fn lemma_order_in_range(kids: Seq<Entry>, n: nat, show_hidden: bool)
    requires
        n <= kids.len(),
    ensures
        forall|k: int| 0 <= k < order_upto(kids, n, show_hidden).len() ==> #[trigger] order_upto(kids, n, show_hidden)[k] < n,
    decreases n,
{
    if n > 0 {
        let o = order_upto(kids, (n - 1) as nat, show_hidden);
        lemma_order_in_range(kids, (n - 1) as nat, show_hidden);
        if shown(kids[n - 1], show_hidden) {
            crate::order::lemma_insert_members(o, (n - 1) as usize, kids);
            let r = insert_by_name(o, (n - 1) as usize, kids);
            assert forall|k: int| 0 <= k < r.len() implies #[trigger] r[k] < n by {
                if r[k] != (n - 1) as usize {
                    let m = choose|m: int| 0 <= m < o.len() && o[m] == r[k];
                    assert(o[m] < n - 1);
                }
            }
        }
    }
}

proof fn lemma_census_insert(ord: Seq<usize>, j: usize, kids: Seq<Entry>, levels: Option<u32>, req: Request)
    ensures
        census_along(kids, insert_by_name(ord, j, kids), levels, req)
            == plus(contribution(kids[j as int], levels, req), census_along(kids, ord, levels, req)),
    decreases ord.len(),
{
    let r = insert_by_name(ord, j, kids);
    let a = contribution(kids[j as int], levels, req);
    assert(r.len() > 0);
    assert(census_along(kids, r, levels, req) == plus(
        contribution(kids[r[0] as int], levels, req),
        census_along(kids, r.drop_first(), levels, req),
    ));
    if ord.len() == 0 {
        assert(r.drop_first() =~= Seq::<usize>::empty());
        assert(r[0] == j);
        assert(census_along(kids, ord, levels, req) == no_census());
        assert(census_along(kids, r.drop_first(), levels, req) == no_census());
    } else if crate::order::name_lt(kids[j as int].name@, kids[ord[0] as int].name@) {
        assert(r.drop_first() =~= ord);
        assert(r[0] == j);
    } else {
        let t = ord.drop_first();
        assert(r.drop_first() =~= insert_by_name(t, j, kids));
        assert(r[0] == ord[0]);
        lemma_census_insert(t, j, kids, levels, req);
        let b = contribution(kids[ord[0] as int], levels, req);
        let c = census_along(kids, t, levels, req);
        assert(census_along(kids, ord, levels, req) == plus(b, c));
        assert(plus(b, plus(a, c)) == plus(a, plus(b, c)));
    }
}

proof fn lemma_census_order(kids: Seq<Entry>, n: nat, levels: Option<u32>, req: Request)
    requires
        n <= kids.len(),
    ensures
        census_along(kids, order_upto(kids, n, req.show_hidden), levels, req) == census(kids, n as int, levels, req),
    decreases n,
{
    if n == 0 {
    } else {
        lemma_census_order(kids, (n - 1) as nat, levels, req);
        let o = order_upto(kids, (n - 1) as nat, req.show_hidden);
        if n <= usize::MAX + 1 && shown(kids[n - 1], req.show_hidden) {
            let j = (n - 1) as usize;
            assert(j as int == n - 1);
            lemma_census_insert(o, j, kids, levels, req);
            assert(census(kids, n as int, levels, req) == plus(
                contribution(kids[n - 1], levels, req),
                census(kids, n - 1, levels, req),
            ));
            assert(order_upto(kids, n, req.show_hidden) == insert_by_name(o, j, kids));
        } else if n <= usize::MAX + 1 {
            assert(order_upto(kids, n, req.show_hidden) == o);
            assert(census(kids, n as int, levels, req) == census(kids, n - 1, levels, req));
        } else {
            assert(order_upto(kids, n, req.show_hidden) == Seq::<usize>::empty());
            assert(census(kids, n as int, levels, req) == no_census());
        }
    }
}

#[verifier::spinoff_prover]
#[verifier::rlimit(30)]
proof fn lemma_walk_census(kids: Seq<Entry>, ord: Seq<usize>, i: int, prefix: Seq<char>, levels: Option<u32>, req: Request)
    requires
        0 <= i <= ord.len(),
        forall|k: int| 0 <= k < ord.len() ==> #[trigger] ord[k] < kids.len(),
    ensures
        tree_count(walk_from(kids, ord, i, prefix, levels, req).lines) == census_along(kids, ord.subrange(i, ord.len() as int), levels, req).entries,
        walk_from(kids, ord, i, prefix, levels, req).dirs == census_along(kids, ord.subrange(i, ord.len() as int), levels, req).dirs,
        walk_from(kids, ord, i, prefix, levels, req).files == census_along(kids, ord.subrange(i, ord.len() as int), levels, req).files,
    decreases kids, ord.len() - i,
{
    if i < ord.len() {
        let e = kids[ord[i] as int];
        let last = i + 1 == ord.len();
        let w = walk_from(kids, ord, i, prefix, levels, req);
        let rest = walk_from(kids, ord, i + 1, prefix, levels, req);
        lemma_walk_census(kids, ord, i + 1, prefix, levels, req);
        assert(ord.subrange(i, ord.len() as int).drop_first() =~= ord.subrange(i + 1, ord.len() as int));
        let sub = if spec_enters(e, req) && may_list(spec_deeper(levels)) {
            match e.listing {
                Listing::Read(v) => walk_from(
                    v@,
                    arrangement(v@, req.show_hidden),
                    0,
                    prefix + spec_fragment(last),
                    spec_deeper(levels),
                    req,
                ),
                Listing::Failed(m) => Tally { lines: seq![LineView::Diag(m@)], dirs: 0, files: 0 },
                Listing::Unread => crate::render::empty_tally(),
            }
        } else {
            crate::render::empty_tally()
        };
        assert(w.lines == seq![LineView::Tree(entry_line(prefix, last, e))] + link_notes(e) + sub.lines + rest.lines);
        lemma_tree_count_concat(seq![LineView::Tree(entry_line(prefix, last, e))], link_notes(e));
        lemma_tree_count_concat(seq![LineView::Tree(entry_line(prefix, last, e))] + link_notes(e), sub.lines);
        lemma_tree_count_concat(seq![LineView::Tree(entry_line(prefix, last, e))] + link_notes(e) + sub.lines, rest.lines);
        assert(tree_count(seq![LineView::Tree(entry_line(prefix, last, e))]) == 1) by {
            assert(seq![LineView::Tree(entry_line(prefix, last, e))].drop_first() =~= Seq::<LineView>::empty());
            assert(tree_count(Seq::<LineView>::empty()) == 0);
        }
        match e.link {
            crate::model::Link::Unresolved(m) => {
                assert(seq![LineView::Diag(m@)].drop_first() =~= Seq::<LineView>::empty());
            },
            _ => {},
        }
        if spec_enters(e, req) && may_list(spec_deeper(levels)) {
            match e.listing {
                Listing::Read(v) => {
                    lemma_order_in_range(v@, v@.len(), req.show_hidden);
                    lemma_walk_census(v@, arrangement(v@, req.show_hidden), 0, prefix + spec_fragment(last), spec_deeper(levels), req);
                    assert(arrangement(v@, req.show_hidden).subrange(0, arrangement(v@, req.show_hidden).len() as int) =~= arrangement(v@, req.show_hidden));
                    lemma_census_order(v@, v@.len(), spec_deeper(levels), req);
                },
                Listing::Failed(m) => {
                    assert(seq![LineView::Diag(m@)].drop_first() =~= Seq::<LineView>::empty());
                },
                Listing::Unread => {},
            }
        }
    }
}

/// Each shown entry within the depth budget has exactly one tree line, and
/// the directory and file counts of a walk are those of an enumeration of the
/// tree in its stored order, unsorted.
pub proof fn law_walk_counts(kids: Seq<Entry>, prefix: Seq<char>, levels: Option<u32>, req: Request)
    ensures
        tree_count(level(kids, prefix, levels, req).lines) == census(kids, kids.len() as int, levels, req).entries,
        level(kids, prefix, levels, req).dirs == census(kids, kids.len() as int, levels, req).dirs,
        level(kids, prefix, levels, req).files == census(kids, kids.len() as int, levels, req).files,
{
    let ord = arrangement(kids, req.show_hidden);
    lemma_order_in_range(kids, kids.len(), req.show_hidden);
    lemma_walk_census(kids, ord, 0, prefix, levels, req);
    assert(ord.subrange(0, ord.len() as int) =~= ord);
    lemma_census_order(kids, kids.len(), levels, req);
}

proof fn lemma_census_flat(kids: Seq<Entry>, n: int, req: Request)
    requires
        req.show_hidden,
    ensures
        census(kids, n, None, req) == flat_census(kids, n, req.follow_symlinks),
    decreases kids, n,
{
    if !(n <= 0 || n > kids.len() || n > usize::MAX + 1) {
        lemma_census_flat(kids, n - 1, req);
        let e = kids[n - 1];
        match e.listing {
            Listing::Read(v) => {
                lemma_census_flat(v@, v@.len() as int, req);
            },
            _ => {},
        }
    }
}

/// With every entry shown and no depth limit, the counts of a walk are those
/// of a plain enumeration of the whole tree. `walk` returns these counts
/// exactly wherever they fit in a `u64`, and `u64::MAX` beyond.
pub proof fn law_counts_match_flat_enumeration(kids: Seq<Entry>, prefix: Seq<char>, req: Request)
    requires
        req.show_hidden,
    ensures
        level(kids, prefix, None, req).dirs == flat_census(kids, kids.len() as int, req.follow_symlinks).dirs,
        level(kids, prefix, None, req).files == flat_census(kids, kids.len() as int, req.follow_symlinks).files,
{
    law_walk_counts(kids, prefix, None, req);
    lemma_census_flat(kids, kids.len() as int, req);
}

/// Each entry's line is the prefix, then the corner glyph when the entry is
/// the last one listed in its directory and the tee glyph otherwise, then its
/// label; the walk then goes on with the next sibling under the same prefix.
pub proof fn law_entry_line(kids: Seq<Entry>, i: int, prefix: Seq<char>, levels: Option<u32>, req: Request)
    requires
        0 <= i < arrangement(kids, req.show_hidden).len(),
    ensures
        ({
            let ord = arrangement(kids, req.show_hidden);
            let w = walk_from(kids, ord, i, prefix, levels, req);
            let last = i + 1 == ord.len();
            &&& w.lines[0] == LineView::Tree(prefix + spec_connector(last) + crate::render::label(kids[ord[i] as int]))
            &&& spec_connector(last) == (if last { crate::text::spec_corner() } else { crate::text::spec_tee() })
            &&& w.lines.len() >= 1
            &&& walk_from(kids, ord, i + 1, prefix, levels, req).lines.is_suffix_of(w.lines)
        }),
{
    let ord = arrangement(kids, req.show_hidden);
    lemma_order_in_range(kids, kids.len(), req.show_hidden);
    assert(ord[i] < kids.len());
    let w = walk_from(kids, ord, i, prefix, levels, req);
    let rest = walk_from(kids, ord, i + 1, prefix, levels, req);
    let k = w.lines.len() - rest.lines.len();
    assert(w.lines.subrange(k, w.lines.len() as int) =~= rest.lines);
}

/// Whether `s` begins with `p`.
pub open spec fn begins_with(s: Seq<char>, p: Seq<char>) -> bool {
    p.len() <= s.len() && s.subrange(0, p.len() as int) == p
}

/// Every tree line of a walk begins with the walk's prefix.
proof fn lemma_prefix_kept(kids: Seq<Entry>, ord: Seq<usize>, i: int, prefix: Seq<char>, levels: Option<u32>, req: Request)
    ensures
        forall|k: int|
            0 <= k < walk_from(kids, ord, i, prefix, levels, req).lines.len()
                ==> (#[trigger] walk_from(kids, ord, i, prefix, levels, req).lines[k] matches LineView::Tree(t)
                ==> begins_with(t, prefix)),
    decreases kids, ord.len() - i,
{
    if 0 <= i < ord.len() {
        lemma_prefix_kept(kids, ord, i + 1, prefix, levels, req);
        if ord[i] < kids.len() {
            let e = kids[ord[i] as int];
            let last = i + 1 == ord.len();
            let w = walk_from(kids, ord, i, prefix, levels, req);
            let rest = walk_from(kids, ord, i + 1, prefix, levels, req);
            let head = seq![LineView::Tree(entry_line(prefix, last, e))] + link_notes(e);
            let inner = prefix + spec_fragment(last);
            let sub = if spec_enters(e, req) && may_list(spec_deeper(levels)) {
                match e.listing {
                    Listing::Read(v) => {
                        lemma_prefix_kept(v@, arrangement(v@, req.show_hidden), 0, inner, spec_deeper(levels), req);
                        walk_from(v@, arrangement(v@, req.show_hidden), 0, inner, spec_deeper(levels), req)
                    },
                    Listing::Failed(m) => Tally { lines: seq![LineView::Diag(m@)], dirs: 0, files: 0 },
                    Listing::Unread => crate::render::empty_tally(),
                }
            } else {
                crate::render::empty_tally()
            };
            assert(w.lines == head + sub.lines + rest.lines);
            assert(entry_line(prefix, last, e).subrange(0, prefix.len() as int) =~= prefix);
            assert forall|k: int| 0 <= k < w.lines.len() implies (#[trigger] w.lines[k] matches LineView::Tree(t)
                ==> begins_with(t, prefix)) by {
                if k >= head.len() + sub.lines.len() {
                    assert(w.lines[k] == rest.lines[k - head.len() - sub.lines.len()]);
                } else if k >= head.len() {
                    assert(w.lines[k] == sub.lines[k - head.len()]);
                    if let LineView::Tree(t) = w.lines[k] {
                        assert(begins_with(t, inner));
                        assert(t.subrange(0, prefix.len() as int) =~= inner.subrange(0, prefix.len() as int));
                        assert(inner.subrange(0, prefix.len() as int) =~= prefix);
                    }
                }
            }
        }
    }
}

/// Every line below an entry begins with the prefix of that entry's own line
/// followed by exactly one indentation fragment; the prefix of every later
/// sibling is the entry's own prefix again, with no fragment of it left.
pub proof fn law_prefix_scoped(kids: Seq<Entry>, i: int, prefix: Seq<char>, levels: Option<u32>, req: Request)
    requires
        0 <= i < arrangement(kids, req.show_hidden).len(),
    ensures
        ({
            let ord = arrangement(kids, req.show_hidden);
            let e = kids[ord[i] as int];
            let last = i + 1 == ord.len();
            let inner = prefix + spec_fragment(last);
            &&& spec_fragment(last).len() == 4
            &&& forall|v: Vec<Entry>| e.listing == Listing::Read(v) ==>
                forall|k: int| 0 <= k < level(v@, inner, spec_deeper(levels), req).lines.len()
                    ==> (#[trigger] level(v@, inner, spec_deeper(levels), req).lines[k] matches LineView::Tree(t) ==> begins_with(t, inner))
            &&& forall|k: int| 0 <= k < walk_from(kids, ord, i + 1, prefix, levels, req).lines.len()
                ==> (#[trigger] walk_from(kids, ord, i + 1, prefix, levels, req).lines[k] matches LineView::Tree(t)
                ==> begins_with(t, prefix))
        }),
{
    let ord = arrangement(kids, req.show_hidden);
    lemma_order_in_range(kids, kids.len(), req.show_hidden);
    let e = kids[ord[i] as int];
    let last = i + 1 == ord.len();
    let inner = prefix + spec_fragment(last);
    lemma_prefix_kept(kids, ord, i + 1, prefix, levels, req);
    match e.listing {
        Listing::Read(v) => {
            lemma_prefix_kept(v@, arrangement(v@, req.show_hidden), 0, inner, spec_deeper(levels), req);
        },
        _ => {},
    }
}

/// Entries are listed in ascending order of their names, so the entry that
/// gets the corner glyph has a name no smaller than any of its siblings'.
pub proof fn law_listing_sorted(kids: Seq<Entry>, show_hidden: bool)
    ensures
        sorted_by_name(kids, arrangement(kids, show_hidden)),
        ({
            let ord = arrangement(kids, show_hidden);
            ord.len() > 0 ==> forall|k: int| 0 <= k < ord.len() ==>
                !name_lt(kids[ord[ord.len() - 1] as int].name@, #[trigger] kids[ord[k] as int].name@)
        }),
{
    let ord = arrangement(kids, show_hidden);
    lemma_order_sorted(kids, kids.len(), show_hidden);
    if ord.len() > 0 {
        assert forall|k: int| 0 <= k < ord.len() implies
            !name_lt(kids[ord[ord.len() - 1] as int].name@, #[trigger] kids[ord[k] as int].name@) by {
            if k == ord.len() - 1 {
                crate::order::lemma_name_lt_irreflexive(kids[ord[k] as int].name@);
            }
        }
    }
}

/// Whether `f` is made of whole indentation fragments and nothing else.
pub open spec fn margin(f: Seq<char>) -> bool
    decreases f.len(),
{
    if f.len() == 0 {
        true
    } else if f.len() < 4 {
        false
    } else {
        (f.take(4) == spec_fragment(true) || f.take(4) == spec_fragment(false)) && margin(f.skip(4))
    }
}

/// `t` is `prefix`, then `d` indentation fragments, then a connector glyph.
pub open spec fn framed_at(t: Seq<char>, prefix: Seq<char>, d: nat) -> bool {
    let m = prefix.len() as int + 4 * d as int;
    &&& m + 4 <= t.len()
    &&& t.subrange(0, prefix.len() as int) == prefix
    &&& margin(t.subrange(prefix.len() as int, m))
    &&& (t.subrange(m, m + 4) == crate::text::spec_corner() || t.subrange(m, m + 4) == crate::text::spec_tee())
}

proof fn lemma_framed(kids: Seq<Entry>, ord: Seq<usize>, i: int, prefix: Seq<char>, levels: Option<u32>, req: Request)
    ensures
        forall|k: int|
            0 <= k < walk_from(kids, ord, i, prefix, levels, req).lines.len()
                ==> (#[trigger] walk_from(kids, ord, i, prefix, levels, req).lines[k] is Tree
                ==> exists|d: nat| framed_at(walk_from(kids, ord, i, prefix, levels, req).lines[k]->Tree_0, prefix, d)),
    decreases kids, ord.len() - i,
{
    if 0 <= i < ord.len() {
        lemma_framed(kids, ord, i + 1, prefix, levels, req);
        if ord[i] < kids.len() {
            let e = kids[ord[i] as int];
            let last = i + 1 == ord.len();
            let w = walk_from(kids, ord, i, prefix, levels, req);
            let rest = walk_from(kids, ord, i + 1, prefix, levels, req);
            let head = seq![LineView::Tree(entry_line(prefix, last, e))] + link_notes(e);
            let inner = prefix + spec_fragment(last);
            let sub = if spec_enters(e, req) && may_list(spec_deeper(levels)) {
                match e.listing {
                    Listing::Read(v) => {
                        lemma_framed(v@, arrangement(v@, req.show_hidden), 0, inner, spec_deeper(levels), req);
                        walk_from(v@, arrangement(v@, req.show_hidden), 0, inner, spec_deeper(levels), req)
                    },
                    Listing::Failed(m) => Tally { lines: seq![LineView::Diag(m@)], dirs: 0, files: 0 },
                    Listing::Unread => crate::render::empty_tally(),
                }
            } else {
                crate::render::empty_tally()
            };
            assert(w.lines == head + sub.lines + rest.lines);
            let own = entry_line(prefix, last, e);
            assert(own.subrange(0, prefix.len() as int) =~= prefix);
            assert(own.subrange(prefix.len() as int, prefix.len() as int) =~= Seq::<char>::empty());
            assert(own.subrange(prefix.len() as int, prefix.len() + 4int) =~= spec_connector(last));
            assert forall|k: int| 0 <= k < w.lines.len() implies (#[trigger] w.lines[k] is Tree
                ==> exists|d: nat| framed_at(w.lines[k]->Tree_0, prefix, d)) by {
                if k >= head.len() + sub.lines.len() {
                    let r = k - head.len() - sub.lines.len();
                    assert(w.lines[k] == rest.lines[r]);
                    if rest.lines[r] is Tree {
                        assert(exists|d: nat| framed_at(rest.lines[r]->Tree_0, prefix, d));
                    }
                } else if k >= head.len() {
                    let r = k - head.len();
                    assert(w.lines[k] == sub.lines[r]);
                    if sub.lines[r] is Tree {
                        let t = sub.lines[r]->Tree_0;
                        assert(spec_enters(e, req) && may_list(spec_deeper(levels)) && e.listing is Read);
                        assert(exists|d: nat| framed_at(t, inner, d));
                        let d = choose|d: nat| framed_at(t, inner, d);
                        let p = prefix.len() as int;
                        let m = p + 4 + 4 * d;
                        let f = t.subrange(p, m);
                        assert(t.subrange(0, p) =~= inner.subrange(0, p));
                        assert(inner.subrange(0, p) =~= prefix);
                        assert(f.take(4) =~= t.subrange(p, p + 4));
                        assert(t.subrange(p, p + 4) =~= inner.subrange(p, p + 4));
                        assert(inner.subrange(p, p + 4) =~= spec_fragment(last));
                        assert(f.skip(4) =~= t.subrange(p + 4, m));
                        assert(margin(f));
                        assert(framed_at(t, prefix, d + 1));
                        assert(framed_at(w.lines[k]->Tree_0, prefix, d + 1));
                    }
                } else {
                    assert(w.lines[k] == head[k]);
                    if k == 0 {
                        assert(w.lines[0] == LineView::Tree(own));
                        assert(w.lines[k]->Tree_0 == own);
                        assert(framed_at(w.lines[k]->Tree_0, prefix, 0nat));
                    } else {
                        assert(!(head[k] is Tree));
                    }
                }
            }
        }
    }
}

/// The left margin of every tree line of a walk is the walk's prefix followed
/// by whole indentation fragments only, one per directory opened below it,
/// and then exactly one connector glyph.
pub proof fn law_lines_framed(kids: Seq<Entry>, prefix: Seq<char>, levels: Option<u32>, req: Request)
    ensures
        forall|k: int|
            0 <= k < level(kids, prefix, levels, req).lines.len()
                ==> (#[trigger] level(kids, prefix, levels, req).lines[k] is Tree
                ==> exists|d: nat| framed_at(level(kids, prefix, levels, req).lines[k]->Tree_0, prefix, d)),
{
    lemma_framed(kids, arrangement(kids, req.show_hidden), 0, prefix, levels, req);
}

} // verus!
