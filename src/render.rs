use vstd::prelude::*;
use crate::model::{Entry, Kind, Line, LineView, Link, Listing, Request, Summary, lines_view, may_list, spec_deeper, can_list, deeper};
use crate::order::{arrangement, arrange};
use crate::text::{spec_connector, spec_fragment, spec_arrow, summary_text, connector, fragment, arrow, summary_line};

verus! {

/// What a walk yields: its lines in order, and exact counts.
pub struct Tally {
    pub lines: Seq<LineView>,
    pub dirs: nat,
    pub files: nat,
}

pub open spec fn empty_tally() -> Tally {
    Tally { lines: seq![], dirs: 0, files: 0 }
}

/// The largest count a `u64` holds stands for every larger one.
pub open spec fn clamp(n: nat) -> nat {
    if n > u64::MAX {
        u64::MAX as nat
    } else {
        n
    }
}

/// The name of an entry as printed, with a link's target after an arrow.
pub open spec fn label(e: Entry) -> Seq<char> {
    match e.link {
        Link::Target(t) => e.display@ + spec_arrow() + t@,
        _ => e.display@,
    }
}

/// The tree line of an entry.
pub open spec fn entry_line(prefix: Seq<char>, last: bool, e: Entry) -> Seq<char> {
    prefix + spec_connector(last) + label(e)
}

/// The diagnostic of a link whose target could not be read.
pub open spec fn link_notes(e: Entry) -> Seq<LineView> {
    match e.link {
        Link::Unresolved(m) => seq![LineView::Diag(m@)],
        _ => seq![],
    }
}

/// Whether the walk goes on into an entry: a directory that is not a link,
/// or any directory when links are followed.
pub open spec fn spec_enters(e: Entry, req: Request) -> bool {
    e.kind == Kind::Dir && (e.link is Plain || req.follow_symlinks)
}

pub open spec fn dir_count(e: Entry) -> nat {
    if e.kind == Kind::Dir {
        1
    } else {
        0
    }
}

pub open spec fn file_count(e: Entry) -> nat {
    if e.kind == Kind::File {
        1
    } else {
        0
    }
}

/// The walk over the entries `kids[ord[i]]`, `kids[ord[i + 1]]`, ..., of a
/// directory listed with the level budget `levels`, each line under `prefix`.
pub open spec fn walk_from(
    kids: Seq<Entry>,
    ord: Seq<usize>,
    i: int,
    prefix: Seq<char>,
    levels: Option<u32>,
    req: Request,
) -> Tally
    decreases kids, ord.len() - i,
{
    if i < 0 || i >= ord.len() {
        empty_tally()
    } else {
        let rest = walk_from(kids, ord, i + 1, prefix, levels, req);
        if ord[i] >= kids.len() {
            rest
        } else {
            let e = kids[ord[i] as int];
            let last = i + 1 == ord.len();
            let sub = if spec_enters(e, req) && may_list(spec_deeper(levels)) {
                match e.listing {
                    Listing::Read(v) => walk_from(
                        v@,
                        arrangement(v@, req.show_hidden),
                        0,
                        prefix + spec_fragment(last),
                        spec_deeper(levels),
                        req,
                    ),
                    Listing::Failed(m) => Tally { lines: seq![LineView::Diag(m@)], dirs: 0, files: 0 },
                    Listing::Unread => empty_tally(),
                }
            } else {
                empty_tally()
            };
            Tally {
                lines: seq![LineView::Tree(entry_line(prefix, last, e))] + link_notes(e) + sub.lines
                    + rest.lines,
                dirs: dir_count(e) + sub.dirs + rest.dirs,
                files: file_count(e) + sub.files + rest.files,
            }
        }
    }
}

/// The walk over all entries of a directory, in their listed order.
pub open spec fn level(kids: Seq<Entry>, prefix: Seq<char>, levels: Option<u32>, req: Request) -> Tally {
    walk_from(kids, arrangement(kids, req.show_hidden), 0, prefix, levels, req)
}

/// Whether the walk goes on into an entry.
pub fn enters(e: &Entry, req: &Request) -> (r: bool)
    ensures
        r == spec_enters(*e, *req),
{
    e.kind == Kind::Dir && (matches!(e.link, Link::Plain) || req.follow_symlinks)
}

proof fn lemma_clamp_add(a: nat, b: nat)
    ensures
        clamp(clamp(a) + clamp(b)) == clamp(a + b),
{
}

proof fn lemma_push_view(v: Seq<Line>, x: Line)
    ensures
        lines_view(v.push(x)) == lines_view(v).push(x@),
{
    assert(lines_view(v.push(x)) =~= lines_view(v).push(x@));
}

/// Writes the lines of a directory's entries to `out`, in listing order, each
/// directory that the walk enters followed by its own entries, and counts
/// the directories and files met. `kids` were listed under the level budget
/// `levels`, which must allow the listing; each line begins with `prefix`.
/// Counts beyond `u64::MAX` stay at `u64::MAX`.
pub fn walk(kids: &Vec<Entry>, prefix: &String, levels: Option<u32>, req: &Request, out: &mut Vec<Line>) -> (s: Summary)
    requires
        may_list(levels),
    ensures
        lines_view(final(out)@) == lines_view(old(out)@) + level(kids@, prefix@, levels, *req).lines,
        s.dirs == clamp(level(kids@, prefix@, levels, *req).dirs),
        s.files == clamp(level(kids@, prefix@, levels, *req).files),
    decreases kids@,
{
    let ord = arrange(kids, req.show_hidden);
    let ghost start = lines_view(out@);
    let ghost whole = walk_from(kids@, ord@, 0, prefix@, levels, *req);
    let ghost mut done_dirs: nat = 0;
    let ghost mut done_files: nat = 0;
    let mut dirs: u64 = 0;
    let mut files: u64 = 0;
    let mut i: usize = 0;
    while i < ord.len()
        invariant
            i <= ord@.len(),
            ord@ == arrangement(kids@, req.show_hidden),
            forall|k: int| 0 <= k < ord@.len() ==> ord@[k] < kids@.len(),
            whole == walk_from(kids@, ord@, 0, prefix@, levels, *req),
            lines_view(out@) + walk_from(kids@, ord@, i as int, prefix@, levels, *req).lines
                == start + whole.lines,
            done_dirs + walk_from(kids@, ord@, i as int, prefix@, levels, *req).dirs == whole.dirs,
            done_files + walk_from(kids@, ord@, i as int, prefix@, levels, *req).files == whole.files,
            dirs == clamp(done_dirs),
            files == clamp(done_files),
        decreases ord.len() - i,
    {
        let j = ord[i];
        let e = &kids[j];
        let last = i + 1 == ord.len();
        let ghost rest = walk_from(kids@, ord@, i + 1, prefix@, levels, *req);
        let ghost before = lines_view(out@);
        let mut text = prefix.clone();
        text.append(connector(last));
        text.append(e.display.as_str());
        match &e.link {
            Link::Target(t) => {
                text.append(arrow());
                text.append(t.as_str());
            },
            _ => {},
        }
        assert(text@ =~= entry_line(prefix@, last, *e));
        let line = Line::Tree(text);
        proof {
            lemma_push_view(out@, line);
        }
        out.push(line);
        match &e.link {
            Link::Unresolved(m) => {
                let note = Line::Diag(m.clone());
                proof {
                    lemma_push_view(out@, note);
                }
                out.push(note);
            },
            _ => {},
        }
        assert(lines_view(out@) =~= before + seq![LineView::Tree(entry_line(prefix@, last, *e))] + link_notes(*e));
        proof {
            lemma_clamp_add(done_dirs, dir_count(*e));
            lemma_clamp_add(done_files, file_count(*e));
            done_dirs = done_dirs + dir_count(*e);
            done_files = done_files + file_count(*e);
        }
        if e.kind == Kind::Dir {
            dirs = dirs.saturating_add(1);
        } else if e.kind == Kind::File {
            files = files.saturating_add(1);
        }
        if enters(e, req) {
            let next = deeper(levels);
            if can_list(next) {
                match &e.listing {
                    Listing::Read(v) => {
                        let mut inner = prefix.clone();
                        inner.append(fragment(last));
                        proof {
                            assert(decreases_to!(kids@ => kids@[j as int]));
                            assert(decreases_to!(kids@[j as int] => v@));
                        }
                        let sub = walk(v, &inner, next, req, out);
                        proof {
                            let t = level(v@, inner@, next, *req);
                            lemma_clamp_add(done_dirs, t.dirs);
                            lemma_clamp_add(done_files, t.files);
                            done_dirs = done_dirs + t.dirs;
                            done_files = done_files + t.files;
                        }
                        dirs = dirs.saturating_add(sub.dirs);
                        files = files.saturating_add(sub.files);
                    },
                    Listing::Failed(m) => {
                        let note = Line::Diag(m.clone());
                        proof {
                            lemma_push_view(out@, note);
                        }
                        out.push(note);
                    },
                    Listing::Unread => {},
                }
            }
        }
        assert(lines_view(out@) + rest.lines =~= start + whole.lines);
        i += 1;
    }
    Summary { dirs, files }
}

/// What the walk below the root yields.
pub open spec fn root_tally(listing: Listing, req: Request) -> Tally {
    if may_list(req.depth) {
        match listing {
            Listing::Read(v) => level(v@, seq![], req.depth, req),
            _ => empty_tally(),
        }
    } else {
        empty_tally()
    }
}

/// A run fails only when the root itself may be listed and could not be.
pub open spec fn root_fails(listing: Listing, req: Request) -> bool {
    may_list(req.depth) && listing is Failed
}

/// The whole output of a run: the root, the tree below it, a blank line and
/// the counts.
pub open spec fn report_lines(root: Seq<char>, listing: Listing, req: Request) -> Seq<LineView> {
    let t = root_tally(listing, req);
    seq![LineView::Tree(root)] + t.lines + seq![
        LineView::Tree(seq![]),
        LineView::Tree(summary_text(clamp(t.dirs), clamp(t.files))),
    ]
}

/// Renders a run over the root `root`, whose children are `listing`.
/// A root that could not be listed is an error, carrying its diagnostic.
pub fn report(root: &String, listing: &Listing, req: &Request) -> (r: Result<Vec<Line>, String>)
    ensures
        r is Err <==> root_fails(*listing, *req),
        match r {
            Ok(v) => lines_view(v@) == report_lines(root@, *listing, *req),
            Err(m) => *listing == Listing::Failed(m),
        },
{
    let mut out: Vec<Line> = Vec::new();
    let head = Line::Tree(root.clone());
    proof {
        lemma_push_view(out@, head);
    }
    out.push(head);
    let mut s = Summary { dirs: 0, files: 0 };
    if can_list(req.depth) {
        match listing {
            Listing::Read(v) => {
                s = walk(v, &String::new(), req.depth, req, &mut out);
            },
            Listing::Failed(m) => {
                return Err(m.clone());
            },
            Listing::Unread => {},
        }
    }
    let blank = Line::Tree(String::new());
    proof {
        lemma_push_view(out@, blank);
    }
    out.push(blank);
    let counts = Line::Tree(summary_line(s.dirs, s.files));
    proof {
        lemma_push_view(out@, counts);
    }
    out.push(counts);
    assert(lines_view(out@) =~= report_lines(root@, *listing, *req));
    Ok(out)
}

} // verus!
