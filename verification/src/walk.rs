//! The traversal model: a directory tree walked into one line per reachable
//! path, one report per file and one access-denied line per unresolvable
//! entry, children in entry order.

use vstd::prelude::*;

verus! {

use vstd::string::StringExecFns;
use crate::fingerprint::fingerprint_content;
use crate::fingerprint::fingerprint_spec;

/// One filesystem entry as the walker classifies it.
pub enum Entry {
    /// A regular file with its content.
    File { content: Vec<u8> },
    /// A directory with its immediate entries.
    Dir { entries: Vec<DirEntry> },
    /// A path whose existence cannot be resolved (permission denied on stat).
    Inaccessible,
}

/// A named entry inside a directory.
pub struct DirEntry {
    pub name: String,
    pub node: Entry,
}

/// One output line of a walk.
pub enum Line {
    /// A successfully fingerprinted file.
    Report { fingerprint: String, path: String },
    /// A path whose existence check failed.
    AccessDenied { path: String },
}

/// The mathematical value of an output line.
pub enum LineModel {
    Report { fingerprint: Seq<char>, path: Seq<char> },
    AccessDenied { path: Seq<char> },
}

impl View for Line {
    type V = LineModel;

    open spec fn view(&self) -> LineModel {
        match self {
            Line::Report { fingerprint, path } => LineModel::Report {
                fingerprint: fingerprint@,
                path: path@,
            },
            Line::AccessDenied { path } => LineModel::AccessDenied { path: path@ },
        }
    }
}

/// The path a line names.
pub open spec fn line_path(l: LineModel) -> Seq<char> {
    match l {
        LineModel::Report { fingerprint, path } => path,
        LineModel::AccessDenied { path } => path,
    }
}

/// The text of a line as it is printed: fingerprint, tab, path for a report;
/// the path followed by an access-denied notice otherwise.
pub open spec fn line_text(l: LineModel) -> Seq<char> {
    match l {
        LineModel::Report { fingerprint, path } => fingerprint + seq!['\t'] + path,
        LineModel::AccessDenied { path } => path + " : Access denied"@,
    }
}

/// The path a directory entry is reached by: the parent path, a slash, the
/// entry's name.
pub open spec fn child_path(parent: Seq<char>, name: Seq<char>) -> Seq<char> {
    parent + seq!['/'] + name
}

/// The lines a walk of one entry at a given path produces.
pub open spec fn lines_of(path: Seq<char>, e: Entry) -> Seq<LineModel>
    decreases e,
{
    match e {
        Entry::File { content } => seq![
            LineModel::Report { fingerprint: fingerprint_spec(content@), path },
        ],
        Entry::Dir { entries } => lines_of_entries(path, entries@),
        Entry::Inaccessible => seq![LineModel::AccessDenied { path }],
    }
}

/// The lines of a directory's entries, in entry order.
pub open spec fn lines_of_entries(path: Seq<char>, es: Seq<DirEntry>) -> Seq<LineModel>
    decreases es,
{
    if es.len() == 0 {
        Seq::empty()
    } else {
        lines_of_entries(path, es.drop_last()) + lines_of(
            child_path(path, es.last().name@),
            es.last().node,
        )
    }
}

/// The lines of a run over several root paths, in argument order: each root
/// is walked under the path it was named by, unprefixed.
pub open spec fn lines_of_roots(roots: Seq<DirEntry>) -> Seq<LineModel>
    decreases roots,
{
    if roots.len() == 0 {
        Seq::empty()
    } else {
        lines_of_roots(roots.drop_last()) + lines_of(roots.last().name@, roots.last().node)
    }
}

/// Walks every root path of a run: one independent walk per root, the lines
/// collected in argument order.  (The reference system runs the roots
/// concurrently and promises no order between their lines; this model fixes
/// argument order.)
pub fn walk_roots(roots: &Vec<DirEntry>) -> (r: Vec<Line>)
    ensures
        r@.map_values(|l: Line| l@) == lines_of_roots(roots@),
{
    let mut r: Vec<Line> = Vec::new();
    let mut i: usize = 0;
    while i < roots.len()
        invariant
            i <= roots@.len(),
            r@.map_values(|l: Line| l@) == lines_of_roots(roots@.take(i as int)),
        decreases roots@.len() - i,
    {
        let root = &roots[i];
        let mut sub = walk(&root.name, &root.node);
        r.append(&mut sub);
        proof {
            assert(roots@.take(i + 1).drop_last() =~= roots@.take(i as int));
            assert(roots@.take(i + 1).last() == roots@[i as int]);
            assert(r@.map_values(|l: Line| l@) =~= lines_of_roots(roots@.take(i + 1)));
        }
        i = i + 1;
    }
    proof {
        assert(roots@.take(roots@.len() as int) =~= roots@);
    }
    r
}

/// The independent recursive listing of a tree: every path a walk must
/// visit — each file and each unresolvable entry — in walk order.
pub open spec fn listing(path: Seq<char>, e: Entry) -> Seq<Seq<char>>
    decreases e,
{
    match e {
        Entry::File { content } => seq![path],
        Entry::Dir { entries } => listing_of_entries(path, entries@),
        Entry::Inaccessible => seq![path],
    }
}

/// The listing of a directory's entries, in entry order.
pub open spec fn listing_of_entries(path: Seq<char>, es: Seq<DirEntry>) -> Seq<Seq<char>>
    decreases es,
{
    if es.len() == 0 {
        Seq::empty()
    } else {
        listing_of_entries(path, es.drop_last()) + listing(
            child_path(path, es.last().name@),
            es.last().node,
        )
    }
}

/// A walk emits exactly one line per visited path: the paths its lines name,
/// in order, are exactly the recursive listing of the tree, however wide or
/// deep the tree is.
pub proof fn lemma_walk_visits_each_path(path: Seq<char>, e: Entry)
    ensures
        lines_of(path, e).map_values(|l: LineModel| line_path(l)) == listing(path, e),
    decreases e,
{
    match e {
        Entry::File { content } => {
            assert(lines_of(path, e).map_values(|l: LineModel| line_path(l)) =~= listing(path, e));
        },
        Entry::Inaccessible => {
            assert(lines_of(path, e).map_values(|l: LineModel| line_path(l)) =~= listing(path, e));
        },
        Entry::Dir { entries } => {
            lemma_walk_visits_entries(path, entries@);
        },
    }
}

/// The per-directory step of the walk/listing correspondence.
proof fn lemma_walk_visits_entries(path: Seq<char>, es: Seq<DirEntry>)
    ensures
        lines_of_entries(path, es).map_values(|l: LineModel| line_path(l))
            == listing_of_entries(path, es),
    decreases es,
{
    if es.len() > 0 {
        lemma_walk_visits_entries(path, es.drop_last());
        lemma_walk_visits_each_path(child_path(path, es.last().name@), es.last().node);
        assert(lines_of_entries(path, es).map_values(|l: LineModel| line_path(l))
            =~= listing_of_entries(path, es));
    } else {
        assert(lines_of_entries(path, es).map_values(|l: LineModel| line_path(l))
            =~= listing_of_entries(path, es));
    }
}

/// A name a directory entry may carry: nonempty, without a slash.
pub open spec fn valid_name(n: Seq<char>) -> bool {
    n.len() > 0 && (forall|i: int| 0 <= i < n.len() ==> n[i] != '/')
}

/// A well-formed tree: in every directory the entries carry valid, pairwise
/// distinct names, as a real filesystem guarantees.
pub open spec fn wf_entry(e: Entry) -> bool
    decreases e,
{
    match e {
        Entry::File { content } => true,
        Entry::Dir { entries } => {
            &&& (forall|i: int|
                0 <= i < entries@.len() ==> valid_name(#[trigger] entries@[i].name@))
            &&& (forall|i: int, j: int|
                0 <= i < j < entries@.len() ==> entries@[i].name@ != entries@[j].name@)
            &&& (forall|i: int| 0 <= i < entries@.len() ==> wf_entry(#[trigger] entries@[i].node))
        },
        Entry::Inaccessible => true,
    }
}

/// A path that lies under another: it starts with the shorter one and, where
/// it goes on at all, goes on with a slash.
pub open spec fn path_extends(q: Seq<char>, p: Seq<char>) -> bool {
    &&& q.len() >= p.len()
    &&& q.take(p.len() as int) == p
    &&& (q.len() == p.len() || q[p.len() as int] == '/')
}

/// Whether a path lies under the child path of one of a directory's entries.
pub open spec fn under_some_child(path: Seq<char>, es: Seq<DirEntry>, q: Seq<char>) -> bool {
    exists|i: int|
        #![auto]
        0 <= i < es.len() && path_extends(q, child_path(path, es[i].name@))
}

/// Every path of a listing lies under the root path it was listed from.
proof fn lemma_listing_extends(path: Seq<char>, e: Entry)
    ensures
        forall|t: int|
            0 <= t < listing(path, e).len() ==> path_extends(
                #[trigger] listing(path, e)[t],
                path,
            ),
    decreases e,
{
    match e {
        Entry::File { content } => {
            assert forall|t: int|
                0 <= t < listing(path, e).len() implies path_extends(
                #[trigger] listing(path, e)[t],
                path,
            ) by {
                assert(listing(path, e) =~= seq![path]);
                assert(path.take(path.len() as int) =~= path);
            }
        },
        Entry::Inaccessible => {
            assert forall|t: int|
                0 <= t < listing(path, e).len() implies path_extends(
                #[trigger] listing(path, e)[t],
                path,
            ) by {
                assert(listing(path, e) =~= seq![path]);
                assert(path.take(path.len() as int) =~= path);
            }
        },
        Entry::Dir { entries } => {
            lemma_listing_entries_extends(path, entries@);
            assert forall|t: int|
                0 <= t < listing(path, e).len() implies path_extends(
                #[trigger] listing(path, e)[t],
                path,
            ) by {
                assert(listing(path, e)[t] == listing_of_entries(path, entries@)[t]);
            }
        },
    }
}

/// Every path listed under a directory's entries lies under the directory.
proof fn lemma_listing_entries_extends(path: Seq<char>, es: Seq<DirEntry>)
    ensures
        forall|t: int|
            0 <= t < listing_of_entries(path, es).len() ==> path_extends(
                #[trigger] listing_of_entries(path, es)[t],
                path,
            ),
    decreases es,
{
    if es.len() > 0 {
        lemma_listing_entries_extends(path, es.drop_last());
        let cp = child_path(path, es.last().name@);
        lemma_listing_extends(cp, es.last().node);
        assert(cp.take(path.len() as int) =~= path);
        assert forall|t: int|
            0 <= t < listing_of_entries(path, es).len() implies path_extends(
            #[trigger] listing_of_entries(path, es)[t],
            path,
        ) by {
            let front = listing_of_entries(path, es.drop_last());
            let back = listing(cp, es.last().node);
            let q = listing_of_entries(path, es)[t];
            if t >= front.len() {
                assert(q == back[t - front.len()]);
                assert(path_extends(q, cp));
                assert(q.take(path.len() as int) =~= cp.take(path.len() as int));
                assert(q[path.len() as int] == q.take(cp.len() as int)[path.len() as int]);
                assert(cp[path.len() as int] == '/');
            } else {
                assert(q == front[t]);
            }
        }
    }
}

/// A path lying under the child paths of two valid names pins the names: no
/// path can lie under two differently named entries of one directory.
proof fn lemma_sibling_paths_same_name(q: Seq<char>, p: Seq<char>, n1: Seq<char>, n2: Seq<char>)
    requires
        valid_name(n1),
        valid_name(n2),
        path_extends(q, child_path(p, n1)),
        path_extends(q, child_path(p, n2)),
    ensures
        n1 == n2,
{
    let c1 = child_path(p, n1);
    let c2 = child_path(p, n2);
    if n1.len() == n2.len() {
        assert forall|i: int| 0 <= i < n1.len() implies n1[i] == n2[i] by {
            let x = p.len() + 1 + i;
            assert(q.take(c1.len() as int)[x] == q[x]);
            assert(q.take(c2.len() as int)[x] == q[x]);
        }
        assert(n1 =~= n2);
    } else if n1.len() < n2.len() {
        let x = c1.len() as int;
        assert(q.take(c2.len() as int)[x] == q[x]);
        assert(c2[x] == n2[n1.len() as int]);
        assert(q[x] == '/');
    } else {
        let x = c2.len() as int;
        assert(q.take(c1.len() as int)[x] == q[x]);
        assert(c1[x] == n1[n2.len() as int]);
        assert(q[x] == '/');
    }
}

/// On a well-formed tree the walk visits every reachable path exactly once:
/// no path occurs twice in the listing.
pub proof fn lemma_listing_no_duplicates(path: Seq<char>, e: Entry)
    requires
        wf_entry(e),
    ensures
        listing(path, e).no_duplicates(),
    decreases e,
{
    match e {
        Entry::File { content } => {
        },
        Entry::Inaccessible => {
        },
        Entry::Dir { entries } => {
            lemma_listing_entries_no_duplicates(path, entries@);
        },
    }
}

/// The per-directory step: distinct sibling names keep the subtrees' path
/// sets disjoint, so the concatenated listing stays duplicate-free.
proof fn lemma_listing_entries_no_duplicates(path: Seq<char>, es: Seq<DirEntry>)
    requires
        forall|i: int| 0 <= i < es.len() ==> valid_name(#[trigger] es[i].name@),
        forall|i: int, j: int| 0 <= i < j < es.len() ==> es[i].name@ != es[j].name@,
        forall|i: int| 0 <= i < es.len() ==> wf_entry(#[trigger] es[i].node),
    ensures
        listing_of_entries(path, es).no_duplicates(),
        forall|t: int|
            0 <= t < listing_of_entries(path, es).len() ==> under_some_child(
                path,
                es,
                #[trigger] listing_of_entries(path, es)[t],
            ),
    decreases es,
{
    if es.len() > 0 {
        let front = listing_of_entries(path, es.drop_last());
        let last = es.last();
        let cp = child_path(path, last.name@);
        let back = listing(cp, last.node);
        lemma_listing_entries_no_duplicates(path, es.drop_last());
        lemma_listing_no_duplicates(cp, last.node);
        lemma_listing_extends(cp, last.node);
        assert forall|i: int, j: int|
            0 <= i < front.len() && 0 <= j < back.len() implies front[i] != back[j] by {
            assert(under_some_child(path, es.drop_last(), front[i]));
            let i0 = choose|i0: int|
                #![auto]
                0 <= i0 < es.drop_last().len() && path_extends(
                    front[i],
                    child_path(path, es.drop_last()[i0].name@),
                );
            assert(es.drop_last()[i0] == es[i0]);
            if front[i] == back[j] {
                lemma_sibling_paths_same_name(front[i], path, es[i0].name@, last.name@);
            }
        }
        vstd::seq_lib::lemma_no_dup_in_concat(front, back);
        assert forall|t: int|
            0 <= t < listing_of_entries(path, es).len() implies under_some_child(
            path,
            es,
            #[trigger] listing_of_entries(path, es)[t],
        ) by {
            let q = listing_of_entries(path, es)[t];
            if t < front.len() {
                assert(under_some_child(path, es.drop_last(), q));
                let i0 = choose|i0: int|
                    #![auto]
                    0 <= i0 < es.drop_last().len() && path_extends(
                        q,
                        child_path(path, es.drop_last()[i0].name@),
                    );
                assert(es.drop_last()[i0] == es[i0]);
                assert(path_extends(q, child_path(path, es[i0].name@)));
            } else {
                assert(path_extends(q, child_path(path, es[es.len() - 1].name@)));
            }
        }
    }
}

impl Line {
    /// Renders the line as the program prints it.
    pub fn render(&self) -> (r: String)
        ensures
            r@ == line_text(self@),
    {
        match self {
            Line::Report { fingerprint, path } => {
                let mut s = fingerprint.clone();
                s.append("\t");
                s.append(path.as_str());
                proof {
                    reveal_strlit("\t");
                    assert(s@ =~= line_text(self@));
                }
                s
            },
            Line::AccessDenied { path } => {
                let mut s = path.clone();
                s.append(" : Access denied");
                s
            },
        }
    }
}

/// Walks one entry: a file becomes one report line carrying its content's
/// fingerprint, an unresolvable path one access-denied line, and a directory
/// is walked entry by entry, each child under its slash-joined path,
/// collecting the children's lines in entry order.
pub fn walk(path: &String, e: &Entry) -> (r: Vec<Line>)
    ensures
        r@.map_values(|l: Line| l@) == lines_of(path@, *e),
    decreases *e,
{
    match e {
        Entry::File { content } => {
            let fingerprint = fingerprint_content(content);
            let mut r: Vec<Line> = Vec::new();
            r.push(Line::Report { fingerprint, path: path.clone() });
            proof {
                assert(r@.map_values(|l: Line| l@) =~= lines_of(path@, *e));
            }
            r
        },
        Entry::Inaccessible => {
            let mut r: Vec<Line> = Vec::new();
            r.push(Line::AccessDenied { path: path.clone() });
            proof {
                assert(r@.map_values(|l: Line| l@) =~= lines_of(path@, *e));
            }
            r
        },
        Entry::Dir { entries } => {
            let mut r: Vec<Line> = Vec::new();
            let mut i: usize = 0;
            while i < entries.len()
                invariant
                    i <= entries@.len(),
                    *e == (Entry::Dir { entries: *entries }),
                    r@.map_values(|l: Line| l@) == lines_of_entries(path@, entries@.take(i as int)),
                decreases entries@.len() - i,
            {
                let child = &entries[i];
                let mut cp = path.clone();
                cp.append("/");
                cp.append(child.name.as_str());
                proof {
                    reveal_strlit("/");
                    assert(cp@ =~= child_path(path@, child.name@));
                    assert(decreases_to!(*e => (*e)->entries));
                    assert((*e)->entries == *entries);
                    assert(decreases_to!(*entries => entries@));
                    assert(decreases_to!(entries@ => entries@[i as int]));
                    assert(decreases_to!(entries@[i as int] => entries@[i as int].node));
                }
                let mut sub = walk(&cp, &child.node);
                r.append(&mut sub);
                proof {
                    assert(entries@.take(i + 1).drop_last() =~= entries@.take(i as int));
                    assert(entries@.take(i + 1).last() == entries@[i as int]);
                    assert(r@.map_values(|l: Line| l@) =~= lines_of_entries(
                        path@,
                        entries@.take(i + 1),
                    ));
                }
                i = i + 1;
            }
            proof {
                assert(entries@.take(entries@.len() as int) =~= entries@);
            }
            r
        },
    }
}

} // verus!
