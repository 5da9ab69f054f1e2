//! The nested file tree and the uncovered hotspots of a project's page:
//! files grouped by directory, with line and branch counts rolled up from
//! summed counts rather than averaged rates.

use vstd::prelude::*;

use crate::coverage::model::{count_hits, hit_lines, lemma_hit_le, FileCoverage};
use crate::text::{chars_of, find_char, owned, push_all, index_of_char, lex_less, lex_lt, seq_eq, slice, string_from_chars};

verus! {

/// What the tree shows of a file: its path, covered lines, lines, covered
/// branches and branches.
pub type Figures = (Seq<char>, int, int, int, int);

pub open spec fn figures_of(f: FileCoverage) -> Figures {
    (f.path@, hit_lines(f.lines@) as int, f.lines@.len() as int, f.branches_covered as int, f.branches_total as int)
}

pub open spec fn file_views(files: Seq<FileCoverage>) -> Seq<Figures> {
    files.map_values(|f: FileCoverage| figures_of(f))
}

/// A file placed in a directory: its path below the directory, and its
/// figures.
pub type Entry = (Seq<char>, Figures);

/// Where the first `/` of a relative path stands, or -1.
pub open spec fn slash_at(rel: Seq<char>) -> int {
    index_of_char(rel, '/')
}

/// The entry lies in a subdirectory.
pub open spec fn nested(e: Entry) -> bool {
    slash_at(e.0) >= 0
}

/// The subdirectory a nested entry lies in.
pub open spec fn first_dir(rel: Seq<char>) -> Seq<char> {
    rel.take(slash_at(rel))
}

/// The path of a nested entry below its subdirectory.
pub open spec fn below_first(rel: Seq<char>) -> Seq<char> {
    rel.skip(slash_at(rel) + 1)
}

/// Where `k` goes among the increasing keys `ks`: before the first key that
/// is not less than it.
pub open spec fn insert_pos(ks: Seq<Seq<char>>, k: Seq<char>) -> int
    decreases ks.len(),
{
    if ks.len() == 0 {
        0
    } else if !lex_lt(ks[0], k) {
        0
    } else {
        1 + insert_pos(ks.drop_first(), k)
    }
}

/// `ks` with `k` added in key order, unless it is there already.
pub open spec fn insert_key(ks: Seq<Seq<char>>, k: Seq<char>) -> Seq<Seq<char>> {
    let p = insert_pos(ks, k);
    if p < ks.len() && ks[p] == k {
        ks
    } else {
        ks.insert(p, k)
    }
}

/// The subdirectories of `es`, each once, in key order.
pub open spec fn dir_keys(es: Seq<Entry>) -> Seq<Seq<char>>
    decreases es.len(),
{
    if es.len() == 0 {
        Seq::empty()
    } else if nested(es.last()) {
        insert_key(dir_keys(es.drop_last()), first_dir(es.last().0))
    } else {
        dir_keys(es.drop_last())
    }
}

/// The entries of subdirectory `k`, in their order, placed below it.
pub open spec fn sub_entries(es: Seq<Entry>, k: Seq<char>) -> Seq<Entry>
    decreases es.len(),
{
    if es.len() == 0 {
        Seq::empty()
    } else {
        let r = sub_entries(es.drop_last(), k);
        let e = es.last();
        if nested(e) && first_dir(e.0) == k {
            r.push((below_first(e.0), e.1))
        } else {
            r
        }
    }
}

/// The entries that lie directly in the directory, in their order.
pub open spec fn leaf_entries(es: Seq<Entry>) -> Seq<Entry>
    decreases es.len(),
{
    if es.len() == 0 {
        Seq::empty()
    } else if nested(es.last()) {
        leaf_entries(es.drop_last())
    } else {
        leaf_entries(es.drop_last()).push(es.last())
    }
}

/// A sum over the entries' figures: 1 covered lines, 2 lines, 3 covered
/// branches, 4 branches.
pub open spec fn entry_sum(es: Seq<Entry>, what: int) -> int
    decreases es.len(),
{
    if es.len() == 0 {
        0
    } else {
        let f = es.last().1;
        entry_sum(es.drop_last(), what) + if what == 1 {
            f.1
        } else if what == 2 {
            f.2
        } else if what == 3 {
            f.3
        } else {
            f.4
        }
    }
}

/// How much path is left to group: the recursion's measure.
pub open spec fn entry_size(es: Seq<Entry>) -> nat
    decreases es.len(),
{
    if es.len() == 0 {
        0
    } else {
        entry_size(es.drop_last()) + es.last().0.len() + 1
    }
}

/// A node of the tree, as a value.
pub struct NodeView {
    pub name: Seq<char>,
    pub full_path: Seq<char>,
    pub is_dir: bool,
    pub children: Seq<NodeView>,
    pub lines_covered: int,
    pub lines_total: int,
    pub branches_covered: int,
    pub branches_total: int,
    pub file_count: int,
}

/// The path of `name` inside `parent`.
pub open spec fn join(parent: Seq<char>, name: Seq<char>) -> Seq<char> {
    if parent.len() == 0 {
        name
    } else {
        parent + seq!['/'] + name
    }
}

/// The leaf a file directly in a directory becomes.
pub open spec fn leaf_node(e: Entry) -> NodeView {
    NodeView {
        name: e.0,
        full_path: e.1.0,
        is_dir: false,
        children: Seq::empty(),
        lines_covered: e.1.1,
        lines_total: e.1.2,
        branches_covered: e.1.3,
        branches_total: e.1.4,
        file_count: 1,
    }
}

/// A subdirectory's entries hold less path to group than the directory's:
/// each loses at least its first component.
pub proof fn lemma_sub_entries_smaller(es: Seq<Entry>, k: Seq<char>)
    ensures
        entry_size(sub_entries(es, k)) + es.len() <= entry_size(es),
    decreases es.len(),
{
    if es.len() > 0 {
        lemma_sub_entries_smaller(es.drop_last(), k);
        let e = es.last();
        if nested(e) && first_dir(e.0) == k {
            crate::text::lemma_index_of_char(e.0, '/');
            let r = sub_entries(es.drop_last(), k);
            let x = (below_first(e.0), e.1);
            assert(r.push(x).drop_last() == r);
        }
    }
}

/// The nodes of a directory's contents: its subdirectories in key order,
/// then its files in their order.
pub open spec fn level(es: Seq<Entry>, parent: Seq<char>) -> Seq<NodeView>
    decreases entry_size(es), 1int, 0int,
{
    dir_nodes(dir_keys(es), es, parent) + leaf_entries(es).map_values(|e: Entry| leaf_node(e))
}

/// The directory nodes of keys `ks` of `es`.
pub open spec fn dir_nodes(ks: Seq<Seq<char>>, es: Seq<Entry>, parent: Seq<char>) -> Seq<NodeView>
    decreases entry_size(es), 0int, ks.len(),
{
    if ks.len() == 0 || es.len() == 0 {
        Seq::empty()
    } else {
        proof {
            lemma_sub_entries_smaller(es, ks.last());
        }
        dir_nodes(ks.drop_last(), es, parent).push(dir_node(ks.last(), parent, sub_entries(es, ks.last())))
    }
}

/// The node of directory `name` inside `parent` holding `es`: a directory
/// whose only content is one subdirectory is joined with it into one node
/// named `name/sub`.
pub open spec fn dir_node(name: Seq<char>, parent: Seq<char>, es: Seq<Entry>) -> NodeView
    decreases entry_size(es), 2int, 0int,
{
    let ks = dir_keys(es);
    if ks.len() == 1 && leaf_entries(es).len() == 0 && es.len() > 0 {
        proof {
            lemma_sub_entries_smaller(es, ks[0]);
        }
        dir_node(name + seq!['/'] + ks[0], parent, sub_entries(es, ks[0]))
    } else {
        NodeView {
            name,
            full_path: join(parent, name),
            is_dir: true,
            children: level(es, join(parent, name)),
            lines_covered: entry_sum(es, 1),
            lines_total: entry_sum(es, 2),
            branches_covered: entry_sum(es, 3),
            branches_total: entry_sum(es, 4),
            file_count: es.len() as int,
        }
    }
}

/// The entries of a project's files at the top of the tree.
pub open spec fn top_entries(fs: Seq<Figures>) -> Seq<Entry> {
    fs.map_values(|f: Figures| (f.0, f))
}

/// The file tree of a project's files: its top-level directories in key
/// order, then the files at the top in their order.
pub open spec fn file_tree(fs: Seq<Figures>) -> Seq<NodeView> {
    level(top_entries(fs), Seq::empty())
}

/// A node of the file tree: a directory with its contents, or a file.
pub struct FileTreeNode {
    pub name: String,
    pub full_path: String,
    pub is_dir: bool,
    pub children: Vec<FileTreeNode>,
    pub lines_covered: i64,
    pub lines_total: i64,
    pub branches_covered: i64,
    pub branches_total: i64,
    pub file_count: usize,
}

pub open spec fn node_view(n: FileTreeNode) -> NodeView
    decreases n,
{
    NodeView {
        name: n.name@,
        full_path: n.full_path@,
        is_dir: n.is_dir,
        children: nodes_view(n.children@),
        lines_covered: n.lines_covered as int,
        lines_total: n.lines_total as int,
        branches_covered: n.branches_covered as int,
        branches_total: n.branches_total as int,
        file_count: n.file_count as int,
    }
}

pub open spec fn nodes_view(ns: Seq<FileTreeNode>) -> Seq<NodeView>
    decreases ns,
{
    if ns.len() == 0 {
        Seq::empty()
    } else {
        nodes_view(ns.subrange(0, ns.len() - 1)).push(node_view(ns[ns.len() - 1]))
    }
}

/// The entries a list of `(path below the directory, file index)` stands for.
pub open spec fn ents_view(ents: Seq<(Vec<char>, usize)>, files: Seq<FileCoverage>) -> Seq<Entry> {
    ents.map_values(|e: (Vec<char>, usize)| (e.0@, figures_of(files[e.1 as int])))
}

pub open spec fn indices_ok(ents: Seq<(Vec<char>, usize)>, n: int) -> bool {
    forall|i: int| 0 <= i < ents.len() ==> (#[trigger] ents[i]).1 < n
}

pub open spec fn keys_view(ks: Seq<Vec<char>>) -> Seq<Seq<char>> {
    ks.map_values(|k: Vec<char>| k@)
}

fn slash_index(s: &[char]) -> (r: Option<usize>)
    ensures
        match r {
            Some(i) => slash_at(s@) == i && i < s@.len(),
            None => slash_at(s@) == -1,
        },
{
    match find_char(s, '/') {
        Some(i) => {
            proof {
                crate::text::lemma_index_of_char_is(s@, '/', i as int);
            }
            Some(i)
        },
        None => {
            proof {
                crate::text::lemma_index_of_char(s@, '/');
            }
            None
        },
    }
}

fn insert_sorted(ks: &mut Vec<Vec<char>>, k: Vec<char>)
    ensures
        keys_view(final(ks)@) == insert_key(keys_view(old(ks)@), k@),
{
    let ghost kv = keys_view(ks@);
    let mut p: usize = 0;
    proof {
        assert(kv.skip(0) == kv);
    }
    while p < ks.len() && lex_less(ks[p].as_slice(), k.as_slice())
        invariant
            kv == keys_view(ks@),
            p <= ks@.len(),
            insert_pos(kv, k@) == p + insert_pos(kv.skip(p as int), k@),
        decreases ks.len() - p,
    {
        proof {
            assert(kv.skip(p as int)[0] == kv[p as int]);
            assert(kv.skip(p as int).drop_first() == kv.skip(p + 1));
        }
        p += 1;
    }
    proof {
        if p < kv.len() {
            assert(kv.skip(p as int)[0] == kv[p as int]);
        }
        assert(insert_pos(kv, k@) == p);
    }
    if p < ks.len() && seq_eq(ks[p].as_slice(), k.as_slice()) {
        return;
    }
    let ghost kk = k@;
    ks.insert(p, k);
    proof {
        assert(keys_view(ks@) =~= kv.insert(p as int, kk));
    }
}

/// The subdirectories of the entries, each once, in key order.
fn keys_of(ents: &Vec<(Vec<char>, usize)>, Ghost(files): Ghost<Seq<FileCoverage>>) -> (r: Vec<Vec<char>>)
    requires
        indices_ok(ents@, files.len() as int),
    ensures
        keys_view(r@) == dir_keys(ents_view(ents@, files)),
{
    let ghost es = ents_view(ents@, files);
    let mut ks: Vec<Vec<char>> = Vec::new();
    let mut i: usize = 0;
    proof {
        assert(keys_view(ks@) =~= Seq::<Seq<char>>::empty());
    }
    while i < ents.len()
        invariant
            es == ents_view(ents@, files),
            i <= ents@.len(),
            keys_view(ks@) == dir_keys(es.take(i as int)),
        decreases ents.len() - i,
    {
        proof {
            assert(es.take(i + 1).drop_last() == es.take(i as int));
            assert(es.take(i + 1).last() == es[i as int]);
        }
        let rel = &ents[i].0;
        match slash_index(rel.as_slice()) {
            Some(j) => {
                let head = slice(rel.as_slice(), 0, j);
                insert_sorted(&mut ks, head);
            },
            None => {},
        }
        i += 1;
    }
    proof {
        assert(es.take(i as int) == es);
    }
    ks
}

/// The entries of subdirectory `k`, placed below it.
fn sub_of(ents: &Vec<(Vec<char>, usize)>, k: &[char], Ghost(files): Ghost<Seq<FileCoverage>>) -> (r: Vec<(Vec<char>, usize)>)
    requires
        indices_ok(ents@, files.len() as int),
    ensures
        indices_ok(r@, files.len() as int),
        ents_view(r@, files) == sub_entries(ents_view(ents@, files), k@),
{
    let ghost es = ents_view(ents@, files);
    let mut out: Vec<(Vec<char>, usize)> = Vec::new();
    let mut i: usize = 0;
    proof {
        assert(ents_view(out@, files) =~= Seq::<Entry>::empty());
    }
    while i < ents.len()
        invariant
            es == ents_view(ents@, files),
            indices_ok(ents@, files.len() as int),
            i <= ents@.len(),
            indices_ok(out@, files.len() as int),
            ents_view(out@, files) == sub_entries(es.take(i as int), k@),
        decreases ents.len() - i,
    {
        proof {
            assert(es.take(i + 1).drop_last() == es.take(i as int));
            assert(es.take(i + 1).last() == es[i as int]);
        }
        let rel = &ents[i].0;
        match slash_index(rel.as_slice()) {
            Some(j) => {
                let head = slice(rel.as_slice(), 0, j);
                if seq_eq(head.as_slice(), k) {
                    assert(j < rel.len());
                    let rest = slice(rel.as_slice(), j + 1, rel.len());
                    let ghost before = out@;
                    out.push((rest, ents[i].1));
                    proof {
                        assert(rest@ == below_first(rel@));
                        assert(ents_view(out@, files) =~= ents_view(before, files).push(
                            (below_first(es[i as int].0), es[i as int].1),
                        ));
                    }
                }
            },
            None => {},
        }
        i += 1;
    }
    proof {
        assert(es.take(i as int) == es);
    }
    out
}

/// The entries that lie directly in the directory.
fn leaves_of(ents: &Vec<(Vec<char>, usize)>, Ghost(files): Ghost<Seq<FileCoverage>>) -> (r: Vec<(Vec<char>, usize)>)
    requires
        indices_ok(ents@, files.len() as int),
    ensures
        indices_ok(r@, files.len() as int),
        ents_view(r@, files) == leaf_entries(ents_view(ents@, files)),
{
    let ghost es = ents_view(ents@, files);
    let mut out: Vec<(Vec<char>, usize)> = Vec::new();
    let mut i: usize = 0;
    proof {
        assert(ents_view(out@, files) =~= Seq::<Entry>::empty());
    }
    while i < ents.len()
        invariant
            es == ents_view(ents@, files),
            indices_ok(ents@, files.len() as int),
            i <= ents@.len(),
            indices_ok(out@, files.len() as int),
            ents_view(out@, files) == leaf_entries(es.take(i as int)),
        decreases ents.len() - i,
    {
        proof {
            assert(es.take(i + 1).drop_last() == es.take(i as int));
            assert(es.take(i + 1).last() == es[i as int]);
        }
        let rel = &ents[i].0;
        if slash_index(rel.as_slice()).is_none() {
            let ghost before = out@;
            out.push((chars_of_vec(rel), ents[i].1));
            proof {
                assert(ents_view(out@, files) =~= ents_view(before, files).push(es[i as int]));
            }
        }
        i += 1;
    }
    proof {
        assert(es.take(i as int) == es);
    }
    out
}

fn chars_of_vec(v: &Vec<char>) -> (r: Vec<char>)
    ensures
        r@ == v@,
{
    slice(v.as_slice(), 0, v.len())
}

/// Each file's line records can be counted in an `i64`, and its branch
/// counts are not negative.
pub open spec fn files_fit(files: Seq<FileCoverage>) -> bool {
    forall|i: int|
        0 <= i < files.len() ==> (#[trigger] files[i]).lines@.len() <= i64::MAX && 0 <= files[i].branches_covered
            && 0 <= files[i].branches_total
}

/// Every sum a directory of `es` shows fits an `i64`.
pub open spec fn sums_fit(es: Seq<Entry>) -> bool {
    forall|w: int| 1 <= w <= 4 ==> #[trigger] entry_sum(es, w) <= i64::MAX
}

/// The tree of `files` can be counted: every file fits, and so do the sums
/// over all of them.
pub open spec fn tree_fits(files: Seq<FileCoverage>) -> bool {
    files_fit(files) && sums_fit(top_entries(file_views(files)))
}

pub open spec fn ents_nonneg(es: Seq<Entry>) -> bool {
    forall|i: int| 0 <= i < es.len() ==> 0 <= (#[trigger] es[i]).1.1 && 0 <= es[i].1.2 && 0 <= es[i].1.3 && 0 <= es[i].1.4
}

proof fn lemma_ents_nonneg(ents: Seq<(Vec<char>, usize)>, files: Seq<FileCoverage>)
    requires
        indices_ok(ents, files.len() as int),
        files_fit(files),
    ensures
        ents_nonneg(ents_view(ents, files)),
{
    let es = ents_view(ents, files);
    assert forall|i: int| 0 <= i < es.len() implies 0 <= (#[trigger] es[i]).1.1 && 0 <= es[i].1.2 && 0 <= es[i].1.3
        && 0 <= es[i].1.4 by {
        assert(ents[i].1 < files.len());
        assert(es[i].1 == figures_of(files[ents[i].1 as int]));
    }
}

proof fn lemma_sum_prefix(es: Seq<Entry>, k: int, w: int)
    requires
        ents_nonneg(es),
        0 <= k <= es.len(),
    ensures
        0 <= entry_sum(es.take(k), w) <= entry_sum(es, w),
    decreases es.len() - k,
{
    if k < es.len() {
        assert(es.take(k + 1).drop_last() == es.take(k));
        assert(es.take(k + 1).last() == es[k]);
        assert(0 <= es[k].1.1 && 0 <= es[k].1.2 && 0 <= es[k].1.3 && 0 <= es[k].1.4);
        lemma_sum_prefix(es, k + 1, w);
        let t = es.take(k);
        assert forall|i: int| 0 <= i < t.len() implies 0 <= (#[trigger] t[i]).1.1 && 0 <= t[i].1.2 && 0 <= t[i].1.3
            && 0 <= t[i].1.4 by {
            assert(t[i] == es[i]);
        }
        lemma_sum_nonneg(t, w);
    } else {
        assert(es.take(k) == es);
        lemma_sum_nonneg(es, w);
    }
}

proof fn lemma_sum_nonneg(es: Seq<Entry>, w: int)
    requires
        ents_nonneg(es),
    ensures
        0 <= entry_sum(es, w),
    decreases es.len(),
{
    if es.len() > 0 {
        assert(es.last() == es[es.len() - 1]);
        assert forall|i: int| 0 <= i < es.drop_last().len() implies 0 <= (#[trigger] es.drop_last()[i]).1.1
            && 0 <= es.drop_last()[i].1.2 && 0 <= es.drop_last()[i].1.3 && 0 <= es.drop_last()[i].1.4 by {
            assert(es.drop_last()[i] == es[i]);
        }
        lemma_sum_nonneg(es.drop_last(), w);
    }
}

proof fn lemma_sub_sums(es: Seq<Entry>, k: Seq<char>, w: int)
    requires
        ents_nonneg(es),
    ensures
        entry_sum(sub_entries(es, k), w) <= entry_sum(es, w),
    decreases es.len(),
{
    if es.len() > 0 {
        assert(es.last() == es[es.len() - 1]);
        assert forall|i: int| 0 <= i < es.drop_last().len() implies 0 <= (#[trigger] es.drop_last()[i]).1.1
            && 0 <= es.drop_last()[i].1.2 && 0 <= es.drop_last()[i].1.3 && 0 <= es.drop_last()[i].1.4 by {
            assert(es.drop_last()[i] == es[i]);
        }
        lemma_sub_sums(es.drop_last(), k, w);
        let r = sub_entries(es.drop_last(), k);
        let e = es.last();
        if nested(e) && first_dir(e.0) == k {
            let x = (below_first(e.0), e.1);
            assert(r.push(x).drop_last() == r);
            assert(r.push(x).last() == x);
        }
    }
}

/// The four sums over the entries.
fn sums_of(files: &Vec<FileCoverage>, ents: &Vec<(Vec<char>, usize)>) -> (r: (i64, i64, i64, i64))
    requires
        indices_ok(ents@, files@.len() as int),
        files_fit(files@),
        sums_fit(ents_view(ents@, files@)),
    ensures
        r.0 == entry_sum(ents_view(ents@, files@), 1),
        r.1 == entry_sum(ents_view(ents@, files@), 2),
        r.2 == entry_sum(ents_view(ents@, files@), 3),
        r.3 == entry_sum(ents_view(ents@, files@), 4),
{
    let ghost es = ents_view(ents@, files@);
    proof {
        lemma_ents_nonneg(ents@, files@);
        assert(es.take(0) =~= Seq::<Entry>::empty());
    }
    let mut a: i64 = 0;
    let mut b: i64 = 0;
    let mut c: i64 = 0;
    let mut d: i64 = 0;
    let mut i: usize = 0;
    while i < ents.len()
        invariant
            es == ents_view(ents@, files@),
            indices_ok(ents@, files@.len() as int),
            files_fit(files@),
            sums_fit(es),
            ents_nonneg(es),
            i <= ents@.len(),
            a == entry_sum(es.take(i as int), 1),
            b == entry_sum(es.take(i as int), 2),
            c == entry_sum(es.take(i as int), 3),
            d == entry_sum(es.take(i as int), 4),
        decreases ents.len() - i,
    {
        let ix = ents[i].1;
        let f = &files[ix];
        proof {
            assert(ents@[i as int].1 < files@.len());
            assert(es.take(i + 1).drop_last() == es.take(i as int));
            assert(es.take(i + 1).last() == es[i as int]);
            assert(es[i as int].1 == figures_of(files@[ix as int]));
            lemma_sum_prefix(es, i + 1, 1);
            lemma_sum_prefix(es, i + 1, 2);
            lemma_sum_prefix(es, i + 1, 3);
            lemma_sum_prefix(es, i + 1, 4);
            lemma_hit_le(f.lines@);
            assert(entry_sum(es, 1) <= i64::MAX);
            assert(entry_sum(es, 2) <= i64::MAX);
            assert(entry_sum(es, 3) <= i64::MAX);
            assert(entry_sum(es, 4) <= i64::MAX);
        }
        let hits = count_hits(&f.lines);
        a = a + hits;
        b = b + f.lines.len() as i64;
        c = c + f.branches_covered;
        d = d + f.branches_total;
        i += 1;
    }
    proof {
        assert(es.take(i as int) == es);
    }
    (a, b, c, d)
}

proof fn lemma_nodes_view_push(s: Seq<FileTreeNode>, n: FileTreeNode)
    ensures
        nodes_view(s.push(n)) == nodes_view(s).push(node_view(n)),
{
    assert(s.push(n).subrange(0, s.len() as int) == s);
    assert(s.push(n)[s.len() as int] == n);
}

proof fn lemma_keys_need_entries(es: Seq<Entry>)
    requires
        dir_keys(es).len() > 0,
    ensures
        es.len() > 0,
{
    if es.len() == 0 {
        assert(dir_keys(es) == Seq::<Seq<char>>::empty());
    }
}

proof fn lemma_sub_fits(es: Seq<Entry>, k: Seq<char>)
    requires
        ents_nonneg(es),
        sums_fit(es),
    ensures
        sums_fit(sub_entries(es, k)),
{
    assert forall|w: int| 1 <= w <= 4 implies #[trigger] entry_sum(sub_entries(es, k), w) <= i64::MAX by {
        lemma_sub_sums(es, k, w);
    }
}

/// The leaf of the file at `ix`, placed in its directory as `rel`.
fn leaf_of(files: &Vec<FileCoverage>, rel: &Vec<char>, ix: usize) -> (r: FileTreeNode)
    requires
        ix < files@.len(),
        files_fit(files@),
    ensures
        node_view(r) == leaf_node((rel@, figures_of(files@[ix as int]))),
{
    let f = &files[ix];
    proof {
        assert(f.lines@.len() <= i64::MAX);
    }
    let hits = count_hits(&f.lines);
    let r = FileTreeNode {
        name: string_from_chars(rel.as_slice()),
        full_path: owned(f.path.as_str()),
        is_dir: false,
        children: Vec::new(),
        lines_covered: hits,
        lines_total: f.lines.len() as i64,
        branches_covered: f.branches_covered,
        branches_total: f.branches_total,
        file_count: 1,
    };
    proof {
        assert(nodes_view(r.children@) == Seq::<NodeView>::empty());
    }
    r
}

/// The nodes of a directory's contents, as `level` gives them.
fn build_level(files: &Vec<FileCoverage>, ents: &Vec<(Vec<char>, usize)>, parent: &Vec<char>) -> (r: Vec<FileTreeNode>)
    requires
        indices_ok(ents@, files@.len() as int),
        files_fit(files@),
        sums_fit(ents_view(ents@, files@)),
    ensures
        nodes_view(r@) == level(ents_view(ents@, files@), parent@),
    decreases entry_size(ents_view(ents@, files@)), 1int,
{
    let ghost es = ents_view(ents@, files@);
    proof {
        lemma_ents_nonneg(ents@, files@);
    }
    let ks = keys_of(ents, Ghost(files@));
    let ghost kv = keys_view(ks@);
    let mut out: Vec<FileTreeNode> = Vec::new();
    let mut i: usize = 0;
    proof {
        assert(kv.take(0) =~= Seq::<Seq<char>>::empty());
        assert(nodes_view(out@) == Seq::<NodeView>::empty());
    }
    while i < ks.len()
        invariant
            es == ents_view(ents@, files@),
            kv == keys_view(ks@),
            kv == dir_keys(es),
            indices_ok(ents@, files@.len() as int),
            files_fit(files@),
            sums_fit(es),
            ents_nonneg(es),
            i <= ks@.len(),
            nodes_view(out@) == dir_nodes(kv.take(i as int), es, parent@),
        decreases ks.len() - i,
    {
        proof {
            lemma_keys_need_entries(es);
            assert(kv[i as int] == ks@[i as int]@);
        }
        let sub = sub_of(ents, ks[i].as_slice(), Ghost(files@));
        proof {
            lemma_sub_entries_smaller(es, kv[i as int]);
            lemma_sub_fits(es, kv[i as int]);
        }
        let node = build_dir(files, chars_of_vec(&ks[i]), parent, &sub);
        let ghost before = out@;
        out.push(node);
        proof {
            lemma_nodes_view_push(before, node);
            assert(kv.take(i + 1).drop_last() == kv.take(i as int));
            assert(kv.take(i + 1).last() == kv[i as int]);
        }
        i += 1;
    }
    proof {
        assert(kv.take(i as int) == kv);
    }
    let leaves = leaves_of(ents, Ghost(files@));
    let ghost lv = ents_view(leaves@, files@);
    let ghost dirs = nodes_view(out@);
    let mut j: usize = 0;
    proof {
        assert(dirs + lv.take(0).map_values(|e: Entry| leaf_node(e)) =~= dirs);
    }
    while j < leaves.len()
        invariant
            lv == ents_view(leaves@, files@),
            lv == leaf_entries(es),
            indices_ok(leaves@, files@.len() as int),
            files_fit(files@),
            j <= leaves@.len(),
            nodes_view(out@) == dirs + lv.take(j as int).map_values(|e: Entry| leaf_node(e)),
        decreases leaves.len() - j,
    {
        proof {
            assert(leaves@[j as int].1 < files@.len());
        }
        let leaf = leaf_of(files, &leaves[j].0, leaves[j].1);
        let ghost before = out@;
        out.push(leaf);
        proof {
            lemma_nodes_view_push(before, leaf);
            assert(lv[j as int] == (leaves@[j as int].0@, figures_of(files@[leaves@[j as int].1 as int])));
            assert(dirs + lv.take(j + 1).map_values(|e: Entry| leaf_node(e)) =~= (dirs + lv.take(j as int).map_values(
                |e: Entry| leaf_node(e),
            )).push(leaf_node(lv[j as int])));
        }
        j += 1;
    }
    proof {
        assert(lv.take(j as int) == lv);
    }
    out
}

/// The node of directory `name` inside `parent`, as `dir_node` gives it.
fn build_dir(files: &Vec<FileCoverage>, name: Vec<char>, parent: &Vec<char>, ents: &Vec<(Vec<char>, usize)>) -> (r:
    FileTreeNode)
    requires
        indices_ok(ents@, files@.len() as int),
        files_fit(files@),
        sums_fit(ents_view(ents@, files@)),
    ensures
        node_view(r) == dir_node(name@, parent@, ents_view(ents@, files@)),
    decreases entry_size(ents_view(ents@, files@)), 2int,
{
    let ghost es = ents_view(ents@, files@);
    proof {
        lemma_ents_nonneg(ents@, files@);
    }
    let ks = keys_of(ents, Ghost(files@));
    let leaves = leaves_of(ents, Ghost(files@));
    if ks.len() == 1 && leaves.len() == 0 && ents.len() > 0 {
        let ghost k = keys_view(ks@)[0];
        proof {
            assert(k == ks@[0]@);
        }
        let ghost nm = name@;
        let mut joined = name;
        joined.push('/');
        push_all(&mut joined, ks[0].as_slice());
        proof {
            assert(joined@ =~= nm + seq!['/'] + k);
            assert(leaf_entries(es).len() == 0);
            assert(dir_keys(es).len() == 1);
        }
        let sub = sub_of(ents, ks[0].as_slice(), Ghost(files@));
        proof {
            lemma_sub_entries_smaller(es, k);
            lemma_sub_fits(es, k);
        }
        return build_dir(files, joined, parent, &sub);
    }
    let mut full: Vec<char> = Vec::new();
    if parent.len() > 0 {
        push_all(&mut full, parent.as_slice());
        full.push('/');
    }
    push_all(&mut full, name.as_slice());
    proof {
        assert(full@ =~= join(parent@, name@));
    }
    let children = build_level(files, ents, &full);
    let (a, b, c, d) = sums_of(files, ents);
    FileTreeNode {
        name: string_from_chars(name.as_slice()),
        full_path: string_from_chars(full.as_slice()),
        is_dir: true,
        children,
        lines_covered: a,
        lines_total: b,
        branches_covered: c,
        branches_total: d,
        file_count: ents.len(),
    }
}

/// The nested file tree of a target's files: top-level directories in key
/// order, then the files at the top in their order. A directory lists its
/// subdirectories in key order, then its files; one whose only content is a
/// single subdirectory is shown joined with it (`a/b`). Each directory counts
/// its files and sums their covered and total lines and branches.
pub fn build_file_tree(files: &Vec<FileCoverage>) -> (r: Vec<FileTreeNode>)
    requires
        tree_fits(files@),
    ensures
        nodes_view(r@) == file_tree(file_views(files@)),
{
    let mut ents: Vec<(Vec<char>, usize)> = Vec::new();
    let mut i: usize = 0;
    while i < files.len()
        invariant
            i <= files@.len(),
            ents@.len() == i,
            forall|q: int| 0 <= q < i ==> (#[trigger] ents@[q]).1 == q && ents@[q].0@ == files@[q].path@,
        decreases files.len() - i,
    {
        ents.push((chars_of(files[i].path.as_str()), i));
        i += 1;
    }
    proof {
        assert(ents_view(ents@, files@) =~= top_entries(file_views(files@)));
    }
    build_level(files, &ents, &Vec::new())
}

/// A file with uncovered lines: its path, uncovered lines and lines.
pub type Hotspot = (Seq<char>, int, int);

pub open spec fn hotspot_of(f: FileCoverage) -> Hotspot {
    (f.path@, f.lines@.len() - hit_lines(f.lines@), f.lines@.len() as int)
}

/// The files with uncovered lines, in their order.
pub open spec fn hotspot_candidates(files: Seq<FileCoverage>) -> Seq<Hotspot>
    decreases files.len(),
{
    if files.len() == 0 {
        Seq::empty()
    } else {
        let r = hotspot_candidates(files.drop_last());
        let h = hotspot_of(files.last());
        if h.1 > 0 {
            r.push(h)
        } else {
            r
        }
    }
}

/// `a` ranks before `b`: more lines uncovered, or as many out of fewer lines
/// (a lower line rate).
pub open spec fn ranks_before(a: Hotspot, b: Hotspot) -> bool {
    a.1 > b.1 || (a.1 == b.1 && a.2 < b.2)
}

/// Where `h` goes in the ranked `s`: before the first entry it ranks before.
pub open spec fn rank_pos(s: Seq<Hotspot>, h: Hotspot) -> int
    decreases s.len(),
{
    if s.len() == 0 {
        0
    } else if ranks_before(h, s[0]) {
        0
    } else {
        1 + rank_pos(s.drop_first(), h)
    }
}

/// `hs` ranked, stably: entries that rank alike keep their order.
pub open spec fn ranked(hs: Seq<Hotspot>) -> Seq<Hotspot>
    decreases hs.len(),
{
    if hs.len() == 0 {
        Seq::empty()
    } else {
        let s = ranked(hs.drop_last());
        s.insert(rank_pos(s, hs.last()), hs.last())
    }
}

/// How many hotspots the page lists at most.
pub const MAX_HOTSPOTS: usize = 15;

pub open spec fn hot_view(h: (String, i64, i64)) -> Hotspot {
    (h.0@, h.1 as int, h.2 as int)
}

pub open spec fn hots_view(hs: Seq<(String, i64, i64)>) -> Seq<Hotspot> {
    hs.map_values(|h: (String, i64, i64)| hot_view(h))
}

/// The files with the most uncovered lines, most first, at most
/// `MAX_HOTSPOTS` of them; among as many uncovered lines, the lower line
/// rate first, then the earlier file.
pub fn hotspots(files: &Vec<FileCoverage>) -> (r: Vec<(String, i64, i64)>)
    requires
        forall|i: int| 0 <= i < files@.len() ==> (#[trigger] files@[i]).lines@.len() <= i64::MAX,
    ensures
        hots_view(r@) == ranked(hotspot_candidates(files@)).take(
            if ranked(hotspot_candidates(files@)).len() < MAX_HOTSPOTS {
                ranked(hotspot_candidates(files@)).len() as int
            } else {
                MAX_HOTSPOTS as int
            },
        ),
{
    let mut out: Vec<(String, i64, i64)> = Vec::new();
    let mut i: usize = 0;
    proof {
        assert(files@.take(0) =~= Seq::<FileCoverage>::empty());
        assert(hots_view(out@) =~= Seq::<Hotspot>::empty());
    }
    while i < files.len()
        invariant
            i <= files@.len(),
            forall|q: int| 0 <= q < files@.len() ==> (#[trigger] files@[q]).lines@.len() <= i64::MAX,
            hots_view(out@) == ranked(hotspot_candidates(files@.take(i as int))),
        decreases files.len() - i,
    {
        let f = &files[i];
        proof {
            assert(files@.take(i + 1).drop_last() == files@.take(i as int));
            assert(files@.take(i + 1).last() == files@[i as int]);
            lemma_hit_le(f.lines@);
        }
        let total = f.lines.len() as i64;
        let covered = count_hits(&f.lines);
        let uncovered = total - covered;
        let ghost c = hotspot_candidates(files@.take(i as int));
        proof {
            assert(hotspot_of(*f).1 == uncovered);
        }
        if uncovered > 0 {
            let ghost s = hots_view(out@);
            let ghost h = hotspot_of(*f);
            let mut p: usize = 0;
            proof {
                assert(s.skip(0) == s);
            }
            while p < out.len() && !(uncovered > out[p].1 || (uncovered == out[p].1 && total < out[p].2))
                invariant
                    s == hots_view(out@),
                    h == (f.path@, uncovered as int, total as int),
                    p <= out@.len(),
                    rank_pos(s, h) == p + rank_pos(s.skip(p as int), h),
                decreases out.len() - p,
            {
                proof {
                    assert(s.skip(p as int)[0] == s[p as int]);
                    assert(s.skip(p as int).drop_first() == s.skip(p + 1));
                }
                p += 1;
            }
            proof {
                if p < s.len() {
                    assert(s.skip(p as int)[0] == s[p as int]);
                }
                assert(rank_pos(s, h) == p);
            }
            let entry = (owned(f.path.as_str()), uncovered, total);
            out.insert(p, entry);
            proof {
                assert(hots_view(out@) =~= s.insert(p as int, h));
                assert(hotspot_candidates(files@.take(i + 1)) == c.push(h));
                assert(c.push(h).drop_last() =~= c);
                assert(c.push(h).last() == h);
            }
        }
        i += 1;
    }
    proof {
        assert(files@.take(i as int) == files@);
    }
    let ghost all = hots_view(out@);
    let mut kept: Vec<(String, i64, i64)> = Vec::new();
    let mut k: usize = 0;
    while k < out.len() && k < MAX_HOTSPOTS
        invariant
            all == hots_view(out@),
            k <= out@.len(),
            k <= MAX_HOTSPOTS,
            hots_view(kept@) == all.take(k as int),
        decreases out.len() - k,
    {
        let e = (owned(out[k].0.as_str()), out[k].1, out[k].2);
        let ghost before = kept@;
        kept.push(e);
        proof {
            assert(all[k as int] == hot_view(out@[k as int]));
            assert(hot_view(e) == all[k as int]);
            assert(kept@ == before.push(e));
            assert(hots_view(before.push(e)) =~= hots_view(before).push(hot_view(e)));
            assert(all.take(k + 1) =~= all.take(k as int).push(all[k as int]));
            assert(hots_view(kept@) =~= all.take(k + 1));
        }
        k += 1;
    }
    kept
}

} // verus!
