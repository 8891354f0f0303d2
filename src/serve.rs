//! Answers to clients: the index as a list of entries, and a ranked query
//! over it.

use vstd::prelude::*;
use vstd::string::*;
use crate::find::{entries, into_entries, score_entries, scored};
use crate::index::{indexed, is_subtree, node_of, resolve, ChildIndex, Child, DirectoryIndex, Index, WatchHandle};
use crate::ipc::IndexEntry;
use crate::path::{merge_paths, merged, render};
use crate::query::{QueryOptions, MAX_PARAMETERS, MAX_PATH_CHARS};
use crate::select::{sort_asc, sort_ascending};

verus! {

/// An entry as plain values: its path and whether it is a directory.
pub open spec fn entry_view(e: IndexEntry) -> (Seq<char>, bool) {
    (e.path@, e.directory)
}

pub open spec fn entry_views(es: Seq<IndexEntry>) -> Seq<(Seq<char>, bool)> {
    es.map_values(|e: IndexEntry| entry_view(e))
}

pub open spec fn is_dir_kind(k: ChildIndex) -> bool {
    k is Directory
}

/// The children of a node, each under its bare name.
pub open spec fn bare_children(d: DirectoryIndex) -> Seq<(Seq<char>, bool)> {
    d.children@.map_values(|c: Child| (c.name@, is_dir_kind(c.kind)))
}

/// The children of every node, in order, each under its bare name.
pub open spec fn flat(nodes: Seq<DirectoryIndex>) -> Seq<(Seq<char>, bool)>
    decreases nodes.len(),
{
    if nodes.len() == 0 {
        Seq::empty()
    } else {
        flat(nodes.drop_last()) + bare_children(nodes.last())
    }
}

/// The children of the node `h`, each under its full path.
pub open spec fn pathed_children(nodes: Seq<DirectoryIndex>, h: WatchHandle) -> Seq<(Seq<char>, bool)> {
    node_of(nodes, h).children@.map_values(
        |c: Child| (render(merged(resolve(nodes, h), c.name@)), is_dir_kind(c.kind)),
    )
}

/// The children of the nodes `hs`, in order, each under its full path.
pub open spec fn pathed(nodes: Seq<DirectoryIndex>, hs: Seq<WatchHandle>) -> Seq<(Seq<char>, bool)>
    decreases hs.len(),
{
    if hs.len() == 0 {
        Seq::empty()
    } else {
        pathed(nodes, hs.drop_last()) + pathed_children(nodes, hs.last())
    }
}

/// The first node whose recorded path is `p`, or -1.
pub open spec fn root_pos(nodes: Seq<DirectoryIndex>, p: Seq<char>) -> int
    decreases nodes.len(),
{
    if nodes.len() == 0 {
        -1
    } else {
        let q = root_pos(nodes.drop_last(), p);
        if q >= 0 {
            q
        } else if nodes.last().path@ == p {
            nodes.len() - 1
        } else {
            -1
        }
    }
}

/// What `get_index` answers for `path`.
pub open spec fn index_answer(nodes: Seq<DirectoryIndex>, path: Option<Seq<char>>, r: Option<Vec<IndexEntry>>) -> bool {
    &&& path is None ==> r is Some && entry_views(r->0@) == flat(nodes)
    &&& path is Some ==> (root_pos(nodes, path->0) < 0 <==> r is None)
    &&& path is Some && r is Some ==> exists|hs: Seq<WatchHandle>|
        is_subtree(nodes, nodes[root_pos(nodes, path->0)].handle, hs) && entry_views(r->0@) == pathed(nodes, hs)
}

/// What the backend search answers.
pub open spec fn query_answer(index: Index, opts: QueryOptions, r: Seq<IndexEntry>) -> bool {
    exists|all: Seq<IndexEntry>|
        entry_views(all) == pathed(index.inner@, index.inner@.map_values(|d: DirectoryIndex| d.handle)) && r
            == entries(sort_asc(scored(short_enough(all), opts.query, 0)))
}

/// Entries with paths short enough to score, in order.
pub open spec fn short_enough(es: Seq<IndexEntry>) -> Seq<IndexEntry>
    decreases es.len(),
{
    if es.len() == 0 {
        es
    } else if es.last().path@.len() <= MAX_PATH_CHARS {
        short_enough(es.drop_last()).push(es.last())
    } else {
        short_enough(es.drop_last())
    }
}

proof fn lemma_root_pos(nodes: Seq<DirectoryIndex>, p: Seq<char>)
    ensures
        -1 <= root_pos(nodes, p) < nodes.len(),
        root_pos(nodes, p) >= 0 ==> nodes[root_pos(nodes, p)].path@ == p,
        root_pos(nodes, p) >= 0 ==> forall|k: int| 0 <= k < root_pos(nodes, p) ==> nodes[k].path@ != p,
        root_pos(nodes, p) < 0 ==> forall|k: int| 0 <= k < nodes.len() ==> nodes[k].path@ != p,
    decreases nodes.len(),
{
    if nodes.len() > 0 {
        lemma_root_pos(nodes.drop_last(), p);
        assert forall|k: int| 0 <= k < nodes.len() - 1 implies nodes[k] == nodes.drop_last()[k] by {}
    }
}

/// Appends the children of `d`, each under `base` (bare names when `base`
/// is absent).
fn push_children(out: &mut Vec<IndexEntry>, d: &DirectoryIndex, base: Option<&str>)
    ensures
        entry_views(final(out)@) == entry_views(old(out)@) + match base {
            Some(b) => d.children@.map_values(
                |c: Child| (render(merged(b@, c.name@)), is_dir_kind(c.kind)),
            ),
            None => bare_children(*d),
        },
{
    let ghost start = entry_views(out@);
    let ghost want = match base {
        Some(b) => d.children@.map_values(|c: Child| (render(merged(b@, c.name@)), is_dir_kind(c.kind))),
        None => bare_children(*d),
    };
    let mut j: usize = 0;
    while j < d.children.len()
        invariant
            j <= d.children@.len(),
            want.len() == d.children@.len(),
            want == match base {
                Some(b) => d.children@.map_values(|c: Child| (render(merged(b@, c.name@)), is_dir_kind(c.kind))),
                None => bare_children(*d),
            },
            entry_views(out@) == start + want.subrange(0, j as int),
        decreases d.children@.len() - j,
    {
        let c = &d.children[j];
        let is_dir = match c.kind {
            ChildIndex::Directory { .. } => true,
            ChildIndex::File => false,
        };
        let path = match base {
            Some(b) => merge_paths(b, c.name.as_str()),
            None => c.name.clone(),
        };
        let ghost before = out@;
        out.push(IndexEntry { path, directory: is_dir });
        proof {
            assert(entry_views(out@) =~= entry_views(before).push(want[j as int]));
            assert(want.subrange(0, j + 1) =~= want.subrange(0, j as int).push(want[j as int]));
        }
        j = j + 1;
    }
    assert(want.subrange(0, j as int) =~= want);
}

impl Index {
    /// The children of every node, each under its bare name.
    pub fn all_children(&self) -> (r: Vec<IndexEntry>)
        ensures
            entry_views(r@) == flat(self.inner@),
    {
        let mut r: Vec<IndexEntry> = Vec::new();
        let mut i: usize = 0;
        assert(self.inner@.subrange(0, 0) =~= Seq::<DirectoryIndex>::empty());
        assert(entry_views(r@) =~= Seq::<(Seq<char>, bool)>::empty());
        while i < self.inner.len()
            invariant
                i <= self.inner@.len(),
                entry_views(r@) == flat(self.inner@.subrange(0, i as int)),
            decreases self.inner@.len() - i,
        {
            push_children(&mut r, &self.inner[i], None);
            proof {
                assert(self.inner@.subrange(0, i + 1).drop_last() =~= self.inner@.subrange(0, i as int));
            }
            i = i + 1;
        }
        assert(self.inner@.subrange(0, i as int) =~= self.inner@);
        r
    }

    /// The children of the nodes `hs`, each under its full path.
    pub fn children_under(&self, hs: &Vec<WatchHandle>) -> (r: Vec<IndexEntry>)
        requires
            forall|x: WatchHandle| hs@.contains(x) ==> indexed(self.inner@, x),
        ensures
            entry_views(r@) == pathed(self.inner@, hs@),
    {
        let mut r: Vec<IndexEntry> = Vec::new();
        let mut i: usize = 0;
        assert(hs@.subrange(0, 0) =~= Seq::<WatchHandle>::empty());
        assert(entry_views(r@) =~= Seq::<(Seq<char>, bool)>::empty());
        while i < hs.len()
            invariant
                i <= hs@.len(),
                forall|x: WatchHandle| hs@.contains(x) ==> indexed(self.inner@, x),
                entry_views(r@) == pathed(self.inner@, hs@.subrange(0, i as int)),
            decreases hs@.len() - i,
        {
            let h = hs[i];
            proof {
                assert(hs@.contains(h));
                crate::index::lemma_find_pos_pub(self.inner@, h);
            }
            let p = self.find(h).unwrap();
            let base = self.get_path(h);
            push_children(&mut r, &self.inner[p], Some(base.as_str()));
            proof {
                assert(hs@.subrange(0, i + 1).drop_last() =~= hs@.subrange(0, i as int));
                assert(hs@.subrange(0, i + 1).last() == h);
            }
            i = i + 1;
        }
        assert(hs@.subrange(0, i as int) =~= hs@);
        r
    }

    /// The index as entries: without a path, the children of every node
    /// under their bare names; with one, the children of every node in the
    /// subtree of the first node recorded under that path, under their full
    /// paths, or none when no node is.
    pub fn get_index(&self, path: Option<&str>) -> (r: Option<Vec<IndexEntry>>)
        ensures
            index_answer(
                self.inner@,
                match path {
                    Some(p) => Some(p@),
                    None => None,
                },
                r,
            ),
    {
        match path {
            None => Some(self.all_children()),
            Some(p) => {
                let target = crate::text::chars_of(p);
                proof {
                    lemma_root_pos(self.inner@, p@);
                }
                let mut i: usize = 0;
                while i < self.inner.len()
                    invariant
                        path == Some(p),
                        target@ == p@,
                        i <= self.inner@.len(),
                        forall|k: int| 0 <= k < i ==> self.inner@[k].path@ != p@,
                    decreases self.inner@.len() - i,
                {
                    if crate::text::same_chars(&crate::text::chars_of(self.inner[i].path.as_str()), &target) {
                        let h = self.inner[i].handle;
                        proof {
                            lemma_root_pos(self.inner@, p@);
                            assert(root_pos(self.inner@, p@) == i);
                            assert(indexed(self.inner@, h));
                        }
                        let hs = self.traverse(h);
                        let v = self.children_under(&hs);
                        proof {
                            assert(self.inner@[root_pos(self.inner@, p@)].handle == h);
                            assert(is_subtree(self.inner@, h, hs@));
                        }
                        return Some(v);
                    }
                    i = i + 1;
                }
                None
            },
        }
    }
}

/// The entries with paths short enough to score.
pub fn keep_short(es: Vec<IndexEntry>) -> (r: Vec<IndexEntry>)
    ensures
        r@ == short_enough(es@),
{
    let ghost orig = es@;
    let n = es.len();
    let mut rest = crate::select::reversed(es);
    let mut r: Vec<IndexEntry> = Vec::new();
    let mut i: usize = 0;
    assert(orig.subrange(0, 0) =~= Seq::<IndexEntry>::empty());
    while rest.len() > 0
        invariant
            n == orig.len(),
            i + rest@.len() == n,
            rest@ == orig.subrange(i as int, n as int).reverse(),
            r@ == short_enough(orig.subrange(0, i as int)),
        decreases rest@.len(),
    {
        let e = rest.pop().unwrap();
        proof {
            assert(e == orig[i as int]);
            assert(orig.subrange(0, i + 1).drop_last() =~= orig.subrange(0, i as int));
            assert(rest@ =~= orig.subrange(i + 1, n as int).reverse());
        }
        if e.path.as_str().unicode_len() <= MAX_PATH_CHARS {
            r.push(e);
        }
        i = i + 1;
    }
    assert(orig.subrange(0, n as int) =~= orig);
    r
}

proof fn lemma_short_enough(es: Seq<IndexEntry>)
    ensures
        forall|i: int| 0 <= i < short_enough(es).len() ==> short_enough(es)[i].path@.len() <= MAX_PATH_CHARS,
    decreases es.len(),
{
    if es.len() > 0 {
        lemma_short_enough(es.drop_last());
        let a = short_enough(es.drop_last());
        if es.last().path@.len() <= MAX_PATH_CHARS {
            assert forall|i: int| 0 <= i < a.push(es.last()).len() implies a.push(es.last())[i].path@.len()
                <= MAX_PATH_CHARS by {
                if i < a.len() {
                    assert(a.push(es.last())[i] == a[i]);
                }
            }
        }
    }
}

/// Backend search: every child of every node under its full path, kept
/// when it scores at least zero, in ascending score with equal scores in
/// index order. Paths longer than the scorer takes are left out.
pub fn query(index: &Index, opts: &QueryOptions) -> (r: Vec<IndexEntry>)
    requires
        opts.query.params().len() <= MAX_PARAMETERS,
    ensures
        query_answer(*index, *opts, r@),
{
    let hs = index.handles();
    let all = index.children_under(&hs);
    let ghost all_v = all@;
    let short = keep_short(all);
    proof {
        lemma_short_enough(all_v);
    }
    let ranked = score_entries(short, &opts.query, 0);
    into_entries(sort_ascending(ranked))
}

impl Index {
    /// The handles of all nodes, in order.
    pub fn handles(&self) -> (r: Vec<WatchHandle>)
        ensures
            r@ == self.inner@.map_values(|d: DirectoryIndex| d.handle),
            forall|x: WatchHandle| r@.contains(x) ==> indexed(self.inner@, x),
    {
        let mut r: Vec<WatchHandle> = Vec::new();
        let mut i: usize = 0;
        while i < self.inner.len()
            invariant
                i <= self.inner@.len(),
                r@ == self.inner@.subrange(0, i as int).map_values(|d: DirectoryIndex| d.handle),
            decreases self.inner@.len() - i,
        {
            r.push(self.inner[i].handle);
            i = i + 1;
            assert(r@ =~= self.inner@.subrange(0, i as int).map_values(|d: DirectoryIndex| d.handle));
        }
        assert(self.inner@.subrange(0, i as int) =~= self.inner@);
        proof {
            assert forall|x: WatchHandle| r@.contains(x) implies indexed(self.inner@, x) by {
                let k = choose|k: int| 0 <= k < r@.len() && r@[k] == x;
                assert(self.inner@[k].handle == x);
            }
        }
        r
    }
}

} // verus!
