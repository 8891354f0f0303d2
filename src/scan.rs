//! Indexing directories as a sequence of steps. The index asks for one
//! directory at a time to be opened (its watch registered and its entries
//! read); the caller does that and hands back what came of it.

use vstd::prelude::*;
use vstd::string::*;
use crate::config::{ignores, recurses, Config};
use crate::select::reversed;
use crate::index::{
    child_pairs, indexed, node_of, well_formed, ChildIndex, DirectoryIndex, Index,
    WatchHandle,
};

verus! {

/// What the filesystem reports an entry to be.
#[derive(Clone, Copy, Debug, PartialEq, Eq, Structural)]
pub enum EntryKind {
    Directory,
    File,
    /// Neither a directory nor a regular file.
    Other,
    /// Its type could not be determined.
    Unreadable,
}

/// An entry of a directory listing.
#[derive(Clone, Debug)]
pub struct DirEntry {
    pub name: String,
    pub kind: EntryKind,
}

/// What came of opening a directory.
#[derive(Clone, Debug)]
pub enum Opened {
    /// Its watch could not be registered.
    NotWatched,
    /// Its watch was registered but its entries could not be read.
    Unlisted(WatchHandle),
    /// Its watch was registered and these are its entries.
    Listed(WatchHandle, Vec<DirEntry>),
}

/// A directory still to be opened.
#[derive(Clone, Debug)]
pub struct PendingDir {
    /// The name recorded in its node.
    pub name: String,
    /// Its full path.
    pub path: String,
    /// The node above it; absent for a configured root.
    pub parent: Option<WatchHandle>,
    /// The governing directory of the configuration.
    pub watch_dir: usize,
}

/// An indexing in progress.
pub struct Scan {
    pending: Vec<PendingDir>,
    release: Vec<WatchHandle>,
}

/// `dir/name`.
pub open spec fn joined(dir: Seq<char>, name: Seq<char>) -> Seq<char> {
    dir + seq!['/'] + name
}

/// `dir/name`.
pub fn join_name(dir: &str, name: &str) -> (r: String)
    ensures
        r@ == joined(dir@, name@),
{
    let mut r = String::from_str(dir);
    r.append("/");
    proof {
        reveal_strlit("/");
    }
    r.append(name);
    r
}

/// What a listed entry becomes in its directory's node: `None` when it is
/// left out, or stays to be opened as a directory of its own.
pub open spec fn entry_record(cfg: Config, wd: int, e: DirEntry) -> Option<ChildIndex> {
    if ignores(cfg, wd, e.name@) {
        None
    } else {
        match e.kind {
            EntryKind::File => Some(ChildIndex::File),
            EntryKind::Directory => if recurses(cfg, wd) {
                None
            } else {
                Some(ChildIndex::Directory { descriptor: None })
            },
            _ => None,
        }
    }
}

/// The listed entry stays to be opened as a directory of its own.
pub open spec fn entry_descends(cfg: Config, wd: int, e: DirEntry) -> bool {
    !ignores(cfg, wd, e.name@) && e.kind == EntryKind::Directory && recurses(cfg, wd)
}

/// `(name, kind)` set in a list of children: replaced in place, else appended.
pub open spec fn set_pair(cs: Seq<(Seq<char>, ChildIndex)>, name: Seq<char>, kind: ChildIndex) -> Seq<(Seq<char>, ChildIndex)> {
    if exists|j: int| 0 <= j < cs.len() && cs[j].0 == name {
        cs.update(choose|j: int| 0 <= j < cs.len() && cs[j].0 == name, (name, kind))
    } else {
        cs.push((name, kind))
    }
}

/// The children that a listing records, entry after entry.
pub open spec fn listed_children(cfg: Config, wd: int, es: Seq<DirEntry>) -> Seq<(Seq<char>, ChildIndex)>
    decreases es.len(),
{
    if es.len() == 0 {
        Seq::empty()
    } else {
        let before = listed_children(cfg, wd, es.drop_last());
        match entry_record(cfg, wd, es.last()) {
            Some(k) => set_pair(before, es.last().name@, k),
            None => before,
        }
    }
}

/// The directories of a listing that are still to be opened, in order.
pub open spec fn descending(cfg: Config, wd: int, es: Seq<DirEntry>) -> Seq<Seq<char>>
    decreases es.len(),
{
    if es.len() == 0 {
        Seq::empty()
    } else if entry_descends(cfg, wd, es.last()) {
        descending(cfg, wd, es.drop_last()).push(es.last().name@)
    } else {
        descending(cfg, wd, es.drop_last())
    }
}

impl Scan {
    /// The directories still to be opened; the last is next.
    pub closed spec fn todo(&self) -> Seq<PendingDir> {
        self.pending@
    }

    /// The handles whose watches are to be released.
    pub closed spec fn released(&self) -> Seq<WatchHandle> {
        self.release@
    }

    /// The full path of the directory to open next, if any is left.
    pub fn next_dir(&self) -> (r: Option<&str>)
        ensures
            match r {
                Some(p) => self.todo().len() > 0 && p@ == self.todo().last().path@,
                None => self.todo().len() == 0,
            },
    {
        let n = self.pending.len();
        if n == 0 {
            None
        } else {
            Some(self.pending[n - 1].path.as_str())
        }
    }

    /// Whether nothing is left to open.
    pub fn is_done(&self) -> (r: bool)
        ensures
            r == (self.todo().len() == 0),
    {
        self.pending.len() == 0
    }

    /// Hands over the handles whose watches are to be released.
    pub fn take_released(&mut self) -> (r: Vec<WatchHandle>)
        ensures
            r@ == old(self).released(),
            final(self).released().len() == 0,
            final(self).todo() == old(self).todo(),
    {
        let mut r: Vec<WatchHandle> = Vec::new();
        std::mem::swap(&mut r, &mut self.release);
        r
    }
}

impl Index {
    /// A scan of the directory `name` under node `parent`, or of the
    /// configured root `name` when `parent` is absent; none when the name
    /// is left out by the configuration.
    pub fn index_dir(&self, cfg: &Config, watch_dir: usize, name: &str, parent: Option<WatchHandle>) -> (r: Option<Scan>)
        ensures
            ignores(*cfg, watch_dir as int, name@) <==> r is None,
            r matches Some(s) ==> s.released().len() == 0 && s.todo().len() == 1 && s.todo()[0].name@ == name@
                && s.todo()[0].parent == parent && s.todo()[0].watch_dir == watch_dir && s.todo()[0].path@
                == match parent {
                Some(p) => joined(crate::index::resolve(self.inner@, p), name@),
                None => name@,
            },
    {
        if cfg.is_ignored(watch_dir, name) {
            return None;
        }
        let path = match parent {
            Some(p) => join_name(self.get_path(p).as_str(), name),
            None => String::from_str(name),
        };
        let mut pending: Vec<PendingDir> = Vec::new();
        pending.push(PendingDir { name: String::from_str(name), path, parent, watch_dir });
        Some(Scan { pending, release: Vec::new() })
    }

    /// Records one entry of the listing of node `h`.
    fn record_entry(&mut self, cfg: &Config, scan: &mut Scan, h: WatchHandle, dir: &str, wd: usize, e: DirEntry)
        requires
            well_formed(old(self).inner@),
            indexed(old(self).inner@, h),
        ensures
            well_formed(final(self).inner@),
            forall|x: WatchHandle| #[trigger] indexed(final(self).inner@, x) == indexed(old(self).inner@, x),
            forall|x: WatchHandle|
                #[trigger] indexed(final(self).inner@, x) && x != h ==> node_of(final(self).inner@, x) == node_of(
                    old(self).inner@,
                    x,
                ),
            child_pairs(node_of(final(self).inner@, h)) == match entry_record(*cfg, wd as int, e) {
                Some(k) => set_pair(child_pairs(node_of(old(self).inner@, h)), e.name@, k),
                None => child_pairs(node_of(old(self).inner@, h)),
            },
            node_of(final(self).inner@, h).path == node_of(old(self).inner@, h).path,
            node_of(final(self).inner@, h).parent == node_of(old(self).inner@, h).parent,
            node_of(final(self).inner@, h).watch_dir == node_of(old(self).inner@, h).watch_dir,
            final(scan).released() == old(scan).released(),
            final(scan).todo() == if entry_descends(*cfg, wd as int, e) {
                old(scan).todo().push(
                    PendingDir {
                        name: e.name,
                        path: final(scan).todo().last().path,
                        parent: Some(h),
                        watch_dir: wd,
                    },
                )
            } else {
                old(scan).todo()
            },
            entry_descends(*cfg, wd as int, e) ==> final(scan).todo().last().path@ == joined(dir@, e.name@),
    {
        if cfg.is_ignored(wd, e.name.as_str()) {
            return;
        }
        match e.kind {
            EntryKind::File => {
                self.set_child(h, e.name, ChildIndex::File);
            },
            EntryKind::Directory => {
                if cfg.recurse(wd) {
                    let path = join_name(dir, e.name.as_str());
                    scan.pending.push(PendingDir { name: e.name, path, parent: Some(h), watch_dir: wd });
                } else {
                    self.set_child(h, e.name, ChildIndex::Directory { descriptor: None });
                }
            },
            _ => {},
        }
    }
}

/// The node that opening `d` adds: the new handle, when the watch was
/// registered and listed, the handle is not indexed yet, and the node above
/// (if any) is indexed.
pub open spec fn added_node(nodes: Seq<DirectoryIndex>, d: PendingDir, opened: Opened) -> Option<WatchHandle> {
    match opened {
        Opened::Listed(h, _) => if !indexed(nodes, h) && match d.parent {
            Some(p) => indexed(nodes, p),
            None => true,
        } {
            Some(h)
        } else {
            None
        },
        _ => None,
    }
}

/// The handle whose watch opening `d` leaves to release: one registered for
/// a directory that is not indexed after all, unless it is the handle of a
/// node already indexed.
pub open spec fn dropped_watch(nodes: Seq<DirectoryIndex>, d: PendingDir, opened: Opened) -> Option<WatchHandle> {
    match opened {
        Opened::Unlisted(h) => if indexed(nodes, h) {
            None
        } else {
            Some(h)
        },
        Opened::Listed(h, _) => if !indexed(nodes, h) && added_node(nodes, d, opened) is None {
            Some(h)
        } else {
            None
        },
        Opened::NotWatched => None,
    }
}

impl Index {
    /// Takes in what came of opening the next directory of `scan`. A
    /// listed directory gets a node holding its files, and its
    /// subdirectories (or, without recursion, a record of each); its entry
    /// in the node above records its handle. A directory that could not be
    /// watched or listed is recorded there without a handle; a root that
    /// could not is left out.
    pub fn advance(&mut self, cfg: &Config, scan: &mut Scan, opened: Opened)
        requires
            well_formed(old(self).inner@),
            old(scan).todo().len() > 0,
        ensures
            well_formed(final(self).inner@),
            ({
                let old_nodes = old(self).inner@;
                let fin = final(self).inner@;
                let d = old(scan).todo().last();
                let rest = old(scan).todo().drop_last();
                &&& forall|x: WatchHandle| #[trigger] indexed(fin, x) == (indexed(old_nodes, x) || added_node(
                    old_nodes,
                    d,
                    opened,
                ) == Some(x))
                &&& forall|x: WatchHandle|
                    #[trigger] indexed(old_nodes, x) && d.parent != Some(x) ==> node_of(fin, x) == node_of(
                        old_nodes,
                        x,
                    )
                &&& final(scan).released() == match dropped_watch(old_nodes, d, opened) {
                    Some(h) => old(scan).released().push(h),
                    None => old(scan).released(),
                }
                &&& match added_node(old_nodes, d, opened) {
                    Some(h) => {
                        let es = opened->Listed_1@;
                        let node = node_of(fin, h);
                        &&& node.path == d.name
                        &&& node.parent == d.parent
                        &&& node.watch_dir == d.watch_dir
                        &&& child_pairs(node) == listed_children(*cfg, d.watch_dir as int, es)
                        &&& d.parent matches Some(p) ==> child_pairs(node_of(fin, p)) == set_pair(
                            child_pairs(node_of(old_nodes, p)),
                            d.name@,
                            ChildIndex::Directory { descriptor: Some(h) },
                        )
                        &&& final(scan).todo().len() == rest.len() + descending(*cfg, d.watch_dir as int, es).len()
                        &&& final(scan).todo().subrange(0, rest.len() as int) == rest
                        &&& forall|k: int|
                            0 <= k < descending(*cfg, d.watch_dir as int, es).len() ==> {
                                let q = #[trigger] final(scan).todo()[rest.len() + k];
                                &&& q.name@ == descending(*cfg, d.watch_dir as int, es)[k]
                                &&& q.path@ == joined(d.path@, q.name@)
                                &&& q.parent == Some(h)
                                &&& q.watch_dir == d.watch_dir
                            }
                    },
                    None => {
                        &&& final(scan).todo() == rest
                        &&& d.parent matches Some(p) ==> indexed(old_nodes, p) ==> child_pairs(node_of(fin, p))
                            == set_pair(
                            child_pairs(node_of(old_nodes, p)),
                            d.name@,
                            ChildIndex::Directory { descriptor: None },
                        )
                    },
                }
            }),
    {
        let ghost old_nodes = self.inner@;
        let ghost old_todo = scan.pending@;
        let d = scan.pending.pop().unwrap();
        proof {
            assert(d == old_todo.last());
            assert(scan.pending@ == old_todo.drop_last());
        }
        let parent_ok = match d.parent {
            Some(p) => self.find(p).is_some(),
            None => true,
        };
        proof {
            if let Some(p) = d.parent {
                crate::index::lemma_find_pos_pub(old_nodes, p);
            }
        }
        match opened {
            Opened::Listed(h, es) => {
                proof {
                    crate::index::lemma_find_pos_pub(old_nodes, h);
                }
                let fresh = self.find(h).is_none();
                if fresh && parent_ok {
                    self.add_node(h, d.name.clone(), d.parent, d.watch_dir);
                    let ghost after_add = self.inner@;
                    match d.parent {
                        Some(p) => {
                            self.set_child(p, d.name.clone(), ChildIndex::Directory { descriptor: Some(h) });
                        },
                        None => {},
                    }
                    let ghost base = self.inner@;
                    proof {
                        assert(indexed(base, h));
                        if let Some(p) = d.parent {
                            assert(p != h);
                        }
                        assert(node_of(base, h) == node_of(after_add, h));
                    }
                    let ghost rest = scan.pending@;
                    let ghost all = es@;
                    let n = es.len();
                    let mut todo_es = reversed(es);
                    let mut i: usize = 0;
                    proof {
                        assert(all.subrange(0, 0) =~= Seq::<DirEntry>::empty());
                        assert(child_pairs(node_of(base, h)) =~= Seq::<(Seq<char>, ChildIndex)>::empty());
                        assert(scan.pending@.subrange(0, rest.len() as int) =~= rest);
                    }
                    while todo_es.len() > 0
                        invariant
                            n == all.len(),
                            i + todo_es@.len() == n,
                            todo_es@ == all.subrange(i as int, n as int).reverse(),
                            well_formed(self.inner@),
                            indexed(self.inner@, h),
                            forall|x: WatchHandle| #[trigger] indexed(self.inner@, x) == indexed(base, x),
                            forall|x: WatchHandle|
                                #[trigger] indexed(self.inner@, x) && x != h ==> node_of(self.inner@, x) == node_of(
                                    base,
                                    x,
                                ),
                            child_pairs(node_of(self.inner@, h)) == listed_children(
                                *cfg,
                                d.watch_dir as int,
                                all.subrange(0, i as int),
                            ),
                            node_of(self.inner@, h).path == d.name,
                            node_of(self.inner@, h).parent == d.parent,
                            node_of(self.inner@, h).watch_dir == d.watch_dir,
                            scan.release@ == old(scan).release@,
                            scan.pending@.len() == rest.len() + descending(
                                *cfg,
                                d.watch_dir as int,
                                all.subrange(0, i as int),
                            ).len(),
                            scan.pending@.subrange(0, rest.len() as int) == rest,
                            forall|k: int|
                                0 <= k < descending(*cfg, d.watch_dir as int, all.subrange(0, i as int)).len() ==> {
                                    let q = #[trigger] scan.pending@[rest.len() + k];
                                    &&& q.name@ == descending(*cfg, d.watch_dir as int, all.subrange(0, i as int))[k]
                                    &&& q.path@ == joined(d.path@, q.name@)
                                    &&& q.parent == Some(h)
                                    &&& q.watch_dir == d.watch_dir
                                },
                        decreases todo_es@.len(),
                    {
                        let e = todo_es.pop().unwrap();
                        let ghost pre = all.subrange(0, i as int);
                        let ghost before_pending = scan.pending@;
                        proof {
                            assert(e == all[i as int]);
                            assert(all.subrange(0, i + 1).drop_last() =~= pre);
                            assert(todo_es@ =~= all.subrange(i + 1, n as int).reverse());
                        }
                        self.record_entry(cfg, scan, h, d.path.as_str(), d.watch_dir, e);
                        proof {
                            let now = all.subrange(0, i + 1);
                            assert(now.last() == e);
                            let dn = descending(*cfg, d.watch_dir as int, now);
                            let dp = descending(*cfg, d.watch_dir as int, pre);
                            if entry_descends(*cfg, d.watch_dir as int, e) {
                                assert(dn == dp.push(e.name@));
                                assert(scan.pending@.subrange(0, rest.len() as int) =~= rest) by {
                                    assert forall|k: int| 0 <= k < rest.len() implies scan.pending@[k] == rest[k] by {
                                        assert(before_pending.subrange(0, rest.len() as int)[k] == rest[k]);
                                    }
                                }
                                assert forall|k: int| 0 <= k < dn.len() implies {
                                    let q = #[trigger] scan.pending@[rest.len() + k];
                                    &&& q.name@ == dn[k]
                                    &&& q.path@ == joined(d.path@, q.name@)
                                    &&& q.parent == Some(h)
                                    &&& q.watch_dir == d.watch_dir
                                } by {
                                    if k < dp.len() {
                                        assert(scan.pending@[rest.len() + k] == before_pending[rest.len() + k]);
                                    }
                                }
                            } else {
                                assert(dn == dp);
                            }
                        }
                        i = i + 1;
                    }
                    proof {
                        assert(all.subrange(0, n as int) =~= all);
                        let fin = self.inner@;
                        assert forall|x: WatchHandle|
                            #[trigger] indexed(old_nodes, x) && d.parent != Some(x) implies node_of(fin, x) == node_of(
                                old_nodes,
                                x,
                            ) by {
                            assert(x != h);
                            assert(indexed(after_add, x));
                            assert(indexed(base, x));
                            assert(indexed(fin, x));
                            assert(node_of(fin, x) == node_of(base, x));
                            assert(node_of(base, x) == node_of(after_add, x));
                        }
                        if let Some(p) = d.parent {
                            assert(p != h);
                            assert(indexed(base, p));
                            assert(indexed(fin, p));
                            assert(node_of(fin, p) == node_of(base, p));
                            assert(indexed(old_nodes, p));
                            assert(node_of(after_add, p) == node_of(old_nodes, p));
                        }
                        assert(added_node(old_nodes, d, opened) == Some(h));
                        assert(forall|x: WatchHandle| #[trigger] indexed(fin, x) == (indexed(old_nodes, x) || x == h));
                        assert(dropped_watch(old_nodes, d, opened) is None);
                    }
                } else {
                    // a handle of a node already indexed stays with that node
                    if fresh {
                        scan.release.push(h);
                    }
                    self.record_unwatched(&d);
                }
            },
            Opened::Unlisted(h) => {
                proof {
                    crate::index::lemma_find_pos_pub(old_nodes, h);
                }
                if self.find(h).is_none() {
                    scan.release.push(h);
                }
                self.record_unwatched(&d);
            },
            Opened::NotWatched => {
                self.record_unwatched(&d);
            },
        }
    }

    /// Records a directory that is not indexed itself in the node above it.
    fn record_unwatched(&mut self, d: &PendingDir)
        requires
            well_formed(old(self).inner@),
        ensures
            well_formed(final(self).inner@),
            forall|x: WatchHandle| #[trigger] indexed(final(self).inner@, x) == indexed(old(self).inner@, x),
            forall|x: WatchHandle|
                #[trigger] indexed(old(self).inner@, x) && d.parent != Some(x) ==> node_of(final(self).inner@, x)
                    == node_of(old(self).inner@, x),
            d.parent matches Some(p) ==> indexed(old(self).inner@, p) ==> child_pairs(node_of(final(self).inner@, p))
                == set_pair(
                child_pairs(node_of(old(self).inner@, p)),
                d.name@,
                ChildIndex::Directory { descriptor: None },
            ),
    {
        let ghost old_nodes = self.inner@;
        match d.parent {
            Some(p) => {
                self.set_child(p, d.name.clone(), ChildIndex::Directory { descriptor: None });
            },
            None => {},
        }
        proof {
            assert forall|x: WatchHandle|
                #[trigger] indexed(old_nodes, x) && d.parent != Some(x) implies node_of(self.inner@, x) == node_of(
                    old_nodes,
                    x,
                ) by {
                assert(indexed(self.inner@, x));
            }
        }
    }
}

/// The configured roots that are not left out, last first.
pub open spec fn roots_todo(cfg: Config, n: int) -> Seq<PendingDir>
    decreases n,
{
    if n <= 0 {
        Seq::empty()
    } else {
        let d = cfg.directories@[n - 1];
        let rest = roots_todo(cfg, n - 1);
        if ignores(cfg, n - 1, d.path@) {
            rest
        } else {
            seq![PendingDir { name: d.path, path: d.path, parent: None, watch_dir: (n - 1) as usize }] + rest
        }
    }
}

impl Index {
    /// The full path that a created entry `name` of node `wd` is looked up
    /// at, unless `wd` is not indexed or the configuration leaves the path out.
    pub fn create_target(&self, cfg: &Config, wd: WatchHandle, name: &str) -> (r: Option<String>)
        ensures
            match r {
                Some(full) => indexed(self.inner@, wd) && full@ == joined(
                    crate::index::resolve(self.inner@, wd),
                    name@,
                ) && !ignores(*cfg, node_of(self.inner@, wd).watch_dir as int, full@),
                None => !indexed(self.inner@, wd) || ignores(
                    *cfg,
                    node_of(self.inner@, wd).watch_dir as int,
                    joined(crate::index::resolve(self.inner@, wd), name@),
                ),
            },
    {
        proof {
            crate::index::lemma_find_pos_pub(self.inner@, wd);
        }
        let p = match self.find(wd) {
            Some(p) => p,
            None => {
                return None;
            },
        };
        let full = join_name(self.get_path(wd).as_str(), name);
        if cfg.is_ignored(self.inner[p].watch_dir, full.as_str()) {
            None
        } else {
            Some(full)
        }
    }

    /// Takes in an entry `name` created in node `wd`, which the filesystem
    /// reports as `kind`: a file is recorded, a directory is recorded
    /// without a handle when its root does not recurse, and else a scan of
    /// it is returned. Nothing changes for other kinds, for an unindexed
    /// `wd`, or for a path that the configuration leaves out.
    pub fn create_index(&mut self, cfg: &Config, wd: WatchHandle, name: &str, kind: EntryKind) -> (r: Option<Scan>)
        requires
            well_formed(old(self).inner@),
        ensures
            well_formed(final(self).inner@),
            ({
                let old_nodes = old(self).inner@;
                let fin = final(self).inner@;
                let full = joined(crate::index::resolve(old_nodes, wd), name@);
                let w = node_of(old_nodes, wd).watch_dir as int;
                let record = match kind {
                    EntryKind::File => Some(ChildIndex::File),
                    EntryKind::Directory => if recurses(*cfg, w) {
                        None
                    } else {
                        Some(ChildIndex::Directory { descriptor: None })
                    },
                    _ => None,
                };
                if !indexed(old_nodes, wd) || ignores(*cfg, w, full) {
                    fin == old_nodes && r is None
                } else {
                    &&& forall|x: WatchHandle| #[trigger] indexed(fin, x) == indexed(old_nodes, x)
                    &&& forall|x: WatchHandle|
                        #[trigger] indexed(fin, x) && x != wd ==> node_of(fin, x) == node_of(old_nodes, x)
                    &&& match record {
                        Some(k) => child_pairs(node_of(fin, wd)) == set_pair(
                            child_pairs(node_of(old_nodes, wd)),
                            name@,
                            k,
                        ) && r is None,
                        None => fin == old_nodes && (r is Some <==> (kind == EntryKind::Directory && !ignores(
                            *cfg,
                            w,
                            name@,
                        ))),
                    }
                    &&& r matches Some(s) ==> s.released().len() == 0 && s.todo().len() == 1
                        && s.todo()[0].name@ == name@ && s.todo()[0].parent == Some(wd) && s.todo()[0].watch_dir
                        == w && s.todo()[0].path@ == full
                }
            }),
    {
        let ghost old_nodes = self.inner@;
        proof {
            crate::index::lemma_find_pos_pub(old_nodes, wd);
        }
        let target = self.create_target(cfg, wd, name);
        if target.is_none() {
            return None;
        }
        let p = self.find(wd).unwrap();
        let w = self.inner[p].watch_dir;
        match kind {
            EntryKind::File => {
                self.set_child(wd, String::from_str(name), ChildIndex::File);
                None
            },
            EntryKind::Directory => {
                if cfg.recurse(w) {
                    self.index_dir(cfg, w, name, Some(wd))
                } else {
                    self.set_child(wd, String::from_str(name), ChildIndex::Directory { descriptor: None });
                    None
                }
            },
            _ => None,
        }
    }

    /// Empties the index; returns every handle, whose watches are to be
    /// released.
    pub fn clear_index(&mut self) -> (r: Vec<WatchHandle>)
        ensures
            r@ == old(self).inner@.map_values(|d: DirectoryIndex| d.handle),
            final(self).inner@.len() == 0,
    {
        let mut r: Vec<WatchHandle> = Vec::new();
        let mut i: usize = 0;
        while i < self.inner.len()
            invariant
                i <= self.inner@.len(),
                r@ == self.inner@.subrange(0, i as int).map_values(|d: DirectoryIndex| d.handle),
            decreases self.inner@.len() - i,
        {
            r.push(self.inner[i].handle);
            i = i + 1;
            assert(r@ =~= self.inner@.subrange(0, i as int).map_values(|d: DirectoryIndex| d.handle));
        }
        assert(self.inner@.subrange(0, i as int) =~= self.inner@);
        self.inner = Vec::new();
        r
    }

    /// Clears the index and starts a scan of every configured root that is
    /// not left out, in configuration order. The handles of the cleared
    /// nodes come back, whose watches are to be released.
    pub fn full_index(&mut self, cfg: &Config) -> (r: (Vec<WatchHandle>, Scan))
        ensures
            r.0@ == old(self).inner@.map_values(|d: DirectoryIndex| d.handle),
            final(self).inner@.len() == 0,
            r.1.released().len() == 0,
            r.1.todo() == roots_todo(*cfg, cfg.directories@.len() as int),
    {
        let released = self.clear_index();
        let mut pending: Vec<PendingDir> = Vec::new();
        let n = cfg.directories.len();
        let mut i: usize = n;
        while i > 0
            invariant
                i <= n,
                n == cfg.directories@.len(),
                pending@ == roots_todo(*cfg, n as int).subrange(0, roots_todo(*cfg, n as int).len() - roots_todo(
                    *cfg,
                    i as int,
                ).len()),
                roots_todo(*cfg, i as int).len() <= roots_todo(*cfg, n as int).len(),
                roots_todo(*cfg, n as int) == pending@ + roots_todo(*cfg, i as int),
            decreases i,
        {
            let ghost before = pending@;
            let d = &cfg.directories[i - 1];
            if !cfg.is_ignored(i - 1, d.path.as_str()) {
                pending.push(PendingDir {
                    name: d.path.clone(),
                    path: d.path.clone(),
                    parent: None,
                    watch_dir: i - 1,
                });
                proof {
                    let item = PendingDir { name: d.path, path: d.path, parent: None, watch_dir: (i - 1) as usize };
                    assert(roots_todo(*cfg, i as int) == seq![item] + roots_todo(*cfg, i - 1));
                    assert(before + (seq![item] + roots_todo(*cfg, i - 1)) =~= pending@ + roots_todo(*cfg, i - 1));
                }
            }
            i = i - 1;
            proof {
                let whole = roots_todo(*cfg, n as int);
                assert(whole.subrange(0, whole.len() - roots_todo(*cfg, i as int).len()) =~= pending@);
            }
        }
        proof {
            assert(pending@ + Seq::<PendingDir>::empty() =~= pending@);
        }
        (released, Scan { pending, release: Vec::new() })
    }
}

/// Recording a created file gives a node the children that scanning its
/// directory afresh would give, the file listed last: when the node's
/// children are what a listing `es` records, and the file's name is not
/// left out, setting the file's child records what `es` with the file
/// appended records.
pub proof fn lemma_created_file_matches_rescan(
    cfg: Config,
    w: int,
    es: Seq<DirEntry>,
    before: Seq<(Seq<char>, ChildIndex)>,
    after: Seq<(Seq<char>, ChildIndex)>,
    file: DirEntry,
)
    requires
        before == listed_children(cfg, w, es),
        file.kind == EntryKind::File,
        !ignores(cfg, w, file.name@),
        after == set_pair(before, file.name@, ChildIndex::File),
    ensures
        after == listed_children(cfg, w, es.push(file)),
{
    assert(es.push(file).drop_last() =~= es);
}

} // verus!
