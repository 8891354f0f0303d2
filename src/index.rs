//! The live directory index: a list of directory nodes, each keyed by the
//! handle of the watch registered on it, holding its children by name and
//! the handle of its parent.

use vstd::prelude::*;
use crate::path::{join, join_components, views};
use crate::select::reversed;
use crate::text::{chars_of, same_chars};

verus! {

/// The handle of a directory watch.
pub type WatchHandle = i32;

/// What a child of an indexed directory is.
#[derive(Clone, Copy, Debug, PartialEq, Eq, Structural)]
pub enum ChildIndex {
    File,
    /// A directory; `descriptor` is the handle of its own node when it is
    /// indexed itself.
    Directory { descriptor: Option<WatchHandle> },
}

/// A child of a directory node, by name.
#[derive(Clone, Debug)]
pub struct Child {
    pub name: String,
    pub kind: ChildIndex,
}

/// A watched directory.
#[derive(Clone, Debug)]
pub struct DirectoryIndex {
    /// The handle of the watch on this directory.
    pub handle: WatchHandle,
    /// The directory's own name; for a configured root, its whole path.
    pub path: String,
    pub children: Vec<Child>,
    /// The position of the governing directory in the configuration.
    pub watch_dir: usize,
    /// The node of the directory above, absent for a configured root.
    pub parent: Option<WatchHandle>,
}

/// The main index.
pub struct Index {
    pub inner: Vec<DirectoryIndex>,
}

/// The first position of the node with handle `h`, or -1.
pub open spec fn find_pos(nodes: Seq<DirectoryIndex>, h: WatchHandle) -> int
    decreases nodes.len(),
{
    if nodes.len() == 0 {
        -1
    } else {
        let p = find_pos(nodes.drop_last(), h);
        if p >= 0 {
            p
        } else if nodes.last().handle == h {
            nodes.len() - 1
        } else {
            -1
        }
    }
}

pub open spec fn indexed(nodes: Seq<DirectoryIndex>, h: WatchHandle) -> bool {
    exists|i: int| 0 <= i < nodes.len() && nodes[i].handle == h
}

/// Child `j` of the node at position `i` is the indexed directory `y`.
pub open spec fn links(nodes: Seq<DirectoryIndex>, i: int, j: int, y: WatchHandle) -> bool {
    0 <= i < nodes.len() && 0 <= j < nodes[i].children@.len()
        && nodes[i].children@[j].kind == (ChildIndex::Directory { descriptor: Some(y) })
}

/// Node `x` lists node `y` as one of its subdirectories.
pub open spec fn edge(nodes: Seq<DirectoryIndex>, x: WatchHandle, y: WatchHandle) -> bool {
    exists|j: int| #[trigger] links(nodes, find_pos(nodes, x), j, y)
}

/// A set of handles that holds every indexed subdirectory of its members.
pub open spec fn closed(nodes: Seq<DirectoryIndex>, s: Set<WatchHandle>) -> bool {
    forall|x: WatchHandle, y: WatchHandle|
        #![trigger s.contains(x), edge(nodes, x, y)]
        s.contains(x) && edge(nodes, x, y) && indexed(nodes, y) ==> s.contains(y)
}

/// The names collected from `h` upwards along parent links, at most `fuel`.
pub open spec fn segs_up(nodes: Seq<DirectoryIndex>, h: WatchHandle, fuel: nat) -> Seq<Seq<char>>
    decreases fuel,
{
    if fuel == 0 {
        Seq::empty()
    } else {
        let p = find_pos(nodes, h);
        if p < 0 {
            Seq::empty()
        } else {
            let rest = match nodes[p].parent {
                Some(q) => segs_up(nodes, q, (fuel - 1) as nat),
                None => Seq::empty(),
            };
            seq![nodes[p].path@] + rest
        }
    }
}

/// The path of a node: the names from its root down, joined by `/`. A
/// handle that is not indexed ends the walk early.
pub open spec fn resolve(nodes: Seq<DirectoryIndex>, h: WatchHandle) -> Seq<char> {
    join(segs_up(nodes, h, nodes.len()).reverse())
}

proof fn lemma_find_pos(nodes: Seq<DirectoryIndex>, h: WatchHandle)
    ensures
        -1 <= find_pos(nodes, h) < nodes.len(),
        find_pos(nodes, h) >= 0 ==> nodes[find_pos(nodes, h)].handle == h,
        find_pos(nodes, h) >= 0 ==> forall|k: int| 0 <= k < find_pos(nodes, h) ==> nodes[k].handle != h,
        find_pos(nodes, h) < 0 ==> forall|k: int| 0 <= k < nodes.len() ==> nodes[k].handle != h,
        find_pos(nodes, h) >= 0 <==> indexed(nodes, h),
    decreases nodes.len(),
{
    if nodes.len() > 0 {
        lemma_find_pos(nodes.drop_last(), h);
        let p = find_pos(nodes, h);
        assert forall|k: int| 0 <= k < nodes.len() - 1 implies nodes[k] == nodes.drop_last()[k] by {}
        if indexed(nodes, h) {
            let i = choose|i: int| 0 <= i < nodes.len() && nodes[i].handle == h;
            if i < nodes.len() - 1 {
                assert(nodes.drop_last()[i].handle == h);
            }
        }
    }
}

impl Index {
    /// An empty index.
    pub fn new() -> (r: Index)
        ensures
            r.inner@ == Seq::<DirectoryIndex>::empty(),
            well_formed(r.inner@),
    {
        Index { inner: Vec::new() }
    }

    /// The position of the node with handle `h`.
    pub fn find(&self, h: WatchHandle) -> (r: Option<usize>)
        ensures
            match r {
                Some(i) => i == find_pos(self.inner@, h),
                None => find_pos(self.inner@, h) < 0,
            },
    {
        proof {
            lemma_find_pos(self.inner@, h);
        }
        let mut i: usize = 0;
        while i < self.inner.len()
            invariant
                i <= self.inner@.len(),
                forall|k: int| 0 <= k < i ==> self.inner@[k].handle != h,
                -1 <= find_pos(self.inner@, h) < self.inner@.len(),
                find_pos(self.inner@, h) >= 0 ==> self.inner@[find_pos(self.inner@, h)].handle == h,
                find_pos(self.inner@, h) >= 0 ==> forall|k: int|
                    0 <= k < find_pos(self.inner@, h) ==> self.inner@[k].handle != h,
                find_pos(self.inner@, h) < 0 ==> forall|k: int|
                    0 <= k < self.inner@.len() ==> self.inner@[k].handle != h,
            decreases self.inner@.len() - i,
        {
            if self.inner[i].handle == h {
                return Some(i);
            }
            i = i + 1;
        }
        None
    }

    /// The path of the node with handle `h`: the names from its root down,
    /// joined by `/`.
    pub fn get_path(&self, h: WatchHandle) -> (r: String)
        ensures
            r@ == resolve(self.inner@, h),
    {
        let ghost nodes = self.inner@;
        let n = self.inner.len();
        let mut names: Vec<String> = Vec::new();
        let mut cur: Option<WatchHandle> = Some(h);
        let mut fuel: usize = n;
        proof {
            lemma_find_pos(nodes, h);
        }
        loop
            invariant_except_break
                cur is Some,
                segs_up(nodes, h, n as nat) == views(names@) + segs_up(nodes, cur->0, fuel as nat),
            invariant
                nodes == self.inner@,
                n == nodes.len(),
                fuel <= n,
            ensures
                segs_up(nodes, h, n as nat) == views(names@),
            decreases fuel,
        {
            let c = cur.unwrap();
            if fuel == 0 {
                assert(views(names@) + Seq::<Seq<char>>::empty() =~= views(names@));
                break;
            }
            proof {
                lemma_find_pos(nodes, c);
            }
            match self.find(c) {
                None => {
                    assert(views(names@) + Seq::<Seq<char>>::empty() =~= views(names@));
                    break;
                },
                Some(p) => {
                    let ghost before = names@;
                    names.push(self.inner[p].path.clone());
                    proof {
                        assert(views(names@) =~= views(before).push(nodes[p as int].path@));
                    }
                    match self.inner[p].parent {
                        None => {
                            proof {
                                assert(segs_up(nodes, c, fuel as nat) == seq![nodes[p as int].path@]
                                    + Seq::<Seq<char>>::empty());
                                assert(views(before) + seq![nodes[p as int].path@] =~= views(names@));
                                assert(views(names@) + Seq::<Seq<char>>::empty() =~= views(names@));
                            }
                            break;
                        },
                        Some(q) => {
                            proof {
                                let rest = segs_up(nodes, q, (fuel - 1) as nat);
                                assert(segs_up(nodes, c, fuel as nat) == seq![nodes[p as int].path@] + rest);
                                assert(views(before) + (seq![nodes[p as int].path@] + rest) =~= views(names@)
                                    + rest);
                            }
                            cur = Some(q);
                            fuel = fuel - 1;
                        },
                    }
                },
            }
        }
        let ghost collected = names@;
        let rev = reversed(names);
        proof {
            assert(views(rev@) =~= views(collected).reverse());
            assert(views(rev@).subrange(0, rev@.len() as int) =~= views(rev@));
        }
        join_components(&rev, 0)
    }

    /// Every handle reachable from `h` through indexed subdirectories,
    /// `h` included; none when `h` is not indexed.
    pub fn traverse(&self, h: WatchHandle) -> (r: Vec<WatchHandle>)
        ensures
            r@.no_duplicates(),
            indexed(self.inner@, h) ==> r@.contains(h),
            !indexed(self.inner@, h) ==> r@.len() == 0,
            forall|x: WatchHandle| r@.contains(x) ==> indexed(self.inner@, x),
            closed(self.inner@, r@.to_set()),
            forall|s: Set<WatchHandle>|
                closed(self.inner@, s) && s.contains(h) ==> forall|x: WatchHandle|
                    r@.contains(x) ==> #[trigger] s.contains(x),
    {
        let ghost nodes = self.inner@;
        proof {
            lemma_find_pos(nodes, h);
        }
        if self.find(h).is_none() {
            return Vec::new();
        }
        let mut visited: Vec<WatchHandle> = vec![h];
        let mut queue: Vec<WatchHandle> = vec![h];
        let n = self.inner.len();
        proof {
            assert(visited@ =~= seq![h]);
            assert(queue@ =~= seq![h]);
            lemma_visited_bound(nodes, visited@);
        }
        while queue.len() > 0
            invariant
                nodes == self.inner@,
                n == nodes.len(),
                visited@.no_duplicates(),
                queue@.no_duplicates(),
                visited@.contains(h),
                forall|x: WatchHandle| visited@.contains(x) ==> indexed(nodes, x),
                forall|x: WatchHandle| queue@.contains(x) ==> visited@.contains(x),
                forall|x: WatchHandle, y: WatchHandle|
                    #![trigger visited@.contains(x), edge(nodes, x, y)]
                    visited@.contains(x) && !queue@.contains(x) && edge(nodes, x, y) && indexed(nodes, y)
                        ==> visited@.contains(y),
                forall|s: Set<WatchHandle>|
                    closed(nodes, s) && s.contains(h) ==> forall|x: WatchHandle|
                        visited@.contains(x) ==> #[trigger] s.contains(x),
                visited@.len() <= n,
            decreases n - visited@.len(), queue@.len(),
        {
            let ghost qb = queue@;
            let x = queue.pop().unwrap();
            let ghost q0 = queue@;
            proof {
                assert(qb =~= q0.push(x));
                assert(qb[q0.len() as int] == x);
                assert forall|z: WatchHandle| q0.contains(z) implies #[trigger] qb.contains(z) by {
                    let k = choose|k: int| 0 <= k < q0.len() && q0[k] == z;
                    assert(qb[k] == z);
                }
                assert forall|z: WatchHandle| #[trigger] qb.contains(z) && z != x implies q0.contains(z) by {
                    let k = choose|k: int| 0 <= k < qb.len() && qb[k] == z;
                    assert(q0[k] == z);
                }
                lemma_find_pos(nodes, x);
                assert(!q0.contains(x)) by {
                    if q0.contains(x) {
                        let k = choose|k: int| 0 <= k < q0.len() && q0[k] == x;
                        assert(qb[k] == qb[q0.len() as int]);
                    }
                }
            }
            let p = self.find(x).unwrap();
            let kids = &self.inner[p].children;
            let ghost v0 = visited@;
            let mut j: usize = 0;
            while j < kids.len()
                invariant
                    nodes == self.inner@,
                    n == nodes.len(),
                    p == find_pos(nodes, x),
                    0 <= p < nodes.len(),
                    kids@ == nodes[p as int].children@,
                    j <= kids@.len(),
                    visited@.no_duplicates(),
                    queue@.no_duplicates(),
                    !queue@.contains(x),
                    visited@.contains(x),
                    visited@.contains(h),
                    forall|z: WatchHandle| v0.contains(z) ==> visited@.contains(z),
                    forall|z: WatchHandle| visited@.contains(z) ==> indexed(nodes, z),
                    forall|z: WatchHandle| queue@.contains(z) ==> visited@.contains(z),
                    forall|z: WatchHandle| visited@.contains(z) && !v0.contains(z) ==> queue@.contains(z),
                    forall|z: WatchHandle, y: WatchHandle|
                        #![trigger v0.contains(z), edge(nodes, z, y)]
                        v0.contains(z) && z != x && !q0.contains(z) && edge(nodes, z, y) && indexed(nodes, y)
                            ==> visited@.contains(y),
                    forall|z: WatchHandle| q0.contains(z) ==> queue@.contains(z),
                    forall|jj: int, y: WatchHandle|
                        0 <= jj < j && #[trigger] links(nodes, p as int, jj, y) && indexed(nodes, y)
                            ==> visited@.contains(y),
                    forall|s: Set<WatchHandle>|
                        closed(nodes, s) && s.contains(h) ==> forall|z: WatchHandle|
                            visited@.contains(z) ==> #[trigger] s.contains(z),
                    visited@.len() <= n,
                    v0.len() <= visited@.len(),
                    queue@.len() - q0.len() == visited@.len() - v0.len(),
                decreases kids@.len() - j,
            {
                match kids[j].kind {
                    ChildIndex::Directory { descriptor: Some(y) } => {
                        proof {
                            assert(links(nodes, p as int, j as int, y));
                            assert(edge(nodes, x, y));
                            lemma_find_pos(nodes, y);
                        }
                        if !contains_handle(&visited, y) && self.find(y).is_some() {
                            let ghost vb = visited@;
                            let ghost qb = queue@;
                            visited.push(y);
                            queue.push(y);
                            proof {
                                assert forall|z: WatchHandle| #[trigger] visited@.contains(z) implies vb.contains(z) || z == y by {
                                    if visited@.contains(z) {
                                        let k = choose|k: int| 0 <= k < visited@.len() && visited@[k] == z;
                                        if k < vb.len() {
                                            assert(vb[k] == z);
                                        }
                                    }
                                }
                                assert forall|z: WatchHandle| #[trigger] queue@.contains(z) implies qb.contains(z) || z == y by {
                                    if queue@.contains(z) {
                                        let k = choose|k: int| 0 <= k < queue@.len() && queue@[k] == z;
                                        if k < qb.len() {
                                            assert(qb[k] == z);
                                        }
                                    }
                                }
                                assert forall|z: WatchHandle| vb.contains(z) implies #[trigger] visited@.contains(z) by {
                                    let k = choose|k: int| 0 <= k < vb.len() && vb[k] == z;
                                    assert(visited@[k] == z);
                                }
                                assert forall|z: WatchHandle| qb.contains(z) implies #[trigger] queue@.contains(z) by {
                                    let k = choose|k: int| 0 <= k < qb.len() && qb[k] == z;
                                    assert(queue@[k] == z);
                                }
                                assert(visited@[visited@.len() - 1] == y);
                                assert(queue@[queue@.len() - 1] == y);
                                assert(!qb.contains(y));
                                assert forall|s: Set<WatchHandle>|
                                    closed(nodes, s) && s.contains(h) implies forall|z: WatchHandle|
                                        visited@.contains(z) ==> #[trigger] s.contains(z) by {
                                    if closed(nodes, s) && s.contains(h) {
                                        assert(s.contains(x));
                                        assert(s.contains(y));
                                    }
                                }
                                lemma_visited_bound(nodes, visited@);
                            }
                        }
                    },
                    _ => {},
                }
                j = j + 1;
            }
            proof {
                assert forall|z: WatchHandle, y: WatchHandle|
                    #![trigger visited@.contains(z), edge(nodes, z, y)]
                    visited@.contains(z) && !queue@.contains(z) && edge(nodes, z, y) && indexed(nodes, y)
                        implies visited@.contains(y) by {
                    if z == x {
                        let jj = choose|jj: int| #[trigger] links(nodes, find_pos(nodes, x), jj, y);
                    } else if !v0.contains(z) {
                    } else if q0.contains(z) {
                    }
                }
            }
        }
        proof {
            assert forall|a: WatchHandle, b: WatchHandle|
                #![trigger visited@.to_set().contains(a), edge(nodes, a, b)]
                visited@.to_set().contains(a) && edge(nodes, a, b) && indexed(nodes, b)
                    implies visited@.to_set().contains(b) by {
                assert(visited@.contains(a));
            }
        }
        visited
    }
}

/// Whether `x` is among `v`.
fn contains_handle(v: &Vec<WatchHandle>, x: WatchHandle) -> (r: bool)
    ensures
        r == v@.contains(x),
{
    let mut i: usize = 0;
    while i < v.len()
        invariant
            i <= v@.len(),
            forall|k: int| 0 <= k < i ==> v@[k] != x,
        decreases v@.len() - i,
    {
        if v[i] == x {
            return true;
        }
        i = i + 1;
    }
    false
}

/// Distinct indexed handles are no more than the nodes.
proof fn lemma_visited_bound(nodes: Seq<DirectoryIndex>, v: Seq<WatchHandle>)
    requires
        v.no_duplicates(),
        forall|x: WatchHandle| v.contains(x) ==> indexed(nodes, x),
    ensures
        v.len() <= nodes.len(),
{
    let hs = nodes.map_values(|d: DirectoryIndex| d.handle);
    assert forall|x: WatchHandle| v.to_set().contains(x) implies hs.to_set().contains(x) by {
        assert(v.contains(x));
        let i = choose|i: int| 0 <= i < nodes.len() && nodes[i].handle == x;
        assert(hs[i] == x);
    }
    v.unique_seq_to_set();
    hs.lemma_cardinality_of_set();
    vstd::set_lib::lemma_len_subset(v.to_set(), hs.to_set());
}

/// Child `j` of the node with handle `x` is the indexed directory `y`.
pub open spec fn links_h(nodes: Seq<DirectoryIndex>, x: WatchHandle, j: int, y: WatchHandle) -> bool {
    links(nodes, find_pos(nodes, x), j, y)
}

/// The node with handle `h`.
pub open spec fn node_of(nodes: Seq<DirectoryIndex>, h: WatchHandle) -> DirectoryIndex {
    nodes[find_pos(nodes, h)]
}

pub open spec fn unique_handles(nodes: Seq<DirectoryIndex>) -> bool {
    forall|i: int, j: int| 0 <= i < j < nodes.len() ==> nodes[i].handle != nodes[j].handle
}

/// Every subdirectory handle recorded in a node is itself indexed.
pub open spec fn no_dangling(nodes: Seq<DirectoryIndex>) -> bool {
    forall|x: WatchHandle, j: int, y: WatchHandle|
        indexed(nodes, x) && #[trigger] links_h(nodes, x, j, y) ==> indexed(nodes, y)
}

/// A handle is recorded as a subdirectory in at most one place.
pub open spec fn single_parent(nodes: Seq<DirectoryIndex>) -> bool {
    forall|x1: WatchHandle, j1: int, x2: WatchHandle, j2: int, y: WatchHandle|
        indexed(nodes, x1) && indexed(nodes, x2) && #[trigger] links_h(nodes, x1, j1, y) && #[trigger] links_h(
            nodes,
            x2,
            j2,
            y,
        ) ==> x1 == x2 && j1 == j2
}

/// No two children of a node share a name.
pub open spec fn unique_names(d: DirectoryIndex) -> bool {
    forall|a: int, b: int|
        0 <= a < b < d.children@.len() ==> d.children@[a].name@ != d.children@[b].name@
}

/// The index is well formed.
pub open spec fn well_formed(nodes: Seq<DirectoryIndex>) -> bool {
    &&& unique_handles(nodes)
    &&& no_dangling(nodes)
    &&& single_parent(nodes)
    &&& forall|x: WatchHandle| indexed(nodes, x) ==> unique_names(#[trigger] node_of(nodes, x))
}

/// The position of the child named `name`.
pub fn find_child(children: &Vec<Child>, name: &str) -> (r: Option<usize>)
    ensures
        match r {
            Some(j) => j < children@.len() && children@[j as int].name@ == name@,
            None => forall|j: int| 0 <= j < children@.len() ==> children@[j].name@ != name@,
        },
{
    let target = chars_of(name);
    let mut j: usize = 0;
    while j < children.len()
        invariant
            target@ == name@,
            j <= children@.len(),
            forall|k: int| 0 <= k < j ==> children@[k].name@ != name@,
        decreases children@.len() - j,
    {
        if same_chars(&chars_of(children[j].name.as_str()), &target) {
            return Some(j);
        }
        j = j + 1;
    }
    None
}

proof fn lemma_unique_pos(nodes: Seq<DirectoryIndex>, i: int)
    requires
        unique_handles(nodes),
        0 <= i < nodes.len(),
    ensures
        find_pos(nodes, nodes[i].handle) == i,
{
    lemma_find_pos(nodes, nodes[i].handle);
}

impl Index {
    /// Drops the nodes whose handles are in `gone`, keeping the others in order.
    fn drop_nodes(&mut self, gone: &Vec<WatchHandle>)
        requires
            unique_handles(old(self).inner@),
        ensures
            unique_handles(final(self).inner@),
            forall|x: WatchHandle|
                indexed(final(self).inner@, x) == (indexed(old(self).inner@, x) && !gone@.contains(x)),
            forall|x: WatchHandle|
                #[trigger] indexed(final(self).inner@, x) ==> node_of(final(self).inner@, x) == node_of(
                    old(self).inner@,
                    x,
                ),
    {
        let ghost orig = self.inner@;
        let mut all: Vec<DirectoryIndex> = Vec::new();
        std::mem::swap(&mut all, &mut self.inner);
        let n = all.len();
        let mut rest = reversed(all);
        let mut i: usize = 0;
        assert(orig.subrange(0, n as int) =~= orig);
        while rest.len() > 0
            invariant
                n == orig.len(),
                i + rest@.len() == n,
                rest@ == orig.subrange(i as int, n as int).reverse(),
                unique_handles(orig),
                unique_handles(self.inner@),
                forall|x: WatchHandle|
                    indexed(self.inner@, x) == (exists|k: int|
                        0 <= k < i && orig[k].handle == x && !gone@.contains(x)),
                forall|x: WatchHandle|
                    #[trigger] indexed(self.inner@, x) ==> node_of(self.inner@, x) == node_of(orig, x),
            decreases rest@.len(),
        {
            let d = rest.pop().unwrap();
            proof {
                assert(d == orig[i as int]);
                assert(rest@ =~= orig.subrange(i + 1, n as int).reverse());
                lemma_unique_pos(orig, i as int);
            }
            if !contains_handle(gone, d.handle) {
                let ghost before = self.inner@;
                proof {
                    assert(!indexed(before, d.handle)) by {
                        if indexed(before, d.handle) {
                            let k = choose|k: int| 0 <= k < i && orig[k].handle == d.handle && !gone@.contains(d.handle);
                            assert(orig[k].handle == orig[i as int].handle);
                        }
                    }
                }
                self.inner.push(d);
                proof {
                    let now = self.inner@;
                    assert forall|a: int, b: int| 0 <= a < b < now.len() implies now[a].handle != now[b].handle by {
                        if b == now.len() - 1 {
                            assert(before[a].handle == now[a].handle);
                        } else {
                            assert(before[a] == now[a] && before[b] == now[b]);
                        }
                    }
                    assert forall|x: WatchHandle| indexed(now, x) == (exists|k: int|
                        0 <= k < i + 1 && orig[k].handle == x && !gone@.contains(x)) by {
                        if indexed(now, x) {
                            let q = choose|q: int| 0 <= q < now.len() && now[q].handle == x;
                            if q < before.len() {
                                assert(before[q].handle == x);
                                assert(indexed(before, x));
                            } else {
                                assert(orig[i as int].handle == x);
                                assert(0 <= i < i + 1 && orig[i as int].handle == x && !gone@.contains(x));
                            }
                        }
                        if exists|k: int| 0 <= k < i + 1 && orig[k].handle == x && !gone@.contains(x) {
                            let k = choose|k: int| 0 <= k < i + 1 && orig[k].handle == x && !gone@.contains(x);
                            if k < i {
                                assert(indexed(before, x));
                                let q = choose|q: int| 0 <= q < before.len() && before[q].handle == x;
                                assert(now[q].handle == x);
                            } else {
                                assert(now[now.len() - 1].handle == x);
                            }
                        }
                    }
                    assert forall|x: WatchHandle| #[trigger] indexed(now, x) implies node_of(now, x) == node_of(orig, x) by {
                        lemma_find_pos(now, x);
                        let q = find_pos(now, x);
                        lemma_unique_pos(now, q);
                        if q < before.len() {
                            assert(before[q] == now[q]);
                            lemma_unique_pos(before, q);
                            assert(indexed(before, x));
                        } else {
                            assert(now[q] == d);
                            assert(orig[i as int].handle == x);
                            lemma_unique_pos(orig, i as int);
                        }
                    }
                }
            } else {
                proof {
                    assert forall|x: WatchHandle| indexed(self.inner@, x) == (exists|k: int|
                        0 <= k < i + 1 && orig[k].handle == x && !gone@.contains(x)) by {
                        if exists|k: int| 0 <= k < i + 1 && orig[k].handle == x && !gone@.contains(x) {
                            let k = choose|k: int| 0 <= k < i + 1 && orig[k].handle == x && !gone@.contains(x);
                            assert(k < i);
                        }
                    }
                }
            }
            i = i + 1;
        }
    }
}

/// `r` holds exactly the handles reachable from `h`, once each.
pub open spec fn is_subtree(nodes: Seq<DirectoryIndex>, h: WatchHandle, r: Seq<WatchHandle>) -> bool {
    &&& r.no_duplicates()
    &&& r.contains(h)
    &&& forall|x: WatchHandle| r.contains(x) ==> indexed(nodes, x)
    &&& closed(nodes, r.to_set())
    &&& forall|s: Set<WatchHandle>|
        closed(nodes, s) && s.contains(h) ==> forall|x: WatchHandle| r.contains(x) ==> #[trigger] s.contains(x)
}

/// `mid` is `old` with child `j` of the node `wd` taken out.
pub open spec fn child_removed(old: Seq<DirectoryIndex>, mid: Seq<DirectoryIndex>, wd: WatchHandle, j: int) -> bool {
    let p = find_pos(old, wd);
    &&& 0 <= p < old.len()
    &&& mid.len() == old.len()
    &&& forall|i: int| 0 <= i < old.len() && i != p ==> mid[i] == old[i]
    &&& mid[p].handle == old[p].handle
    &&& mid[p].path == old[p].path
    &&& mid[p].parent == old[p].parent
    &&& mid[p].watch_dir == old[p].watch_dir
    &&& 0 <= j < old[p].children@.len()
    &&& mid[p].children@ == old[p].children@.remove(j)
}

proof fn lemma_child_removed(old: Seq<DirectoryIndex>, mid: Seq<DirectoryIndex>, wd: WatchHandle, j: int)
    requires
        unique_handles(old),
        child_removed(old, mid, wd, j),
    ensures
        unique_handles(mid),
        forall|x: WatchHandle| #[trigger] indexed(mid, x) == indexed(old, x),
        forall|x: WatchHandle| #[trigger] find_pos(mid, x) == find_pos(old, x),
        forall|x: WatchHandle, jj: int, y: WatchHandle|
            #[trigger] links_h(mid, x, jj, y) ==> links_h(old, x, if x == wd && jj >= j { jj + 1 } else { jj }, y),
        forall|x: WatchHandle, jj: int, y: WatchHandle|
            #[trigger] links_h(old, x, jj, y) && !(x == wd && jj == j) ==> edge(mid, x, y),
{
    let p = find_pos(old, wd);
    assert forall|i: int| 0 <= i < old.len() implies mid[i].handle == old[i].handle by {}
    assert forall|x: WatchHandle| #[trigger] indexed(mid, x) == indexed(old, x) by {
        if indexed(old, x) {
            let i = choose|i: int| 0 <= i < old.len() && old[i].handle == x;
            assert(mid[i].handle == x);
        }
        if indexed(mid, x) {
            let i = choose|i: int| 0 <= i < mid.len() && mid[i].handle == x;
            assert(old[i].handle == x);
        }
    }
    assert forall|x: WatchHandle| #[trigger] find_pos(mid, x) == find_pos(old, x) by {
        lemma_find_pos(old, x);
        lemma_find_pos(mid, x);
        if indexed(old, x) {
            let a = find_pos(old, x);
            let b = find_pos(mid, x);
            assert(old[b].handle == x);
            assert(mid[a].handle == x);
        }
    }
    assert forall|x: WatchHandle, jj: int, y: WatchHandle|
        #[trigger] links_h(mid, x, jj, y) implies links_h(old, x, if x == wd && jj >= j { jj + 1 } else { jj }, y) by {
        lemma_find_pos(old, x);
        if find_pos(old, x) == p {
            lemma_find_pos(old, wd);
            assert(x == wd);
        }
    }
    assert forall|x: WatchHandle, jj: int, y: WatchHandle|
        #[trigger] links_h(old, x, jj, y) && !(x == wd && jj == j) implies edge(mid, x, y) by {
        lemma_find_pos(old, x);
        lemma_find_pos(old, wd);
        if find_pos(old, x) == p {
            assert(x == wd);
            let k = if jj < j { jj } else { jj - 1 };
            assert(links_h(mid, x, k, y));
        } else {
            assert(links_h(mid, x, jj, y));
        }
    }
}

/// Removing a child and then every node of its subtree leaves no recorded
/// subdirectory unindexed.
proof fn lemma_removal_keeps_shape(
    old: Seq<DirectoryIndex>,
    mid: Seq<DirectoryIndex>,
    fin: Seq<DirectoryIndex>,
    wd: WatchHandle,
    j: int,
    h: WatchHandle,
    r: Seq<WatchHandle>,
)
    requires
        well_formed(old),
        child_removed(old, mid, wd, j),
        old[find_pos(old, wd)].children@[j].kind == (ChildIndex::Directory { descriptor: Some(h) }),
        is_subtree(mid, h, r),
        unique_handles(fin),
        forall|x: WatchHandle| #[trigger] indexed(fin, x) == (indexed(mid, x) && !r.contains(x)),
        forall|x: WatchHandle| #[trigger] indexed(fin, x) ==> node_of(fin, x) == node_of(mid, x),
    ensures
        well_formed(fin),
        is_subtree(old, h, r),
{
    lemma_child_removed(old, mid, wd, j);
    let p = find_pos(old, wd);
    assert(links_h(old, wd, j, h));
    // links of the final index are links of `mid`
    assert forall|x: WatchHandle, jj: int, y: WatchHandle|
        indexed(fin, x) && #[trigger] links_h(fin, x, jj, y) implies links_h(mid, x, jj, y) by {
        lemma_find_pos(fin, x);
        lemma_find_pos(mid, x);
    }
    // the subtree of `h` in `mid`: each member but `h` is linked from a member
    let s_star = Set::new(|u: WatchHandle| r.contains(u) && (u == h || exists|x: WatchHandle, jj: int|
        r.contains(x) && indexed(mid, x) && #[trigger] links_h(mid, x, jj, u)));
    assert(closed(mid, s_star)) by {
        assert forall|x: WatchHandle, y: WatchHandle|
            #![trigger s_star.contains(x), edge(mid, x, y)]
            s_star.contains(x) && edge(mid, x, y) && indexed(mid, y) implies s_star.contains(y) by {
            assert(r.to_set().contains(x));
            assert(r.to_set().contains(y));
            let jj = choose|jj: int| #[trigger] links(mid, find_pos(mid, x), jj, y);
            assert(links_h(mid, x, jj, y));
        }
    }
    assert(s_star.contains(h));
    assert forall|x: WatchHandle, jj: int, y: WatchHandle|
        indexed(fin, x) && #[trigger] links_h(fin, x, jj, y) implies indexed(fin, y) by {
        assert(links_h(mid, x, jj, y));
        let jo = if x == wd && jj >= j { jj + 1 } else { jj };
        assert(links_h(old, x, jo, y));
        assert(indexed(mid, x));
        assert(indexed(old, x));
        lemma_find_pos(old, wd);
        assert(indexed(old, wd));
        assert(indexed(old, y));
        if r.contains(y) {
            assert(s_star.contains(y));
            if y == h {
                assert(x == wd && jo == j);
            } else {
                let (x2, j2) = choose|x2: WatchHandle, j2: int|
                    r.contains(x2) && indexed(mid, x2) && #[trigger] links_h(mid, x2, j2, y);
                let jo2 = if x2 == wd && j2 >= j { j2 + 1 } else { j2 };
                assert(links_h(old, x2, jo2, y));
                assert(indexed(old, x2));
                assert(x == x2);
            }
        }
    }
    assert forall|x1: WatchHandle, j1: int, x2: WatchHandle, j2: int, y: WatchHandle|
        indexed(fin, x1) && indexed(fin, x2) && #[trigger] links_h(fin, x1, j1, y) && #[trigger] links_h(
            fin,
            x2,
            j2,
            y,
        ) implies x1 == x2 && j1 == j2 by {
        assert(links_h(mid, x1, j1, y));
        assert(links_h(mid, x2, j2, y));
        let o1 = if x1 == wd && j1 >= j { j1 + 1 } else { j1 };
        let o2 = if x2 == wd && j2 >= j { j2 + 1 } else { j2 };
        assert(links_h(old, x1, o1, y));
        assert(links_h(old, x2, o2, y));
    }
    assert forall|x: WatchHandle| indexed(fin, x) implies unique_names(#[trigger] node_of(fin, x)) by {
        assert(node_of(fin, x) == node_of(mid, x));
        lemma_find_pos(old, x);
        if x == wd {
            let a = old[p].children@;
            let b = mid[p].children@;
            assert(unique_names(old[p]));
            assert forall|u: int, v: int| 0 <= u < v < b.len() implies b[u].name@ != b[v].name@ by {
                let uu = if u >= j { u + 1 } else { u };
                let vv = if v >= j { v + 1 } else { v };
                assert(b[u] == a[uu] && b[v] == a[vv]);
            }
        } else {
            lemma_find_pos(old, wd);
            assert(indexed(mid, x));
            assert(find_pos(old, x) != p);
            assert(node_of(mid, x) == node_of(old, x));
        }
    }
    // the subtree is the same whether or not the link to `h` is counted
    assert(closed(old, r.to_set())) by {
        assert forall|x: WatchHandle, y: WatchHandle|
            #![trigger r.to_set().contains(x), edge(old, x, y)]
            r.to_set().contains(x) && edge(old, x, y) && indexed(old, y) implies r.to_set().contains(y) by {
            let jj = choose|jj: int| #[trigger] links(old, find_pos(old, x), jj, y);
            assert(links_h(old, x, jj, y));
            if x == wd && jj == j {
                assert(y == h);
            } else {
                assert(edge(mid, x, y));
            }
        }
    }
    assert forall|s: Set<WatchHandle>|
        closed(old, s) && s.contains(h) implies forall|x: WatchHandle| r.contains(x) ==> #[trigger] s.contains(x) by {
        if closed(old, s) && s.contains(h) {
            assert(closed(mid, s)) by {
                assert forall|x: WatchHandle, y: WatchHandle|
                    #![trigger s.contains(x), edge(mid, x, y)]
                    s.contains(x) && edge(mid, x, y) && indexed(mid, y) implies s.contains(y) by {
                    let jj = choose|jj: int| #[trigger] links(mid, find_pos(mid, x), jj, y);
                    assert(links_h(mid, x, jj, y));
                    let jo = if x == wd && jj >= j { jj + 1 } else { jj };
                    assert(links_h(old, x, jo, y));
                    assert(edge(old, x, y));
                }
            }
        }
    }
}

/// Taking out a child that is no indexed subdirectory keeps the index well formed.
proof fn lemma_plain_removal(old: Seq<DirectoryIndex>, mid: Seq<DirectoryIndex>, wd: WatchHandle, j: int)
    requires
        well_formed(old),
        child_removed(old, mid, wd, j),
    ensures
        well_formed(mid),
{
    lemma_child_removed(old, mid, wd, j);
    let p = find_pos(old, wd);
    lemma_find_pos(old, wd);
    assert forall|x1: WatchHandle, j1: int, x2: WatchHandle, j2: int, y: WatchHandle|
        indexed(mid, x1) && indexed(mid, x2) && #[trigger] links_h(mid, x1, j1, y) && #[trigger] links_h(
            mid,
            x2,
            j2,
            y,
        ) implies x1 == x2 && j1 == j2 by {
        let o1 = if x1 == wd && j1 >= j { j1 + 1 } else { j1 };
        let o2 = if x2 == wd && j2 >= j { j2 + 1 } else { j2 };
        assert(links_h(old, x1, o1, y));
        assert(links_h(old, x2, o2, y));
    }
    assert forall|x: WatchHandle, jj: int, y: WatchHandle|
        indexed(mid, x) && #[trigger] links_h(mid, x, jj, y) implies indexed(mid, y) by {
        let jo = if x == wd && jj >= j { jj + 1 } else { jj };
        assert(links_h(old, x, jo, y));
    }
    assert forall|x: WatchHandle| indexed(mid, x) implies unique_names(#[trigger] node_of(mid, x)) by {
        lemma_find_pos(old, x);
        if x == wd {
            let a = old[p].children@;
            let b = mid[p].children@;
            assert(unique_names(old[p]));
            assert forall|u: int, v: int| 0 <= u < v < b.len() implies b[u].name@ != b[v].name@ by {
                let uu = if u >= j { u + 1 } else { u };
                let vv = if v >= j { v + 1 } else { v };
                assert(b[u] == a[uu] && b[v] == a[vv]);
            }
        } else {
            assert(find_pos(old, x) != p);
            assert(node_of(mid, x) == node_of(old, x));
        }
    }
}

/// Child `j` of node `wd` is named `name`.
pub open spec fn named(nodes: Seq<DirectoryIndex>, wd: WatchHandle, name: Seq<char>, j: int) -> bool {
    indexed(nodes, wd) && 0 <= j < node_of(nodes, wd).children@.len() && node_of(nodes, wd).children@[j].name@
        == name
}

/// What removing the child `name` of node `wd` did: the child is gone from
/// `wd`, and when it was an indexed directory, its whole subtree `r` is gone
/// from the index; every other node is unchanged. Without such a child
/// nothing changes.
pub open spec fn removal(
    old: Seq<DirectoryIndex>,
    fin: Seq<DirectoryIndex>,
    wd: WatchHandle,
    name: Seq<char>,
    r: Seq<WatchHandle>,
) -> bool {
    &&& (forall|j: int| !named(old, wd, name, j)) ==> fin == old && r.len() == 0
    &&& forall|j: int|
        #[trigger] named(old, wd, name, j) ==> {
            &&& match node_of(old, wd).children@[j].kind {
                ChildIndex::Directory { descriptor: Some(h) } => is_subtree(old, h, r),
                _ => r.len() == 0,
            }
            &&& forall|x: WatchHandle| #[trigger] indexed(fin, x) == (indexed(old, x) && !r.contains(x))
            &&& forall|x: WatchHandle|
                #[trigger] indexed(fin, x) && x != wd ==> node_of(fin, x) == node_of(old, x)
            &&& indexed(fin, wd) ==> {
                &&& node_of(fin, wd).children@ == node_of(old, wd).children@.remove(j)
                &&& node_of(fin, wd).path == node_of(old, wd).path
                &&& node_of(fin, wd).parent == node_of(old, wd).parent
                &&& node_of(fin, wd).watch_dir == node_of(old, wd).watch_dir
            }
        }
}

impl Index {
    /// Removes the child `name` of node `wd`; when it is an indexed
    /// directory, every node of its subtree goes too. Returns the handles
    /// whose watches are to be released.
    pub fn remove_index(&mut self, wd: WatchHandle, name: &str) -> (r: Vec<WatchHandle>)
        requires
            well_formed(old(self).inner@),
        ensures
            well_formed(final(self).inner@),
            removal(old(self).inner@, final(self).inner@, wd, name@, r@),
    {
        let ghost old_nodes = self.inner@;
        proof {
            lemma_find_pos(old_nodes, wd);
        }
        let p = match self.find(wd) {
            Some(p) => p,
            None => {
                return Vec::new();
            },
        };
        let j = match find_child(&self.inner[p].children, name) {
            Some(j) => j,
            None => {
                proof {
                    assert forall|jj: int| !named(old_nodes, wd, name@, jj) by {}
                }
                return Vec::new();
            },
        };
        proof {
            assert(named(old_nodes, wd, name@, j as int));
            assert forall|jj: int| #[trigger] named(old_nodes, wd, name@, jj) implies jj == j by {
                assert(unique_names(node_of(old_nodes, wd)));
            }
        }
        let mut node = self.inner.remove(p);
        let child = node.children.remove(j);
        self.inner.insert(p, node);
        let ghost mid = self.inner@;
        proof {
            assert(child_removed(old_nodes, mid, wd, j as int));
            lemma_child_removed(old_nodes, mid, wd, j as int);
        }
        match child.kind {
            ChildIndex::Directory { descriptor: Some(h) } => {
                let gone = self.traverse(h);
                proof {
                    lemma_plain_removal(old_nodes, mid, wd, j as int);
                    lemma_find_pos(mid, h);
                    assert(links_h(old_nodes, wd, j as int, h));
                    assert(indexed(mid, h));
                }
                self.drop_nodes(&gone);
                proof {
                    lemma_removal_keeps_shape(old_nodes, mid, self.inner@, wd, j as int, h, gone@);
                    let fin = self.inner@;
                    if indexed(fin, wd) {
                        lemma_find_pos(mid, wd);
                    }
                    assert forall|x: WatchHandle| #[trigger] indexed(fin, x) && x != wd implies node_of(fin, x)
                        == node_of(old_nodes, x) by {
                        lemma_find_pos(old_nodes, x);
                        assert(indexed(mid, x));
                        assert(find_pos(old_nodes, x) != p as int);
                    }
                }
                gone
            },
            _ => {
                proof {
                    lemma_plain_removal(old_nodes, mid, wd, j as int);
                    assert forall|x: WatchHandle| #[trigger] indexed(mid, x) && x != wd implies node_of(mid, x)
                        == node_of(old_nodes, x) by {
                        lemma_find_pos(old_nodes, x);
                        assert(find_pos(old_nodes, x) != p as int);
                    }
                }
                Vec::new()
            },
        }
    }
}

/// Some child of some node is the indexed directory `y`.
pub open spec fn linked(nodes: Seq<DirectoryIndex>, y: WatchHandle) -> bool {
    exists|x: WatchHandle, j: int| indexed(nodes, x) && #[trigger] links_h(nodes, x, j, y)
}

/// The children of `d` after `name` is set to `kind`: an existing child of
/// that name is replaced in place, else the child is appended.
pub open spec fn children_after(d: DirectoryIndex, name: Seq<char>, kind: ChildIndex) -> Seq<(Seq<char>, ChildIndex)> {
    let cs = d.children@.map_values(|c: Child| (c.name@, c.kind));
    if exists|j: int| 0 <= j < cs.len() && cs[j].0 == name {
        cs.update(choose|j: int| 0 <= j < cs.len() && cs[j].0 == name, (name, kind))
    } else {
        cs.push((name, kind))
    }
}

pub open spec fn child_pairs(d: DirectoryIndex) -> Seq<(Seq<char>, ChildIndex)> {
    d.children@.map_values(|c: Child| (c.name@, c.kind))
}

/// A kind that may be recorded in a node of `nodes` without breaking its shape.
pub open spec fn recordable(nodes: Seq<DirectoryIndex>, kind: ChildIndex) -> bool {
    match kind {
        ChildIndex::Directory { descriptor: Some(y) } => indexed(nodes, y) && !linked(nodes, y),
        _ => true,
    }
}

impl Index {
    /// Records the child `name` of node `wd` as `kind`, replacing a child
    /// of the same name. Nothing changes when `wd` is not indexed.
    pub fn set_child(&mut self, wd: WatchHandle, name: String, kind: ChildIndex)
        requires
            well_formed(old(self).inner@),
            recordable(old(self).inner@, kind),
        ensures
            well_formed(final(self).inner@),
            forall|x: WatchHandle| #[trigger] indexed(final(self).inner@, x) == indexed(old(self).inner@, x),
            forall|x: WatchHandle|
                #[trigger] indexed(final(self).inner@, x) && x != wd ==> node_of(final(self).inner@, x) == node_of(
                    old(self).inner@,
                    x,
                ),
            indexed(old(self).inner@, wd) ==> {
                let a = node_of(old(self).inner@, wd);
                let b = node_of(final(self).inner@, wd);
                &&& child_pairs(b) == children_after(a, name@, kind)
                &&& b.path == a.path && b.parent == a.parent && b.watch_dir == a.watch_dir
            },
            !indexed(old(self).inner@, wd) ==> final(self).inner@ == old(self).inner@,
    {
        let ghost old_nodes = self.inner@;
        proof {
            lemma_find_pos(old_nodes, wd);
        }
        let p = match self.find(wd) {
            Some(p) => p,
            None => {
                return;
            },
        };
        let ghost a = old_nodes[p as int];
        let mut node = self.inner.remove(p);
        let at = find_child(&node.children, name.as_str());
        let ghost nm = name@;
        match at {
            Some(j) => {
                node.children.remove(j);
                node.children.insert(j, Child { name, kind });
            },
            None => {
                node.children.push(Child { name, kind });
            },
        }
        self.inner.insert(p, node);
        proof {
            let fin = self.inner@;
            let b = fin[p as int];
            assert forall|i: int| 0 <= i < fin.len() && i != p implies fin[i] == old_nodes[i] by {}
            assert forall|i: int| 0 <= i < fin.len() implies fin[i].handle == old_nodes[i].handle by {}
            assert(unique_handles(fin));
            assert forall|x: WatchHandle| #[trigger] indexed(fin, x) == indexed(old_nodes, x) by {
                if indexed(old_nodes, x) {
                    let i = choose|i: int| 0 <= i < old_nodes.len() && old_nodes[i].handle == x;
                    assert(fin[i].handle == x);
                }
                if indexed(fin, x) {
                    let i = choose|i: int| 0 <= i < fin.len() && fin[i].handle == x;
                    assert(old_nodes[i].handle == x);
                }
            }
            assert forall|x: WatchHandle| #[trigger] find_pos(fin, x) == find_pos(old_nodes, x) by {
                lemma_find_pos(old_nodes, x);
                lemma_find_pos(fin, x);
                if indexed(old_nodes, x) {
                    let u = find_pos(old_nodes, x);
                    let v = find_pos(fin, x);
                    assert(old_nodes[v].handle == x);
                    assert(fin[u].handle == x);
                }
            }
            // where the new child stands
            let jn: int = match at {
                Some(j) => j as int,
                None => a.children@.len() as int,
            };
            assert(0 <= jn < b.children@.len());
            assert(b.children@[jn].kind == kind);
            assert(b.children@[jn].name@ == nm);
            assert(b.children@.len() == a.children@.len() || (at is None && b.children@.len()
                == a.children@.len() + 1));
            assert forall|jj: int| 0 <= jj < b.children@.len() && jj != jn implies b.children@[jj] == a.children@[jj] by {}
            assert(child_pairs(b) =~= children_after(a, nm, kind)) by {
                let cs = child_pairs(a);
                match at {
                    Some(j) => {
                        assert(cs[j as int].0 == nm);
                        let c = choose|q: int| 0 <= q < cs.len() && cs[q].0 == nm;
                        assert(unique_names(node_of(old_nodes, wd)));
                        assert(c == j);
                    },
                    None => {
                        assert(!(exists|q: int| 0 <= q < cs.len() && cs[q].0 == nm));
                    },
                }
            }
            assert forall|x: WatchHandle, jj: int, y: WatchHandle| #[trigger] links_h(fin, x, jj, y) && !(x == wd
                && jj == jn) implies links_h(old_nodes, x, jj, y) by {
                lemma_find_pos(old_nodes, x);
                if find_pos(old_nodes, x) == p as int {
                    assert(x == wd);
                }
            }
            assert forall|x: WatchHandle, jj: int, y: WatchHandle|
                indexed(fin, x) && #[trigger] links_h(fin, x, jj, y) implies indexed(fin, y) by {
                if x == wd && jj == jn {
                } else {
                    assert(links_h(old_nodes, x, jj, y));
                }
            }
            assert forall|x1: WatchHandle, j1: int, x2: WatchHandle, j2: int, y: WatchHandle|
                indexed(fin, x1) && indexed(fin, x2) && #[trigger] links_h(fin, x1, j1, y) && #[trigger] links_h(
                    fin,
                    x2,
                    j2,
                    y,
                ) implies x1 == x2 && j1 == j2 by {
                let n1 = x1 == wd && j1 == jn;
                let n2 = x2 == wd && j2 == jn;
                if n1 && !n2 {
                    assert(links_h(old_nodes, x2, j2, y));
                    assert(linked(old_nodes, y));
                } else if n2 && !n1 {
                    assert(links_h(old_nodes, x1, j1, y));
                    assert(linked(old_nodes, y));
                } else if !n1 && !n2 {
                    assert(links_h(old_nodes, x1, j1, y));
                    assert(links_h(old_nodes, x2, j2, y));
                }
            }
            assert forall|x: WatchHandle| indexed(fin, x) implies unique_names(#[trigger] node_of(fin, x)) by {
                lemma_find_pos(old_nodes, x);
                if x == wd {
                    assert(unique_names(node_of(old_nodes, wd)));
                    assert forall|u: int, v: int| 0 <= u < v < b.children@.len() implies b.children@[u].name@
                        != b.children@[v].name@ by {
                        if u == jn {
                            assert(b.children@[v] == a.children@[v]);
                        } else if v == jn {
                            assert(b.children@[u] == a.children@[u]);
                        } else {
                            assert(b.children@[u] == a.children@[u] && b.children@[v] == a.children@[v]);
                        }
                    }
                } else {
                    assert(find_pos(old_nodes, x) != p as int);
                    assert(node_of(fin, x) == node_of(old_nodes, x));
                }
            }
            assert forall|x: WatchHandle| #[trigger] indexed(fin, x) && x != wd implies node_of(fin, x)
                == node_of(old_nodes, x) by {
                lemma_find_pos(old_nodes, x);
                assert(find_pos(old_nodes, x) != p as int);
            }
        }
    }
}

impl Index {
    /// Adds a node without children for a newly watched directory.
    pub fn add_node(&mut self, handle: WatchHandle, path: String, parent: Option<WatchHandle>, watch_dir: usize)
        requires
            well_formed(old(self).inner@),
            !indexed(old(self).inner@, handle),
        ensures
            well_formed(final(self).inner@),
            forall|x: WatchHandle|
                #[trigger] indexed(final(self).inner@, x) == (indexed(old(self).inner@, x) || x == handle),
            forall|x: WatchHandle|
                #[trigger] indexed(old(self).inner@, x) ==> node_of(final(self).inner@, x) == node_of(
                    old(self).inner@,
                    x,
                ),
            node_of(final(self).inner@, handle).path == path,
            node_of(final(self).inner@, handle).parent == parent,
            node_of(final(self).inner@, handle).watch_dir == watch_dir,
            node_of(final(self).inner@, handle).children@.len() == 0,
            !linked(final(self).inner@, handle),
    {
        let ghost old_nodes = self.inner@;
        self.inner.push(DirectoryIndex { handle, path, children: Vec::new(), watch_dir, parent });
        proof {
            let fin = self.inner@;
            let n = old_nodes.len() as int;
            assert forall|i: int| 0 <= i < n implies fin[i] == old_nodes[i] by {}
            assert forall|a: int, b: int| 0 <= a < b < fin.len() implies fin[a].handle != fin[b].handle by {
                if b == n {
                    assert(old_nodes[a].handle != handle);
                }
            }
            assert forall|x: WatchHandle| #[trigger] find_pos(fin, x) == (if x == handle { n } else { find_pos(old_nodes, x) }) by {
                lemma_find_pos(old_nodes, x);
                lemma_find_pos(fin, x);
                assert(fin[n].handle == handle);
                if x != handle && indexed(old_nodes, x) {
                    let u = find_pos(old_nodes, x);
                    let v = find_pos(fin, x);
                    assert(fin[u].handle == x);
                    if v < n {
                        assert(old_nodes[v].handle == x);
                    }
                }
                if x == handle {
                    lemma_unique_pos(fin, n);
                }
                if x != handle && !indexed(old_nodes, x) {
                    if indexed(fin, x) {
                        let i = choose|i: int| 0 <= i < fin.len() && fin[i].handle == x;
                        assert(old_nodes[i].handle == x);
                    }
                }
            }
            assert forall|x: WatchHandle| #[trigger] indexed(fin, x) == (indexed(old_nodes, x) || x == handle) by {
                lemma_find_pos(old_nodes, x);
                lemma_find_pos(fin, x);
            }
            assert forall|x: WatchHandle, jj: int, y: WatchHandle|
                #[trigger] links_h(fin, x, jj, y) implies x != handle && links_h(old_nodes, x, jj, y) by {
                lemma_find_pos(old_nodes, x);
            }
            assert forall|x: WatchHandle, jj: int, y: WatchHandle|
                indexed(fin, x) && #[trigger] links_h(fin, x, jj, y) implies indexed(fin, y) by {
                assert(links_h(old_nodes, x, jj, y));
                assert(indexed(old_nodes, x));
            }
            assert forall|x1: WatchHandle, j1: int, x2: WatchHandle, j2: int, y: WatchHandle|
                indexed(fin, x1) && indexed(fin, x2) && #[trigger] links_h(fin, x1, j1, y) && #[trigger] links_h(
                    fin,
                    x2,
                    j2,
                    y,
                ) implies x1 == x2 && j1 == j2 by {
                assert(links_h(old_nodes, x1, j1, y));
                assert(links_h(old_nodes, x2, j2, y));
                assert(indexed(old_nodes, x1) && indexed(old_nodes, x2));
            }
            assert forall|x: WatchHandle| indexed(fin, x) implies unique_names(#[trigger] node_of(fin, x)) by {
                lemma_find_pos(old_nodes, x);
                if x != handle {
                    assert(node_of(fin, x) == node_of(old_nodes, x));
                }
            }
            assert forall|x: WatchHandle| #[trigger] indexed(old_nodes, x) implies node_of(fin, x) == node_of(old_nodes, x) by {
                lemma_find_pos(old_nodes, x);
                assert(x != handle);
            }
            assert(!linked(fin, handle)) by {
                if linked(fin, handle) {
                    let (x, jj) = choose|x: WatchHandle, jj: int| indexed(fin, x) && #[trigger] links_h(fin, x, jj, handle);
                    assert(links_h(old_nodes, x, jj, handle));
                    assert(indexed(old_nodes, x));
                }
            }
        }
    }
}

/// Where `find_pos` stands, for use outside this module.
pub proof fn lemma_find_pos_pub(nodes: Seq<DirectoryIndex>, h: WatchHandle)
    ensures
        -1 <= find_pos(nodes, h) < nodes.len(),
        find_pos(nodes, h) >= 0 ==> nodes[find_pos(nodes, h)].handle == h,
        find_pos(nodes, h) >= 0 <==> indexed(nodes, h),
{
    lemma_find_pos(nodes, h);
}

/// The watches that a removal releases are exactly those of the nodes that
/// left the index.
pub proof fn lemma_released_are_removed(
    old: Seq<DirectoryIndex>,
    fin: Seq<DirectoryIndex>,
    wd: WatchHandle,
    name: Seq<char>,
    r: Seq<WatchHandle>,
)
    requires
        removal(old, fin, wd, name, r),
    ensures
        forall|x: WatchHandle| r.contains(x) <==> (indexed(old, x) && !indexed(fin, x)),
{
    if exists|j: int| named(old, wd, name, j) {
        let j = choose|j: int| named(old, wd, name, j);
        assert(named(old, wd, name, j));
        assert forall|x: WatchHandle| r.contains(x) <==> (indexed(old, x) && !indexed(fin, x)) by {
            assert(indexed(fin, x) == (indexed(old, x) && !r.contains(x)));
            match node_of(old, wd).children@[j].kind {
                ChildIndex::Directory { descriptor: Some(h) } => {},
                _ => {
                    if r.contains(x) {
                        let k = choose|k: int| 0 <= k < r.len() && r[k] == x;
                    }
                },
            }
        }
    } else {
        assert forall|x: WatchHandle| r.contains(x) <==> (indexed(old, x) && !indexed(fin, x)) by {
            if r.contains(x) {
                let k = choose|k: int| 0 <= k < r.len() && r[k] == x;
            }
        }
    }
}

/// The path of a node is the path of its parent, a `/`, and its own name,
/// when the walk up from the parent ends within the index.
pub proof fn lemma_path_extends_parent(nodes: Seq<DirectoryIndex>, h: WatchHandle, p: WatchHandle)
    requires
        indexed(nodes, h),
        node_of(nodes, h).parent == Some(p),
        indexed(nodes, p),
        segs_up(nodes, p, (nodes.len() - 1) as nat) == segs_up(nodes, p, nodes.len()),
    ensures
        resolve(nodes, h) == resolve(nodes, p) + seq!['/'] + node_of(nodes, h).path@,
{
    lemma_find_pos(nodes, h);
    lemma_find_pos(nodes, p);
    let n = nodes.len();
    let up = segs_up(nodes, p, n);
    let a = node_of(nodes, h).path@;
    assert(segs_up(nodes, h, n) == seq![a] + segs_up(nodes, p, (n - 1) as nat));
    assert(up.len() > 0);
    let whole = (seq![a] + up).reverse();
    assert(whole =~= up.reverse().push(a));
    assert(whole.drop_last() =~= up.reverse());
    assert(whole.len() > 1);
}

/// After a removal, no handle of the removed subtree is indexed; events that
/// still name such a handle find nothing to change.
pub proof fn lemma_removed_subtree_stays_out(
    old: Seq<DirectoryIndex>,
    fin: Seq<DirectoryIndex>,
    wd: WatchHandle,
    name: Seq<char>,
    r: Seq<WatchHandle>,
    x: WatchHandle,
)
    requires
        removal(old, fin, wd, name, r),
        r.contains(x),
    ensures
        !indexed(fin, x),
{
    lemma_released_are_removed(old, fin, wd, name, r);
}

} // verus!
