//! Paths as sequences of components, in the way the index and the scorer
//! read them: a leading `/` is the root component, empty and `.` segments
//! are dropped, and every other segment between separators is a component.

use vstd::prelude::*;
use vstd::string::*;
use crate::text::chars_of;

verus! {

/// The text between separators, in order; a path without `/` is one segment.
pub open spec fn segments(p: Seq<char>) -> Seq<Seq<char>>
    decreases p.len(),
{
    if p.len() == 0 {
        seq![Seq::empty()]
    } else {
        let s = segments(p.drop_last());
        if p.last() == '/' {
            s.push(Seq::empty())
        } else {
            s.update(s.len() - 1, s.last().push(p.last()))
        }
    }
}

/// A segment that names something: neither empty nor `.`.
pub open spec fn names_something(seg: Seq<char>) -> bool {
    seg.len() > 0 && seg != seq!['.']
}

/// The segments that name something, in order.
pub open spec fn kept(ss: Seq<Seq<char>>) -> Seq<Seq<char>>
    decreases ss.len(),
{
    if ss.len() == 0 {
        Seq::empty()
    } else if names_something(ss.last()) {
        kept(ss.drop_last()).push(ss.last())
    } else {
        kept(ss.drop_last())
    }
}

pub open spec fn is_absolute(p: Seq<char>) -> bool {
    p.len() > 0 && p[0] == '/'
}

pub open spec fn root_part(p: Seq<char>) -> Seq<Seq<char>> {
    if is_absolute(p) {
        seq![seq!['/']]
    } else {
        Seq::empty()
    }
}

/// The components of a path.
pub open spec fn components(p: Seq<char>) -> Seq<Seq<char>> {
    root_part(p) + kept(segments(p))
}

/// A component that is an ordinary name (not the root, not `..`).
pub open spec fn is_normal(c: Seq<char>) -> bool {
    c != seq!['/'] && c != seq!['.', '.']
}

/// The last component when it is an ordinary name, else empty.
pub open spec fn last_name(c: Seq<Seq<char>>) -> Seq<char> {
    if c.len() > 0 && is_normal(c.last()) {
        c.last()
    } else {
        Seq::empty()
    }
}

/// The component right above the last one, when both are ordinary names,
/// else empty.
pub open spec fn above_name(c: Seq<Seq<char>>) -> Seq<char> {
    if c.len() >= 2 && is_normal(c.last()) && is_normal(c[c.len() - 2]) {
        c[c.len() - 2]
    } else {
        Seq::empty()
    }
}

/// The components above the last one, deepest first.
pub open spec fn dirs_of(c: Seq<Seq<char>>) -> Seq<Seq<char>> {
    if c.len() == 0 {
        Seq::empty()
    } else {
        c.drop_last().reverse()
    }
}

/// The basename of a path: its last component when that is a name.
pub open spec fn basename(p: Seq<char>) -> Seq<char> {
    last_name(components(p))
}

/// The name of the directory right above the basename, else empty.
pub open spec fn parent_name(p: Seq<char>) -> Seq<char> {
    above_name(components(p))
}

/// The components above the basename, deepest first.
pub open spec fn dirs_deepest_first(p: Seq<char>) -> Seq<Seq<char>> {
    dirs_of(components(p))
}

/// Components joined by `/`.
pub open spec fn join(cs: Seq<Seq<char>>) -> Seq<char>
    decreases cs.len(),
{
    if cs.len() == 0 {
        Seq::empty()
    } else if cs.len() == 1 {
        cs[0]
    } else {
        join(cs.drop_last()) + seq!['/'] + cs.last()
    }
}

/// The text of a path made of these components.
pub open spec fn render(cs: Seq<Seq<char>>) -> Seq<char> {
    if cs.len() > 0 && cs[0] == seq!['/'] {
        seq!['/'] + join(cs.drop_first())
    } else {
        join(cs)
    }
}

/// The components of `b` appended to those of `a`; an absolute `b` replaces `a`.
pub open spec fn merged(a: Seq<char>, b: Seq<char>) -> Seq<Seq<char>> {
    if is_absolute(b) {
        components(b)
    } else {
        components(a) + components(b)
    }
}

pub open spec fn views(v: Seq<String>) -> Seq<Seq<char>> {
    v.map_values(|s: String| s@)
}

proof fn lemma_segments_nonempty(p: Seq<char>)
    ensures
        segments(p).len() >= 1,
    decreases p.len(),
{
    if p.len() > 0 {
        lemma_segments_nonempty(p.drop_last());
    }
}

/// The components of a path, each as its own string.
pub fn path_components(p: &str) -> (r: Vec<String>)
    ensures
        views(r@) == components(p@),
{
    let cs = chars_of(p);
    let n = cs.len();
    let mut r: Vec<String> = Vec::new();
    if n > 0 && cs[0] == '/' {
        proof {
            reveal_strlit("/");
        }
        r.push(String::from_str("/"));
        assert(r@[0]@ =~= seq!['/']);
    }
    assert(views(r@) =~= root_part(p@));
    let mut start: usize = 0;
    let mut i: usize = 0;
    proof {
        assert(p@.subrange(0, 0) =~= Seq::<char>::empty());
    }
    while i < n
        invariant
            n == p@.len(),
            cs@ == p@,
            start <= i <= n,
            segments(p@.subrange(0, i as int)).last() == p@.subrange(start as int, i as int),
            views(r@) == root_part(p@) + kept(segments(p@.subrange(0, i as int)).drop_last()),
        decreases n - i,
    {
        let ghost q = p@.subrange(0, i as int);
        let ghost q1 = p@.subrange(0, i + 1);
        proof {
            assert(q1.drop_last() =~= q);
            lemma_segments_nonempty(q);
        }
        if cs[i] == '/' {
            let ghost seg = p@.subrange(start as int, i as int);
            proof {
                assert(segments(q1) == segments(q).push(Seq::empty()));
                assert(segments(q1).drop_last() =~= segments(q));
                assert(segments(q) =~= segments(q).drop_last().push(seg));
            }
            if start < i && !(i - start == 1 && cs[start] == '.') {
                let part = p.substring_char(start, i);
                let ghost before = r@;
                r.push(String::from_str(part));
                proof {
                    assert(seg.len() > 0);
                    if seg == seq!['.'] {
                        assert(seg[0] == cs@[start as int]);
                    }
                    assert(names_something(seg));
                    let ss = segments(q);
                    assert(ss.last() == seg);
                    assert(kept(ss) == kept(ss.drop_last()).push(seg));
                    assert(views(r@) =~= views(before).push(seg));
                    assert(views(r@) =~= root_part(p@) + kept(segments(q1).drop_last()));
                }
            } else {
                proof {
                    if seg.len() > 0 {
                        assert(seg.len() == 1);
                        assert(seg =~= seq!['.']);
                    }
                    assert(!names_something(seg));
                    let ss = segments(q);
                    assert(ss.last() == seg);
                    assert(kept(ss) == kept(ss.drop_last()));
                    assert(views(r@) =~= root_part(p@) + kept(segments(q1).drop_last()));
                }
            }
            start = i + 1;
            proof {
                assert(p@.subrange(start as int, i + 1) =~= Seq::<char>::empty());
            }
        } else {
            proof {
                let s = segments(q);
                assert(segments(q1) == s.update(s.len() - 1, s.last().push(cs@[i as int])));
                assert(segments(q1).drop_last() =~= s.drop_last());
                assert(p@.subrange(start as int, i + 1) =~= p@.subrange(start as int, i as int).push(cs@[i as int]));
            }
        }
        i = i + 1;
    }
    let ghost seg = p@.subrange(start as int, n as int);
    proof {
        assert(p@.subrange(0, n as int) =~= p@);
        lemma_segments_nonempty(p@);
        assert(segments(p@) =~= segments(p@).drop_last().push(seg));
    }
    if start < n && !(n - start == 1 && cs[start] == '.') {
        let part = p.substring_char(start, n);
        let ghost before = r@;
        r.push(String::from_str(part));
        proof {
            if seg == seq!['.'] {
                assert(seg[0] == cs@[start as int]);
            }
            let ss = segments(p@);
            assert(kept(ss) == kept(ss.drop_last()).push(seg));
            assert(views(r@) =~= views(before).push(seg));
            assert(views(r@) =~= root_part(p@) + kept(segments(p@)));
        }
    } else {
        proof {
            if seg.len() > 0 {
                assert(seg =~= seq!['.']);
            }
            let ss = segments(p@);
            assert(kept(ss) == kept(ss.drop_last()));
            assert(views(r@) =~= root_part(p@) + kept(segments(p@)));
        }
    }
    r
}

/// Whether a path starts at the root.
pub fn starts_at_root(p: &str) -> (r: bool)
    ensures
        r == is_absolute(p@),
{
    p.unicode_len() > 0 && p.get_char(0) == '/'
}

/// The components joined by `/`.
pub fn join_components(cs: &Vec<String>, from: usize) -> (r: String)
    requires
        from <= cs@.len(),
    ensures
        r@ == join(views(cs@).subrange(from as int, cs@.len() as int)),
{
    let mut r = String::new();
    let mut i: usize = from;
    proof {
        reveal_strlit("/");
        assert(views(cs@).subrange(from as int, from as int) =~= Seq::<Seq<char>>::empty());
    }
    while i < cs.len()
        invariant
            from <= i <= cs@.len(),
            r@ == join(views(cs@).subrange(from as int, i as int)),
        decreases cs@.len() - i,
    {
        let ghost before = views(cs@).subrange(from as int, i as int);
        let ghost after = views(cs@).subrange(from as int, i + 1);
        proof {
            assert(after.drop_last() =~= before);
            assert(after.last() == cs@[i as int]@);
        }
        if i > from {
            let ghost r0 = r@;
            r.append("/");
            assert(r@ =~= r0 + seq!['/']) by {
                reveal_strlit("/");
            }
            r.append(cs[i].as_str());
            assert(after.len() > 1);
            assert(r@ =~= join(before) + seq!['/'] + after.last());
        } else {
            assert(after =~= seq![cs@[i as int]@]);
            r.append(cs[i].as_str());
            assert(r@ =~= join(after));
        }
        i = i + 1;
    }
    r
}

/// The text of a path made of these components.
pub fn render_components(cs: &Vec<String>) -> (r: String)
    ensures
        r@ == render(views(cs@)),
{
    proof {
        reveal_strlit("/");
    }
    assert(views(cs@).subrange(0, cs@.len() as int) =~= views(cs@));
    if cs.len() > 0 && cs[0].as_str().unicode_len() == 1 && cs[0].as_str().get_char(0) == '/' {
        assert(cs@[0]@ =~= seq!['/']);
        assert(views(cs@).subrange(1, cs@.len() as int) =~= views(cs@).drop_first());
        let mut r = String::from_str("/");
        let rest = join_components(cs, 1);
        r.append(rest.as_str());
        r
    } else {
        proof {
            if cs@.len() > 0 && views(cs@)[0] == seq!['/'] {
                assert(cs@[0]@.len() == 1);
            }
        }
        join_components(cs, 0)
    }
}

/// The path made of the components of `path1` followed by those of `path2`;
/// when `path2` is absolute it replaces `path1`.
pub fn merge_paths(path1: &str, path2: &str) -> (r: String)
    ensures
        r@ == render(merged(path1@, path2@)),
{
    let mut c2 = path_components(path2);
    if starts_at_root(path2) {
        render_components(&c2)
    } else {
        let mut c1 = path_components(path1);
        let ghost v1 = c1@;
        let ghost v2 = c2@;
        c1.append(&mut c2);
        assert(views(c1@) =~= views(v1) + views(v2));
        render_components(&c1)
    }
}

proof fn lemma_kept_len(p: Seq<char>)
    ensures
        kept(segments(p).drop_last()).len() + (if segments(p).last().len() > 0 { 1int } else { 0 })
            <= p.len(),
    decreases p.len(),
{
    lemma_segments_nonempty(p);
    if p.len() > 0 {
        let q = p.drop_last();
        lemma_kept_len(q);
        lemma_segments_nonempty(q);
        let s = segments(q);
        if p.last() == '/' {
            assert(segments(p).drop_last() =~= s);
            assert(s =~= s.drop_last().push(s.last()));
        } else {
            assert(segments(p).drop_last() =~= s.drop_last());
        }
    }
}

/// A path has at most one component more than it has characters.
pub proof fn lemma_components_len(p: Seq<char>)
    ensures
        components(p).len() <= p.len() + 1,
{
    lemma_kept_len(p);
    lemma_segments_nonempty(p);
    let s = segments(p);
    assert(s =~= s.drop_last().push(s.last()));
}

/// Whether a component is an ordinary name.
pub fn is_normal_component(c: &str) -> (r: bool)
    ensures
        r == is_normal(c@),
{
    let n = c.unicode_len();
    if n == 1 && c.get_char(0) == '/' {
        assert(c@ =~= seq!['/']);
        false
    } else if n == 2 && c.get_char(0) == '.' && c.get_char(1) == '.' {
        assert(c@ =~= seq!['.', '.']);
        false
    } else {
        assert(c@ != seq!['/'] && c@ != seq!['.', '.']) by {
            if c@ == seq!['/'] {
                assert(c@[0] == '/');
            }
            if c@ == seq!['.', '.'] {
                assert(c@[0] == '.' && c@[1] == '.');
            }
        }
        true
    }
}

/// The last component when it is an ordinary name, else empty.
pub fn last_name_of(cs: &Vec<String>) -> (r: &str)
    ensures
        r@ == last_name(views(cs@)),
{
    proof {
        reveal_strlit("");
    }
    let m = cs.len();
    if m > 0 && is_normal_component(cs[m - 1].as_str()) {
        cs[m - 1].as_str()
    } else {
        ""
    }
}

/// The component right above the last one when both are names, else empty.
pub fn above_name_of(cs: &Vec<String>) -> (r: &str)
    ensures
        r@ == above_name(views(cs@)),
{
    proof {
        reveal_strlit("");
    }
    let m = cs.len();
    if m >= 2 && is_normal_component(cs[m - 1].as_str()) && is_normal_component(cs[m - 2].as_str()) {
        cs[m - 2].as_str()
    } else {
        ""
    }
}

} // verus!
