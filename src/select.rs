//! Stable orderings of scored entries: the highest `n` first, and the whole
//! list lowest first.

use vstd::prelude::*;

verus! {

/// `x` placed after every entry of `l` that scores at least as much,
/// walking from the back.
pub open spec fn insert_desc<T>(l: Seq<(i64, T)>, x: (i64, T)) -> Seq<(i64, T)>
    decreases l.len(),
{
    if l.len() == 0 {
        seq![x]
    } else if l.last().0 >= x.0 {
        l.push(x)
    } else {
        insert_desc(l.drop_last(), x).push(l.last())
    }
}

/// The entries in descending score; entries with equal scores keep their order.
pub open spec fn sort_desc<T>(xs: Seq<(i64, T)>) -> Seq<(i64, T)>
    decreases xs.len(),
{
    if xs.len() == 0 {
        xs
    } else {
        insert_desc(sort_desc(xs.drop_last()), xs.last())
    }
}

/// `x` placed after every entry of `l` that scores at most as much,
/// walking from the back.
pub open spec fn insert_asc<T>(l: Seq<(i64, T)>, x: (i64, T)) -> Seq<(i64, T)>
    decreases l.len(),
{
    if l.len() == 0 {
        seq![x]
    } else if l.last().0 <= x.0 {
        l.push(x)
    } else {
        insert_asc(l.drop_last(), x).push(l.last())
    }
}

/// The entries in ascending score; entries with equal scores keep their order.
pub open spec fn sort_asc<T>(xs: Seq<(i64, T)>) -> Seq<(i64, T)>
    decreases xs.len(),
{
    if xs.len() == 0 {
        xs
    } else {
        insert_asc(sort_asc(xs.drop_last()), xs.last())
    }
}

/// At most the first `n` entries.
pub open spec fn first_n<T>(s: Seq<(i64, T)>, n: nat) -> Seq<(i64, T)> {
    if n >= s.len() {
        s
    } else {
        s.subrange(0, n as int)
    }
}

/// The `n` highest-scoring entries, highest first, ties in input order.
pub open spec fn top<T>(xs: Seq<(i64, T)>, n: nat) -> Seq<(i64, T)> {
    first_n(sort_desc(xs), n)
}

pub open spec fn is_desc<T>(s: Seq<(i64, T)>) -> bool {
    forall|i: int, j: int| 0 <= i < j < s.len() ==> s[i].0 >= s[j].0
}

pub open spec fn is_asc<T>(s: Seq<(i64, T)>) -> bool {
    forall|i: int, j: int| 0 <= i < j < s.len() ==> s[i].0 <= s[j].0
}

/// The entries that score `v`, in order.
pub open spec fn with_score<T>(s: Seq<(i64, T)>, v: i64) -> Seq<(i64, T)>
    decreases s.len(),
{
    if s.len() == 0 {
        s
    } else if s.last().0 == v {
        with_score(s.drop_last(), v).push(s.last())
    } else {
        with_score(s.drop_last(), v)
    }
}

pub open spec fn is_prefix_of<T>(p: Seq<T>, s: Seq<T>) -> bool {
    p.len() <= s.len() && s.subrange(0, p.len() as int) == p
}

/// Where `insert_desc` puts `x`.
pub open spec fn desc_pos<T>(l: Seq<(i64, T)>, x: (i64, T)) -> int
    decreases l.len(),
{
    if l.len() == 0 {
        0
    } else if l.last().0 >= x.0 {
        l.len() as int
    } else {
        desc_pos(l.drop_last(), x)
    }
}

/// Where `insert_asc` puts `x`.
pub open spec fn asc_pos<T>(l: Seq<(i64, T)>, x: (i64, T)) -> int
    decreases l.len(),
{
    if l.len() == 0 {
        0
    } else if l.last().0 <= x.0 {
        l.len() as int
    } else {
        asc_pos(l.drop_last(), x)
    }
}

proof fn lemma_desc_pos<T>(l: Seq<(i64, T)>, x: (i64, T))
    ensures
        0 <= desc_pos(l, x) <= l.len(),
        insert_desc(l, x) == l.insert(desc_pos(l, x), x),
        forall|j: int| desc_pos(l, x) <= j < l.len() ==> l[j].0 < x.0,
        desc_pos(l, x) > 0 ==> l[desc_pos(l, x) - 1].0 >= x.0,
    decreases l.len(),
{
    if l.len() > 0 && l.last().0 < x.0 {
        lemma_desc_pos(l.drop_last(), x);
        assert(insert_desc(l, x) =~= l.insert(desc_pos(l, x), x));
        assert forall|j: int| desc_pos(l, x) <= j < l.len() implies l[j].0 < x.0 by {
            if j < l.len() - 1 {
                assert(l[j] == l.drop_last()[j]);
            }
        }
        if desc_pos(l, x) > 0 {
            assert(l[desc_pos(l, x) - 1] == l.drop_last()[desc_pos(l, x) - 1]);
        }
    } else if l.len() > 0 {
        assert(insert_desc(l, x) =~= l.insert(desc_pos(l, x), x));
    } else {
        assert(insert_desc(l, x) =~= l.insert(0, x));
    }
}

proof fn lemma_asc_pos<T>(l: Seq<(i64, T)>, x: (i64, T))
    ensures
        0 <= asc_pos(l, x) <= l.len(),
        insert_asc(l, x) == l.insert(asc_pos(l, x), x),
        forall|j: int| asc_pos(l, x) <= j < l.len() ==> l[j].0 > x.0,
        asc_pos(l, x) > 0 ==> l[asc_pos(l, x) - 1].0 <= x.0,
    decreases l.len(),
{
    if l.len() > 0 && l.last().0 > x.0 {
        lemma_asc_pos(l.drop_last(), x);
        assert(insert_asc(l, x) =~= l.insert(asc_pos(l, x), x));
        assert forall|j: int| asc_pos(l, x) <= j < l.len() implies l[j].0 > x.0 by {
            if j < l.len() - 1 {
                assert(l[j] == l.drop_last()[j]);
            }
        }
        if asc_pos(l, x) > 0 {
            assert(l[asc_pos(l, x) - 1] == l.drop_last()[asc_pos(l, x) - 1]);
        }
    } else if l.len() > 0 {
        assert(insert_asc(l, x) =~= l.insert(asc_pos(l, x), x));
    } else {
        assert(insert_asc(l, x) =~= l.insert(0, x));
    }
}

/// In a descending list the place of `x` is the only one with nothing lower
/// before it and nothing as high after it.
proof fn lemma_desc_pos_unique<T>(l: Seq<(i64, T)>, x: (i64, T), k: int)
    requires
        0 <= k <= l.len(),
        forall|j: int| k <= j < l.len() ==> l[j].0 < x.0,
        k > 0 ==> l[k - 1].0 >= x.0,
    ensures
        desc_pos(l, x) == k,
{
    lemma_desc_pos(l, x);
    let p = desc_pos(l, x);
    if p < k {
        assert(l[k - 1].0 < x.0);
    } else if k < p {
        assert(l[p - 1].0 < x.0);
    }
}

proof fn lemma_asc_pos_unique<T>(l: Seq<(i64, T)>, x: (i64, T), k: int)
    requires
        0 <= k <= l.len(),
        forall|j: int| k <= j < l.len() ==> l[j].0 > x.0,
        k > 0 ==> l[k - 1].0 <= x.0,
    ensures
        asc_pos(l, x) == k,
{
    lemma_asc_pos(l, x);
    let p = asc_pos(l, x);
    if p < k {
        assert(l[k - 1].0 > x.0);
    } else if k < p {
        assert(l[p - 1].0 > x.0);
    }
}

proof fn lemma_insert_desc_sorted<T>(l: Seq<(i64, T)>, x: (i64, T))
    requires
        is_desc(l),
    ensures
        is_desc(insert_desc(l, x)),
        insert_desc(l, x).len() == l.len() + 1,
{
    lemma_desc_pos(l, x);
    let p = desc_pos(l, x);
    let r = insert_desc(l, x);
    assert forall|i: int, j: int| 0 <= i < j < r.len() implies r[i].0 >= r[j].0 by {
        if i < p && j == p {
            assert(l[p - 1].0 >= x.0);
        }
    }
}

proof fn lemma_insert_asc_sorted<T>(l: Seq<(i64, T)>, x: (i64, T))
    requires
        is_asc(l),
    ensures
        is_asc(insert_asc(l, x)),
        insert_asc(l, x).len() == l.len() + 1,
{
    lemma_asc_pos(l, x);
    let p = asc_pos(l, x);
    let r = insert_asc(l, x);
    assert forall|i: int, j: int| 0 <= i < j < r.len() implies r[i].0 <= r[j].0 by {
        if i < p && j == p {
            assert(l[p - 1].0 <= x.0);
        }
    }
}

proof fn lemma_sort_desc<T>(xs: Seq<(i64, T)>)
    ensures
        is_desc(sort_desc(xs)),
        sort_desc(xs).len() == xs.len(),
    decreases xs.len(),
{
    if xs.len() > 0 {
        lemma_sort_desc(xs.drop_last());
        lemma_insert_desc_sorted(sort_desc(xs.drop_last()), xs.last());
    }
}

proof fn lemma_sort_asc<T>(xs: Seq<(i64, T)>)
    ensures
        is_asc(sort_asc(xs)),
        sort_asc(xs).len() == xs.len(),
    decreases xs.len(),
{
    if xs.len() > 0 {
        lemma_sort_asc(xs.drop_last());
        lemma_insert_asc_sorted(sort_asc(xs.drop_last()), xs.last());
    }
}

/// The elements of `xs`, last first.
pub fn reversed<T>(xs: Vec<T>) -> (r: Vec<T>)
    ensures
        r@ == xs@.reverse(),
{
    let ghost orig = xs@;
    let mut xs = xs;
    let mut r: Vec<T> = Vec::new();
    while xs.len() > 0
        invariant
            xs@.len() <= orig.len(),
            xs@ == orig.subrange(0, xs@.len() as int),
            r@ == orig.subrange(xs@.len() as int, orig.len() as int).reverse(),
        decreases xs@.len(),
    {
        let ghost k = xs@.len();
        let x = xs.pop().unwrap();
        assert(x == orig[k - 1]);
        r.push(x);
        assert(xs@ =~= orig.subrange(0, xs@.len() as int));
        assert(r@ =~= orig.subrange(xs@.len() as int, orig.len() as int).reverse());
    }
    assert(r@ =~= orig.reverse());
    r
}

/// The `n` highest-scoring entries in descending score. An entry is kept
/// in a running list of at most `n`; one that scores below the `n`-th is
/// dropped, and entries with equal scores keep their input order.
pub fn pick_top<T>(xs: Vec<(i64, T)>, n: usize) -> (r: Vec<(i64, T)>)
    ensures
        r@ == top(xs@, n as nat),
{
    let ghost orig = xs@;
    let len = xs.len();
    let mut rest = reversed(xs);
    let mut list: Vec<(i64, T)> = Vec::new();
    let mut i: usize = 0;
    assert(orig.subrange(0, 0) =~= Seq::<(i64, T)>::empty());
    assert(orig.subrange(0, len as int) =~= orig);
    while rest.len() > 0
        invariant
            len == orig.len(),
            i + rest@.len() == len,
            rest@ == orig.subrange(i as int, len as int).reverse(),
            list@ == top(orig.subrange(0, i as int), n as nat),
        decreases rest@.len(),
    {
        let x = rest.pop().unwrap();
        let ghost pre = orig.subrange(0, i as int);
        let ghost s = sort_desc(pre);
        proof {
            assert(x == orig[i as int]);
            assert(orig.subrange(0, i + 1).drop_last() =~= pre);
            assert(rest@ =~= orig.subrange(i + 1, len as int).reverse());
            lemma_sort_desc(pre);
            lemma_desc_pos(s, x);
            lemma_desc_pos(list@, x);
        }
        let mut k: usize = list.len();
        while k > 0 && list[k - 1].0 < x.0
            invariant
                k <= list@.len(),
                forall|j: int| k <= j < list@.len() ==> list@[j].0 < x.0,
            decreases k,
        {
            k = k - 1;
        }
        proof {
            lemma_desc_pos_unique(list@, x, k as int);
            let d = desc_pos(s, x);
            if s.len() > n {
                if d <= n {
                    lemma_desc_pos_unique(list@, x, d);
                } else if n > 0 {
                    assert(s[n - 1].0 >= s[d - 1].0);
                    lemma_desc_pos_unique(list@, x, n as int);
                } else {
                    lemma_desc_pos_unique(list@, x, 0);
                }
            }
        }
        if k < n {
            let ghost before = list@;
            list.insert(k, x);
            if list.len() > n {
                list.pop();
            }
            proof {
                let d = desc_pos(s, x);
                assert(d == k);
                assert(list@ =~= first_n(s.insert(d, x), n as nat));
            }
        } else {
            proof {
                let d = desc_pos(s, x);
                assert(list@ =~= first_n(s.insert(d, x), n as nat));
            }
        }
        i = i + 1;
    }
    list
}

/// The entries in ascending score, equal scores in input order.
pub fn sort_ascending<T>(xs: Vec<(i64, T)>) -> (r: Vec<(i64, T)>)
    ensures
        r@ == sort_asc(xs@),
{
    let ghost orig = xs@;
    let len = xs.len();
    let mut rest = reversed(xs);
    let mut list: Vec<(i64, T)> = Vec::new();
    let mut i: usize = 0;
    assert(orig.subrange(0, 0) =~= Seq::<(i64, T)>::empty());
    assert(orig.subrange(0, len as int) =~= orig);
    while rest.len() > 0
        invariant
            len == orig.len(),
            i + rest@.len() == len,
            rest@ == orig.subrange(i as int, len as int).reverse(),
            list@ == sort_asc(orig.subrange(0, i as int)),
        decreases rest@.len(),
    {
        let x = rest.pop().unwrap();
        let ghost pre = orig.subrange(0, i as int);
        proof {
            assert(x == orig[i as int]);
            assert(orig.subrange(0, i + 1).drop_last() =~= pre);
            assert(rest@ =~= orig.subrange(i + 1, len as int).reverse());
            lemma_asc_pos(list@, x);
        }
        let mut k: usize = list.len();
        while k > 0 && list[k - 1].0 > x.0
            invariant
                k <= list@.len(),
                forall|j: int| k <= j < list@.len() ==> list@[j].0 > x.0,
            decreases k,
        {
            k = k - 1;
        }
        proof {
            lemma_asc_pos_unique(list@, x, k as int);
        }
        list.insert(k, x);
        i = i + 1;
    }
    list
}

proof fn lemma_with_score_insert_desc<T>(l: Seq<(i64, T)>, x: (i64, T), v: i64)
    ensures
        with_score(insert_desc(l, x), v) == (if x.0 == v {
            with_score(l, v).push(x)
        } else {
            with_score(l, v)
        }),
    decreases l.len(),
{
    if l.len() == 0 {
        assert(seq![x].drop_last() =~= l);
    } else if l.last().0 >= x.0 {
        assert(l.push(x).drop_last() =~= l);
    } else {
        lemma_with_score_insert_desc(l.drop_last(), x, v);
        let r = insert_desc(l.drop_last(), x);
        assert(r.push(l.last()).drop_last() =~= r);
    }
}

proof fn lemma_with_score_sort_desc<T>(xs: Seq<(i64, T)>, v: i64)
    ensures
        with_score(sort_desc(xs), v) == with_score(xs, v),
    decreases xs.len(),
{
    if xs.len() > 0 {
        lemma_with_score_sort_desc(xs.drop_last(), v);
        lemma_with_score_insert_desc(sort_desc(xs.drop_last()), xs.last(), v);
    }
}

proof fn lemma_with_score_insert_asc<T>(l: Seq<(i64, T)>, x: (i64, T), v: i64)
    ensures
        with_score(insert_asc(l, x), v) == (if x.0 == v {
            with_score(l, v).push(x)
        } else {
            with_score(l, v)
        }),
    decreases l.len(),
{
    if l.len() == 0 {
        assert(seq![x].drop_last() =~= l);
    } else if l.last().0 <= x.0 {
        assert(l.push(x).drop_last() =~= l);
    } else {
        lemma_with_score_insert_asc(l.drop_last(), x, v);
        let r = insert_asc(l.drop_last(), x);
        assert(r.push(l.last()).drop_last() =~= r);
    }
}

proof fn lemma_with_score_sort_asc<T>(xs: Seq<(i64, T)>, v: i64)
    ensures
        with_score(sort_asc(xs), v) == with_score(xs, v),
    decreases xs.len(),
{
    if xs.len() > 0 {
        lemma_with_score_sort_asc(xs.drop_last(), v);
        lemma_with_score_insert_asc(sort_asc(xs.drop_last()), xs.last(), v);
    }
}

proof fn lemma_with_score_first_n<T>(s: Seq<(i64, T)>, n: nat, v: i64)
    ensures
        is_prefix_of(with_score(first_n(s, n), v), with_score(s, v)),
    decreases s.len(),
{
    if n < s.len() {
        lemma_with_score_first_n(s.drop_last(), n, v);
        assert(first_n(s.drop_last(), n) =~= first_n(s, n));
        let p = with_score(first_n(s, n), v);
        let q = with_score(s.drop_last(), v);
        if s.last().0 == v {
            assert(q.push(s.last()).subrange(0, p.len() as int) =~= q.subrange(0, p.len() as int));
        }
    } else {
        assert(with_score(s, v).subrange(0, with_score(s, v).len() as int) =~= with_score(s, v));
    }
}

/// The selection is stable: for every score, the selected entries with that
/// score are the first ones of the input with that score, in input order.
pub proof fn lemma_top_is_stable<T>(xs: Seq<(i64, T)>, n: nat, v: i64)
    ensures
        is_prefix_of(with_score(top(xs, n), v), with_score(xs, v)),
{
    lemma_with_score_first_n(sort_desc(xs), n, v);
    lemma_with_score_sort_desc(xs, v);
}

/// The selection is in descending score and holds `min(|xs|, n)` entries,
/// the first ones of the whole input in descending order.
pub proof fn lemma_top_shape<T>(xs: Seq<(i64, T)>, n: nat)
    ensures
        is_desc(top(xs, n)),
        top(xs, n).len() == if n < xs.len() { n } else { xs.len() },
        is_prefix_of(top(xs, n), sort_desc(xs)),
{
    lemma_sort_desc(xs);
    let s = sort_desc(xs);
    assert(s.subrange(0, top(xs, n).len() as int) =~= top(xs, n));
}

/// Sorting in descending order loses and reorders nothing within a score:
/// for every score the entries with that score are those of the input, in
/// input order.
pub proof fn lemma_sort_desc_is_stable<T>(xs: Seq<(i64, T)>, v: i64)
    ensures
        is_desc(sort_desc(xs)),
        with_score(sort_desc(xs), v) == with_score(xs, v),
{
    lemma_sort_desc(xs);
    lemma_with_score_sort_desc(xs, v);
}

/// Sorting in ascending order loses and reorders nothing within a score.
pub proof fn lemma_sort_asc_is_stable<T>(xs: Seq<(i64, T)>, v: i64)
    ensures
        is_asc(sort_asc(xs)),
        sort_asc(xs).len() == xs.len(),
        with_score(sort_asc(xs), v) == with_score(xs, v),
{
    lemma_sort_asc(xs);
    lemma_with_score_sort_asc(xs, v);
}

} // verus!
