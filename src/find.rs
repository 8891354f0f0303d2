//! Ranking a list of index entries against a query.

use vstd::prelude::*;
use crate::ipc::IndexEntry;
use crate::query::{score, Query, QueryOptions, MAX_PARAMETERS, MAX_PATH_CHARS};
use crate::select::{pick_top, sort_asc, sort_ascending, top};

verus! {

/// Entries whose score is at least `floor`, each with its score, in order.
pub open spec fn scored(es: Seq<IndexEntry>, q: Query, floor: int) -> Seq<(i64, IndexEntry)>
    decreases es.len(),
{
    if es.len() == 0 {
        Seq::empty()
    } else {
        let e = es.last();
        let s = score(q, e.path@, e.directory);
        if s >= floor {
            scored(es.drop_last(), q, floor).push((s as i64, e))
        } else {
            scored(es.drop_last(), q, floor)
        }
    }
}

/// The entries of scored pairs, in order.
pub open spec fn entries(ps: Seq<(i64, IndexEntry)>) -> Seq<IndexEntry> {
    ps.map_values(|p: (i64, IndexEntry)| p.1)
}

/// A score can be computed for each entry.
pub open spec fn scorable(es: Seq<IndexEntry>, q: Query) -> bool {
    q.params().len() <= MAX_PARAMETERS && forall|i: int| 0 <= i < es.len() ==> es[i].path@.len() <= MAX_PATH_CHARS
}

/// What the client-side search returns.
pub open spec fn filtered(es: Seq<IndexEntry>, opts: QueryOptions) -> Seq<IndexEntry> {
    let s = scored(es, opts.query, 1);
    match opts.limit {
        Some(n) => entries(top(s, n as nat)),
        None => entries(sort_asc(s)),
    }
}

/// Scores each entry and keeps those scoring at least `floor`.
pub fn score_entries(es: Vec<IndexEntry>, q: &Query, floor: i64) -> (r: Vec<(i64, IndexEntry)>)
    requires
        scorable(es@, *q),
    ensures
        r@ == scored(es@, *q, floor as int),
{
    let ghost orig = es@;
    let mut es = es;
    let mut r: Vec<(i64, IndexEntry)> = Vec::new();
    let mut i: usize = 0;
    let n = es.len();
    let mut rest: Vec<IndexEntry> = Vec::new();
    while es.len() > 0
        invariant
            es@.len() <= orig.len(),
            es@ == orig.subrange(0, es@.len() as int),
            rest@ == orig.subrange(es@.len() as int, orig.len() as int).reverse(),
        decreases es@.len(),
    {
        let ghost k = es@.len();
        let e = es.pop().unwrap();
        assert(e == orig[k - 1]);
        rest.push(e);
        assert(es@ =~= orig.subrange(0, es@.len() as int));
        assert(rest@ =~= orig.subrange(es@.len() as int, orig.len() as int).reverse());
    }
    assert(orig.subrange(0, 0) =~= Seq::<IndexEntry>::empty());
    assert(rest@ =~= orig.reverse());
    while rest.len() > 0
        invariant
            n == orig.len(),
            i + rest@.len() == n,
            rest@ == orig.subrange(i as int, n as int).reverse(),
            r@ == scored(orig.subrange(0, i as int), *q, floor as int),
            scorable(orig, *q),
        decreases rest@.len(),
    {
        let e = rest.pop().unwrap();
        proof {
            assert(e == orig[i as int]);
            assert(orig.subrange(0, i + 1).drop_last() =~= orig.subrange(0, i as int));
            assert(orig.subrange(0, i + 1).last() == e);
            assert(rest@ =~= orig.subrange(i + 1, n as int).reverse());
        }
        let s = q.calc_score(e.path.as_str(), e.directory);
        if s >= floor {
            r.push((s, e));
        }
        i = i + 1;
    }
    assert(orig.subrange(0, n as int) =~= orig);
    r
}

/// The entries of scored pairs, in order.
pub fn into_entries(ps: Vec<(i64, IndexEntry)>) -> (r: Vec<IndexEntry>)
    ensures
        r@ == entries(ps@),
{
    let ghost orig = ps@;
    let mut ps = ps;
    let mut r: Vec<IndexEntry> = Vec::new();
    let mut back: Vec<IndexEntry> = Vec::new();
    while ps.len() > 0
        invariant
            ps@.len() <= orig.len(),
            ps@ == orig.subrange(0, ps@.len() as int),
            back@ == entries(orig.subrange(ps@.len() as int, orig.len() as int)).reverse(),
        decreases ps@.len(),
    {
        let ghost k = ps@.len();
        let p = ps.pop().unwrap();
        assert(p == orig[k - 1]);
        back.push(p.1);
        assert(ps@ =~= orig.subrange(0, ps@.len() as int));
        assert(back@ =~= entries(orig.subrange(ps@.len() as int, orig.len() as int)).reverse());
    }
    let ghost all = entries(orig);
    assert(back@ =~= all.reverse());
    while back.len() > 0
        invariant
            back@.len() <= all.len(),
            back@ == all.subrange(r@.len() as int, all.len() as int).reverse(),
            r@ == all.subrange(0, r@.len() as int),
            r@.len() + back@.len() == all.len(),
        decreases back@.len(),
    {
        let ghost k = r@.len();
        let e = back.pop().unwrap();
        assert(e == all[k as int]);
        r.push(e);
        assert(r@ =~= all.subrange(0, r@.len() as int));
        assert(back@ =~= all.subrange(r@.len() as int, all.len() as int).reverse());
    }
    assert(r@ =~= all);
    r
}

/// Client-side search: entries scoring above zero, the `limit` best in
/// descending score when a limit is given, else all of them in ascending
/// score; equal scores keep the order of `index`.
pub fn filter(index: Vec<IndexEntry>, query_opts: &QueryOptions) -> (r: Vec<IndexEntry>)
    requires
        scorable(index@, query_opts.query),
    ensures
        r@ == filtered(index@, *query_opts),
{
    let scored = score_entries(index, &query_opts.query, 1);
    match query_opts.limit {
        Some(limit) => into_entries(pick_top(scored, limit)),
        None => into_entries(sort_ascending(scored)),
    }
}

} // verus!
