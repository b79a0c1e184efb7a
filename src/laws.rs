//! What holds of every rate graph and every query on it.
use vstd::prelude::*;
use crate::model::{Conversion, RateMap, linked, added, built, has_edge, is_walk, chain_of, is_shortest, answers};

verus! {

/// A currency converts into itself through the empty chain, whether it is known
/// or not.
pub proof fn lemma_identity<R>(m: RateMap<R>, a: Seq<char>, res: Option<Seq<Conversion<R>>>)
    requires
        answers(m, a, a, res),
    ensures
        res == Some(Seq::<Conversion<R>>::empty()),
{
    let w = seq![a];
    assert(is_walk(m, w, a, a));
    match res {
        Some(c) => {
            let p = choose|p: Seq<Seq<char>>| #[trigger] is_shortest(m, p, a, a) && c == chain_of(m, p);
            assert(p.len() <= w.len());
            assert(c =~= Seq::<Conversion<R>>::empty());
        },
        None => {
            assert(!is_walk(m, w, a, a));
        },
    }
}

/// A currency that appears in no rate converts into no other currency.
pub proof fn lemma_absent<R>(m: RateMap<R>, a: Seq<char>, b: Seq<char>, res: Option<Seq<Conversion<R>>>)
    requires
        answers(m, a, b, res),
        a != b,
        !m.contains_key(a),
    ensures
        res is None,
{
    if let Some(c) = res {
        let p = choose|p: Seq<Seq<char>>| #[trigger] is_shortest(m, p, a, b) && c == chain_of(m, p);
        assert(p.len() > 1);
        assert(has_edge(m, p[0], p[0int + 1]));
    }
}

/// A direct rate from `a` to `b` is the answer itself: no other walk is as short.
pub proof fn lemma_direct<R>(m: RateMap<R>, a: Seq<char>, b: Seq<char>, res: Option<Seq<Conversion<R>>>)
    requires
        answers(m, a, b, res),
        a != b,
        has_edge(m, a, b),
    ensures
        res == Some(seq![m[a][b]]),
{
    let w = seq![a, b];
    assert(has_edge(m, w[0], w[0int + 1]));
    assert(is_walk(m, w, a, b));
    match res {
        Some(c) => {
            let p = choose|p: Seq<Seq<char>>| #[trigger] is_shortest(m, p, a, b) && c == chain_of(m, p);
            assert(p.len() <= 2);
            assert(p.len() == 2);
            assert(p[1] == b);
            assert(c =~= seq![m[a][b]]);
        },
        None => {
            assert(!is_walk(m, w, a, b));
        },
    }
}

/// After adding the rate `r` from `a` to `b`, a query from `b` to `a` answers the
/// reciprocal of `r`, though only the forward rate was given.
pub proof fn lemma_reciprocal<R>(m: RateMap<R>, a: Seq<char>, b: Seq<char>, r: R, res: Option<Seq<Conversion<R>>>)
    requires
        a != b,
        answers(added(m, a, b, r), b, a, res),
    ensures
        res == Some(seq![Conversion::Reciprocal(r)]),
{
    let g = added(m, a, b, r);
    assert(has_edge(g, b, a));
    lemma_direct(g, b, a, res);
}

/// After adding the rate `r` from `a` to `b`, a query from `a` to `b` answers `r`.
pub proof fn lemma_forward<R>(m: RateMap<R>, a: Seq<char>, b: Seq<char>, r: R, res: Option<Seq<Conversion<R>>>)
    requires
        a != b,
        answers(added(m, a, b, r), a, b, res),
    ensures
        res == Some(seq![Conversion::Direct(r)]),
{
    let g = added(m, a, b, r);
    assert(g[a] == linked(m, a, b, Conversion::Direct(r))[a]);
    assert(has_edge(g, a, b));
    lemma_direct(g, a, b, res);
}

/// Rates from `a` to `b` and from `b` to `c`, with none from `a` to `c`, compose:
/// the answer is a chain of two factors through a common neighbour, and it is the
/// one through `b` when `b` is the only common neighbour.
pub proof fn lemma_two_hops<R>(m: RateMap<R>, a: Seq<char>, b: Seq<char>, c: Seq<char>, res: Option<Seq<Conversion<R>>>)
    requires
        has_edge(m, a, b),
        has_edge(m, b, c),
        !has_edge(m, a, c),
        a != c,
        answers(m, a, c, res),
    ensures
        exists|x: Seq<char>| #[trigger] has_edge(m, a, x) && has_edge(m, x, c) && res == Some(seq![m[a][x], m[x][c]]),
        (forall|x: Seq<char>| #[trigger] has_edge(m, a, x) && has_edge(m, x, c) ==> x == b)
            ==> res == Some(seq![m[a][b], m[b][c]]),
{
    let w = seq![a, b, c];
    assert(has_edge(m, w[0], w[0int + 1]));
    assert(has_edge(m, w[1], w[1int + 1]));
    assert(is_walk(m, w, a, c));
    match res {
        Some(ch) => {
            let p = choose|p: Seq<Seq<char>>| #[trigger] is_shortest(m, p, a, c) && ch == chain_of(m, p);
            assert(p.len() <= 3);
            if p.len() == 2 {
                assert(has_edge(m, p[0], p[0int + 1]));
            }
            assert(p.len() == 3);
            let x = p[1];
            assert(has_edge(m, p[0], p[0int + 1]));
            assert(has_edge(m, p[1], p[1int + 1]));
            assert(ch =~= seq![m[a][x], m[x][c]]);
            assert(has_edge(m, a, x) && has_edge(m, x, c));
        },
        None => {
            assert(!is_walk(m, w, a, c));
        },
    }
}

/// One rate of a batch, added to `m`.
pub open spec fn add_one<R>(m: RateMap<R>, e: (Seq<char>, Seq<char>, R)) -> RateMap<R> {
    added(m, e.0, e.1, e.2)
}

/// Building a graph from a batch of rates gives the graph that adding them one
/// at a time gives, so every query allows the same answers on both.
pub proof fn lemma_batch_is_incremental<R>(edges: Seq<(Seq<char>, Seq<char>, R)>)
    ensures
        built(edges) == edges.fold_left(Map::empty(), |g: RateMap<R>, e: (Seq<char>, Seq<char>, R)| add_one(g, e)),
        forall|a: Seq<char>, b: Seq<char>, res: Option<Seq<Conversion<R>>>|
            #[trigger] answers(built(edges), a, b, res)
                == answers(edges.fold_left(Map::empty(), |g: RateMap<R>, e: (Seq<char>, Seq<char>, R)| add_one(g, e)), a, b, res),
    decreases edges.len(),
{
    if edges.len() > 0 {
        lemma_batch_is_incremental(edges.drop_last());
    }
}

/// The factor that undoes `c`.
pub open spec fn flip<R>(c: Conversion<R>) -> Conversion<R> {
    match c {
        Conversion::Direct(r) => Conversion::Reciprocal(r),
        Conversion::Reciprocal(r) => Conversion::Direct(r),
    }
}

/// Every factor between two distinct currencies is stored with its flip in the
/// other direction.
pub open spec fn is_symmetric<R>(m: RateMap<R>) -> bool {
    forall|u: Seq<char>, v: Seq<char>|
        u != v && #[trigger] has_edge(m, u, v) ==> has_edge(m, v, u) && m[v][u] == flip(m[u][v])
}

/// Adding a rate keeps every factor paired with its flip.
pub proof fn lemma_added_symmetric<R>(m: RateMap<R>, a: Seq<char>, b: Seq<char>, r: R)
    requires
        is_symmetric(m),
    ensures
        is_symmetric(added(m, a, b, r)),
{
    let g = added(m, a, b, r);
    assert forall|u: Seq<char>, v: Seq<char>| u != v && #[trigger] has_edge(g, u, v)
        implies has_edge(g, v, u) && g[v][u] == flip(g[u][v]) by {
        if (u == a && v == b) || (u == b && v == a) {
        } else {
            assert(has_edge(m, u, v));
        }
    }
}

/// A graph built from any batch of rates pairs every factor with its flip.
pub proof fn lemma_built_symmetric<R>(edges: Seq<(Seq<char>, Seq<char>, R)>)
    ensures
        is_symmetric(built(edges)),
    decreases edges.len(),
{
    if edges.len() > 0 {
        lemma_built_symmetric(edges.drop_last());
        let e = edges.last();
        lemma_added_symmetric(built(edges.drop_last()), e.0, e.1, e.2);
    }
}

/// In a graph built from any batch of rates, a query against the direction of
/// a stored factor answers its flip: the reciprocal of a rate that was given
/// from `a` to `b`.
pub proof fn lemma_reverse_query<R>(
    edges: Seq<(Seq<char>, Seq<char>, R)>,
    a: Seq<char>,
    b: Seq<char>,
    res: Option<Seq<Conversion<R>>>,
)
    requires
        a != b,
        has_edge(built(edges), a, b),
        answers(built(edges), b, a, res),
    ensures
        res == Some(seq![flip(built(edges)[a][b])]),
{
    lemma_built_symmetric(edges);
    let g = built(edges);
    assert(has_edge(g, b, a));
    lemma_direct(g, b, a, res);
}

} // verus!
