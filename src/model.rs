//! The abstract rate graph, walks through it, and what a query may answer.
use vstd::prelude::*;

verus! {

/// One factor of a conversion chain: multiply by the stored rate, or divide by it.
///
/// A rate added for the pair (A, B) is stored as `Direct(r)` on A's side and as
/// `Reciprocal(r)` on B's side, so that B converts to A by `1 / r`.
#[derive(Clone, Copy, Debug, PartialEq)]
pub enum Conversion<R> {
    Direct(R),
    Reciprocal(R),
}

/// The abstract rate graph: for each known currency, its direct neighbours and
/// the factor that converts one unit of it into one unit of the neighbour.
pub type RateMap<R> = Map<Seq<char>, Map<Seq<char>, Conversion<R>>>;

/// The neighbours of `c`, empty when `c` is unknown.
pub open spec fn neighbours<R>(m: RateMap<R>, c: Seq<char>) -> Map<Seq<char>, Conversion<R>> {
    if m.contains_key(c) {
        m[c]
    } else {
        Map::empty()
    }
}

/// `m` with the factor from `c` to `k` set to `conv` (the last write wins).
pub open spec fn linked<R>(m: RateMap<R>, c: Seq<char>, k: Seq<char>, conv: Conversion<R>) -> RateMap<R> {
    m.insert(c, neighbours(m, c).insert(k, conv))
}

/// `m` after adding the rate `r` from `a` to `b`: the forward factor first, then
/// the reciprocal one.
pub open spec fn added<R>(m: RateMap<R>, a: Seq<char>, b: Seq<char>, r: R) -> RateMap<R> {
    linked(linked(m, a, b, Conversion::Direct(r)), b, a, Conversion::Reciprocal(r))
}

/// The graph that results from adding each rate of `edges`, in order, to an
/// empty graph.
pub open spec fn built<R>(edges: Seq<(Seq<char>, Seq<char>, R)>) -> RateMap<R>
    decreases edges.len(),
{
    if edges.len() == 0 {
        Map::empty()
    } else {
        let e = edges.last();
        added(built(edges.drop_last()), e.0, e.1, e.2)
    }
}

pub open spec fn has_edge<R>(m: RateMap<R>, u: Seq<char>, v: Seq<char>) -> bool {
    m.contains_key(u) && m[u].contains_key(v)
}

/// `p` lists the currencies of a walk from `a` to `b` along direct rates.
pub open spec fn is_walk<R>(m: RateMap<R>, p: Seq<Seq<char>>, a: Seq<char>, b: Seq<char>) -> bool {
    &&& p.len() > 0
    &&& p[0] == a
    &&& p.last() == b
    &&& forall|i: int| 0 <= i < p.len() - 1 ==> #[trigger] has_edge(m, p[i], p[i + 1])
}

/// The factors met along the walk `p`.
pub open spec fn chain_of<R>(m: RateMap<R>, p: Seq<Seq<char>>) -> Seq<Conversion<R>> {
    Seq::new((p.len() - 1) as nat, |i: int| m[p[i]][p[i + 1]])
}

/// `p` is a walk from `a` to `b` with the fewest hops among all such walks.
pub open spec fn is_shortest<R>(m: RateMap<R>, p: Seq<Seq<char>>, a: Seq<char>, b: Seq<char>) -> bool {
    &&& is_walk(m, p, a, b)
    &&& forall|q: Seq<Seq<char>>| #[trigger] is_walk(m, q, a, b) ==> p.len() <= q.len()
}

/// What a query from `a` to `b` may answer: the factors of a shortest walk, or
/// nothing when no walk exists.
pub open spec fn answers<R>(m: RateMap<R>, a: Seq<char>, b: Seq<char>, res: Option<Seq<Conversion<R>>>) -> bool {
    match res {
        Some(c) => exists|p: Seq<Seq<char>>| #[trigger] is_shortest(m, p, a, b) && c == chain_of(m, p),
        None => forall|p: Seq<Seq<char>>| !#[trigger] is_walk(m, p, a, b),
    }
}

/// The currencies reachable from `a` in at most `n` hops.
pub open spec fn within<R>(m: RateMap<R>, a: Seq<char>, n: nat) -> Set<Seq<char>>
    decreases n,
{
    if n == 0 {
        set![a]
    } else {
        let prev = within(m, a, (n - 1) as nat);
        prev.union(Set::new(|v: Seq<char>| exists|u: Seq<char>| prev.contains(u) && #[trigger] has_edge(m, u, v)))
    }
}

/// The balls grow with the number of hops.
pub proof fn lemma_within_mono<R>(m: RateMap<R>, a: Seq<char>, k: nat, n: nat)
    requires
        k <= n,
    ensures
        within(m, a, k).subset_of(within(m, a, n)),
    decreases n,
{
    if k < n {
        lemma_within_mono(m, a, k, (n - 1) as nat);
    }
}

/// The end of a walk lies within as many hops as the walk has.
pub proof fn lemma_walk_within<R>(m: RateMap<R>, p: Seq<Seq<char>>, a: Seq<char>, b: Seq<char>)
    requires
        is_walk(m, p, a, b),
    ensures
        within(m, a, (p.len() - 1) as nat).contains(b),
    decreases p.len(),
{
    if p.len() > 1 {
        let q = p.drop_last();
        let u = q.last();
        assert forall|i: int| 0 <= i < q.len() - 1 implies #[trigger] has_edge(m, q[i], q[i + 1]) by {
            assert(has_edge(m, p[i], p[i + 1]));
        }
        lemma_walk_within(m, q, a, u);
        let i = p.len() - 2;
        assert(has_edge(m, p[i], p[i + 1]));
        assert(within(m, a, (i + 1) as nat).contains(b));
    }
}

/// A ball that does not grow by one hop never grows again.
pub proof fn lemma_within_stable<R>(m: RateMap<R>, a: Seq<char>, d: nat, n: nat)
    requires
        within(m, a, d + 1) == within(m, a, d),
        d <= n,
    ensures
        within(m, a, n) == within(m, a, d),
    decreases n,
{
    if n > d + 1 {
        lemma_within_stable(m, a, d, (n - 1) as nat);
    }
}

/// A walk to a currency outside the `d`-hop ball has more than `d` hops.
pub proof fn lemma_no_shorter<R>(m: RateMap<R>, a: Seq<char>, b: Seq<char>, d: nat, q: Seq<Seq<char>>)
    requires
        !within(m, a, d).contains(b),
        is_walk(m, q, a, b),
    ensures
        q.len() > d + 1,
{
    lemma_walk_within(m, q, a, b);
    if q.len() <= d + 1 {
        lemma_within_mono(m, a, (q.len() - 1) as nat, d);
    }
}

/// Once the ball stops growing, what lies outside it is unreachable.
pub proof fn lemma_unreachable<R>(m: RateMap<R>, a: Seq<char>, b: Seq<char>, d: nat)
    requires
        within(m, a, d + 1) == within(m, a, d),
        !within(m, a, d).contains(b),
    ensures
        forall|q: Seq<Seq<char>>| !#[trigger] is_walk(m, q, a, b),
{
    assert forall|q: Seq<Seq<char>>| !#[trigger] is_walk(m, q, a, b) by {
        if is_walk(m, q, a, b) {
            lemma_walk_within(m, q, a, b);
            let k = (q.len() - 1) as nat;
            if k <= d {
                lemma_within_mono(m, a, k, d);
            } else {
                lemma_within_stable(m, a, d, k);
            }
        }
    }
}

} // verus!
