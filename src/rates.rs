//! The executable rate graph: interned currencies with adjacency lists.
use vstd::prelude::*;
use crate::model::{Conversion, RateMap, linked, added, built, has_edge, is_walk, chain_of, is_shortest, answers, within, lemma_no_shorter, lemma_unreachable, lemma_within_mono, lemma_walk_within};
use crate::laws::{lemma_identity, lemma_absent, lemma_direct};
use vstd::set_lib::{set_int_range, lemma_int_range, lemma_len_subset};

verus! {

/// A graph of known exchange rates.
///
/// Currencies are interned: `names[i]` is the i-th currency seen, and `links[i]`
/// lists its direct neighbours by index, each with the factor that converts into
/// that neighbour.
pub struct ExchangeRates<R> {
    names: Vec<String>,
    links: Vec<Vec<(usize, Conversion<R>)>>,
    model: Ghost<RateMap<R>>,
}

/// The chain held by a query's result, as a sequence.
pub open spec fn chain_view<R>(r: Option<Vec<Conversion<R>>>) -> Option<Seq<Conversion<R>>> {
    match r {
        Some(c) => Some(c@),
        None => None,
    }
}

/// The rates of a batch, with the currencies as sequences.
pub open spec fn edges_of<R>(rates: Seq<(&str, &str, R)>) -> Seq<(Seq<char>, Seq<char>, R)> {
    rates.map_values(|e: (&str, &str, R)| (e.0@, e.1@, e.2))
}

/// `c` followed by `x`.
fn extended<R: Copy>(c: &Vec<Conversion<R>>, x: Conversion<R>) -> (r: Vec<Conversion<R>>)
    ensures
        r@ == c@.push(x),
{
    let mut r: Vec<Conversion<R>> = Vec::new();
    let mut i: usize = 0;
    while i < c.len()
        invariant
            i <= c@.len(),
            r@ == c@.take(i as int),
        decreases c@.len() - i,
    {
        r.push(c[i]);
        i = i + 1;
        assert(r@ =~= c@.take(i as int));
    }
    assert(c@.take(i as int) =~= c@);
    r.push(x);
    r
}

impl<R> View for ExchangeRates<R> {
    type V = RateMap<R>;

    closed spec fn view(&self) -> RateMap<R> {
        self.model@
    }
}

impl<R: Copy> ExchangeRates<R> {
    pub closed spec fn count(&self) -> int {
        self.names@.len() as int
    }

    pub closed spec fn name(&self, i: int) -> Seq<char> {
        self.names@[i]@
    }

    /// The index of the k-th neighbour of currency i.
    pub closed spec fn nb(&self, i: int, k: int) -> int {
        self.links@[i]@[k].0 as int
    }

    pub closed spec fn degree(&self, i: int) -> int {
        self.links@[i]@.len() as int
    }

    pub closed spec fn factor(&self, i: int, k: int) -> Conversion<R> {
        self.links@[i]@[k].1
    }

    /// The interned structure is consistent and `view` describes it.
    pub closed spec fn wf(&self) -> bool {
        &&& self.names@.len() == self.links@.len()
        &&& forall|i: int, j: int|
            0 <= i < j < self.count() ==> #[trigger] self.name(i) != #[trigger] self.name(j)
        &&& forall|i: int, k: int|
            0 <= i < self.count() && 0 <= k < self.degree(i) ==> 0 <= #[trigger] self.nb(i, k) < self.count()
        &&& forall|i: int, k: int, l: int|
            0 <= i < self.count() && 0 <= k < l < self.degree(i) ==> #[trigger] self.nb(i, k) != #[trigger] self.nb(i, l)
        &&& forall|c: Seq<char>|
            #[trigger] self@.contains_key(c) ==> exists|i: int| 0 <= i < self.count() && self.name(i) == c
        &&& forall|i: int|
            0 <= i < self.count() ==> (#[trigger] self@.contains_key(self.name(i)) <==> self.degree(i) > 0)
        &&& forall|i: int, c: Seq<char>|
            0 <= i < self.count() && self@.contains_key(self.name(i)) ==> (#[trigger] self@[self.name(i)].contains_key(c)
                <==> exists|k: int| 0 <= k < self.degree(i) && self.name(self.nb(i, k)) == c)
        &&& forall|i: int, k: int|
            0 <= i < self.count() && 0 <= k < self.degree(i) ==> self@[self.name(i)][self.name(#[trigger] self.nb(i, k))]
                == self.factor(i, k)
    }

    /// An empty graph.
    pub fn new() -> (r: Self)
        ensures
            r.wf(),
            r@ == Map::<Seq<char>, Map<Seq<char>, Conversion<R>>>::empty(),
    {
        ExchangeRates { names: Vec::new(), links: Vec::new(), model: Ghost(Map::empty()) }
    }

    /// A graph holding the rates of `rates`, added in order (for a repeated
    /// ordered pair the later rate wins).
    pub fn from_rates(rates: &[(&str, &str, R)]) -> (r: Self)
        ensures
            r.wf(),
            r@ == built(edges_of(rates@)),
    {
        let mut res = Self::new();
        let mut i: usize = 0;
        while i < rates.len()
            invariant
                i <= rates@.len(),
                res.wf(),
                res@ == built(edges_of(rates@).take(i as int)),
            decreases rates@.len() - i,
        {
            let (curr1, curr2, rate) = rates[i];
            res.add(curr1, curr2, rate);
            proof {
                let es = edges_of(rates@);
                assert(es.take(i + 1).drop_last() =~= es.take(i as int));
            }
            i = i + 1;
        }
        proof {
            assert(edges_of(rates@).take(i as int) =~= edges_of(rates@));
        }
        res
    }

    /// The index under which `c` is interned, if it is.
    fn position(&self, c: &str) -> (r: Option<usize>)
        requires
            self.wf(),
        ensures
            match r {
                Some(i) => i < self.count() && self.name(i as int) == c@,
                None => forall|i: int| 0 <= i < self.count() ==> self.name(i) != c@,
            },
    {
        let key = c.to_owned();
        let mut i: usize = 0;
        while i < self.names.len()
            invariant
                self.wf(),
                key@ == c@,
                i <= self.count(),
                forall|j: int| 0 <= j < i ==> self.name(j) != c@,
            decreases self.count() - i,
        {
            if self.names[i] == key {
                return Some(i);
            }
            i = i + 1;
        }
        None
    }

    /// The index of `c`, interning it with no neighbours when it is new.
    fn intern(&mut self, c: &str) -> (i: usize)
        requires
            old(self).wf(),
        ensures
            final(self).wf(),
            final(self)@ == old(self)@,
            i < final(self).count(),
            final(self).name(i as int) == c@,
            old(self).count() <= final(self).count(),
            forall|j: int| 0 <= j < old(self).count() ==> final(self).name(j) == old(self).name(j),
    {
        match self.position(c) {
            Some(i) => i,
            None => {
                let ghost before = *self;
                self.names.push(c.to_owned());
                self.links.push(Vec::new());
                let i = self.names.len() - 1;
                assert(!before@.contains_key(c@)) by {
                    if before@.contains_key(c@) {
                        let j = choose|j: int| 0 <= j < before.count() && before.name(j) == c@;
                    }
                }
                assert forall|j: int| 0 <= j < before.count() implies self.name(j) == before.name(j)
                    && self.degree(j) == before.degree(j) by {
                    assert(self.names@[j] == before.names@[j]);
                    assert(self.links@[j] == before.links@[j]);
                }
                assert(self.name(i as int) == c@ && self.degree(i as int) == 0);
                assert forall|j1: int, j2: int| 0 <= j1 < j2 < self.count()
                    implies #[trigger] self.name(j1) != #[trigger] self.name(j2) by {
                    assert(self.name(j1) == before.name(j1));
                    if j2 < before.count() {
                        assert(self.name(j2) == before.name(j2));
                        assert(before.name(j1) != before.name(j2));
                    } else {
                        assert(before.name(j1) != c@);
                    }
                }
                assert forall|j: int, k: int| 0 <= j < self.count() && 0 <= k < self.degree(j)
                    implies #[trigger] self.nb(j, k) == before.nb(j, k) && self.factor(j, k) == before.factor(j, k) by {
                    assert(self.links@[j] == before.links@[j]);
                }
                assert forall|j: int| 0 <= j < self.count()
                    implies (#[trigger] self@.contains_key(self.name(j)) <==> self.degree(j) > 0) by {
                    if j < before.count() {
                        assert(self.name(j) == before.name(j));
                        assert(before@.contains_key(before.name(j)) <==> before.degree(j) > 0);
                    }
                }
                assert forall|c2: Seq<char>| #[trigger] self@.contains_key(c2)
                    implies exists|j: int| 0 <= j < self.count() && self.name(j) == c2 by {
                    let j = choose|j: int| 0 <= j < before.count() && before.name(j) == c2;
                    assert(self.name(j) == c2);
                }
                assert forall|j: int, c2: Seq<char>| 0 <= j < self.count() && self@.contains_key(self.name(j))
                    implies (#[trigger] self@[self.name(j)].contains_key(c2)
                    <==> exists|k: int| 0 <= k < self.degree(j) && self.name(self.nb(j, k)) == c2) by {
                    if j < before.count() {
                        assert(self.name(j) == before.name(j));
                        if self@[self.name(j)].contains_key(c2) {
                            assert(before@[before.name(j)].contains_key(c2));
                            let k = choose|k: int| 0 <= k < before.degree(j) && before.name(before.nb(j, k)) == c2;
                            assert(self.nb(j, k) == before.nb(j, k));
                        }
                        if exists|k: int| 0 <= k < self.degree(j) && self.name(self.nb(j, k)) == c2 {
                            let k = choose|k: int| 0 <= k < self.degree(j) && self.name(self.nb(j, k)) == c2;
                            assert(before.name(before.nb(j, k)) == c2);
                            assert(before@[before.name(j)].contains_key(c2));
                        }
                    }
                }
                i
            },
        }
    }

    /// Where currency `j` stands among the neighbours of currency `i`, if it does.
    fn slot(&self, i: usize, j: usize) -> (r: Option<usize>)
        requires
            self.wf(),
            i < self.count(),
        ensures
            match r {
                Some(k) => k < self.degree(i as int) && self.nb(i as int, k as int) == j,
                None => forall|k: int| 0 <= k < self.degree(i as int) ==> self.nb(i as int, k) != j,
            },
    {
        let row = &self.links[i];
        let mut k: usize = 0;
        while k < row.len()
            invariant
                row@ == self.links@[i as int]@,
                k <= row@.len(),
                forall|l: int| 0 <= l < k ==> self.nb(i as int, l) != j,
            decreases row@.len() - k,
        {
            if row[k].0 == j {
                return Some(k);
            }
            k = k + 1;
        }
        None
    }

    /// Sets the factor that converts currency `i` into currency `j`.
    fn link(&mut self, i: usize, j: usize, conv: Conversion<R>)
        requires
            old(self).wf(),
            i < old(self).count(),
            j < old(self).count(),
        ensures
            final(self).wf(),
            final(self)@ == linked(old(self)@, old(self).name(i as int), old(self).name(j as int), conv),
            final(self).count() == old(self).count(),
            forall|x: int| 0 <= x < old(self).count() ==> final(self).name(x) == old(self).name(x),
    {
        let ghost b4 = *self;
        let found = self.slot(i, j);
        match found {
            Some(k) => {
                self.links[i][k] = (j, conv);
            },
            None => {
                self.links[i].push((j, conv));
            },
        }
        self.model = Ghost(linked(b4@, b4.name(i as int), b4.name(j as int), conv));
        let ghost ni = b4.name(i as int);
        let ghost nj = b4.name(j as int);
        assert forall|x: int| 0 <= x < self.count() implies self.name(x) == b4.name(x) by {
            assert(self.names@[x] == b4.names@[x]);
        }
        assert forall|x: int| 0 <= x < self.count() && x != i implies self.links@[x] == b4.links@[x] by {}
        assert forall|x: int, y: int| 0 <= x < y < self.count()
            implies #[trigger] self.name(x) != #[trigger] self.name(y) by {
            assert(self.name(x) == b4.name(x) && self.name(y) == b4.name(y));
            assert(b4.name(x) != b4.name(y));
        }
        assert(self.degree(i as int) > 0);
        assert forall|x: int, k: int| 0 <= x < self.count() && 0 <= k < self.degree(x)
            implies 0 <= #[trigger] self.nb(x, k) < self.count() by {
            if x != i {
                assert(self.nb(x, k) == b4.nb(x, k));
            } else if k < b4.degree(x) && self.nb(x, k) != j {
                assert(self.nb(x, k) == b4.nb(x, k));
            }
        }
        assert forall|x: int, k: int, l: int| 0 <= x < self.count() && 0 <= k < l < self.degree(x)
            implies #[trigger] self.nb(x, k) != #[trigger] self.nb(x, l) by {
            if x != i {
                assert(b4.nb(x, k) != b4.nb(x, l));
            } else {
                if l < b4.degree(x) {
                    assert(b4.nb(x, k) != b4.nb(x, l));
                    if found is Some {
                        assert(b4.nb(x, found->0 as int) == j);
                    }
                } else {
                    assert(b4.nb(x, k) != j);
                }
            }
        }
        assert forall|c: Seq<char>| #[trigger] self@.contains_key(c)
            implies exists|x: int| 0 <= x < self.count() && self.name(x) == c by {
            if c != ni {
                assert(b4@.contains_key(c));
                let x = choose|x: int| 0 <= x < b4.count() && b4.name(x) == c;
                assert(self.name(x) == c);
            } else {
                assert(self.name(i as int) == c);
            }
        }
        assert forall|x: int| 0 <= x < self.count()
            implies (#[trigger] self@.contains_key(self.name(x)) <==> self.degree(x) > 0) by {
            if x != i {
                assert(b4.name(x) != ni);
                assert(b4@.contains_key(b4.name(x)) <==> b4.degree(x) > 0);
            }
        }
        assert forall|x: int, c: Seq<char>| 0 <= x < self.count() && self@.contains_key(self.name(x))
            implies (#[trigger] self@[self.name(x)].contains_key(c)
            <==> exists|k: int| 0 <= k < self.degree(x) && self.name(self.nb(x, k)) == c) by {
            if x != i {
                assert(b4.name(x) != ni);
                assert(b4@[b4.name(x)].contains_key(c) <==> self@[self.name(x)].contains_key(c));
                if self@[self.name(x)].contains_key(c) {
                    let k = choose|k: int| 0 <= k < b4.degree(x) && b4.name(b4.nb(x, k)) == c;
                    assert(self.nb(x, k) == b4.nb(x, k));
                }
                if exists|k: int| 0 <= k < self.degree(x) && self.name(self.nb(x, k)) == c {
                    let k = choose|k: int| 0 <= k < self.degree(x) && self.name(self.nb(x, k)) == c;
                    assert(b4.name(b4.nb(x, k)) == c);
                }
            } else {
                if self@[ni].contains_key(c) {
                    if c == nj {
                        match found {
                            Some(k) => assert(self.name(self.nb(x, k as int)) == c),
                            None => assert(self.name(self.nb(x, b4.degree(x))) == c),
                        }
                    } else {
                        assert(b4@.contains_key(ni) && b4@[ni].contains_key(c));
                        let k = choose|k: int| 0 <= k < b4.degree(x) && b4.name(b4.nb(x, k)) == c;
                        assert(b4.nb(x, k) != j);
                        assert(self.nb(x, k) == b4.nb(x, k));
                    }
                }
                if exists|k: int| 0 <= k < self.degree(x) && self.name(self.nb(x, k)) == c {
                    let k = choose|k: int| 0 <= k < self.degree(x) && self.name(self.nb(x, k)) == c;
                    if c != nj {
                        assert(self.nb(x, k) != j);
                        assert(k < b4.degree(x));
                        assert(self.nb(x, k) == b4.nb(x, k));
                        assert(b4@.contains_key(ni));
                        assert(b4@[b4.name(x)].contains_key(c));
                    }
                }
            }
        }
        assert forall|x: int, k: int| 0 <= x < self.count() && 0 <= k < self.degree(x)
            implies self@[self.name(x)][self.name(#[trigger] self.nb(x, k))] == self.factor(x, k) by {
            if x != i {
                assert(b4.name(x) != ni);
                assert(self.nb(x, k) == b4.nb(x, k));
                assert(b4@[b4.name(x)][b4.name(b4.nb(x, k))] == b4.factor(x, k));
            } else if self.nb(x, k) != j {
                assert(k < b4.degree(x));
                assert(self.nb(x, k) == b4.nb(x, k));
                assert(self.name(self.nb(x, k)) != nj);
                assert(b4@[b4.name(x)][b4.name(b4.nb(x, k))] == b4.factor(x, k));
            }
        }
    }

    /// Adds the rate `rate` from `curr1` to `curr2`: one unit of `curr1` is worth
    /// `rate` units of `curr2`, and one unit of `curr2` is worth `1 / rate` units of
    /// `curr1`. A later rate for the same ordered pair replaces the earlier one.
    pub fn add(&mut self, curr1: &str, curr2: &str, rate: R)
        requires
            old(self).wf(),
        ensures
            final(self).wf(),
            final(self)@ == added(old(self)@, curr1@, curr2@, rate),
    {
        let i = self.intern(curr1);
        let j = self.intern(curr2);
        self.link(i, j, Conversion::Direct(rate));
        self.link(j, i, Conversion::Reciprocal(rate));
    }
    /// The chain of factors that converts `curr1` into `curr2` along a walk with
    /// the fewest hops, or `None` when no walk joins them. The rate is the product
    /// of the factors, starting from one: the empty chain for a currency and
    /// itself, the stored factor for a direct rate.
    pub fn get(&self, curr1: &str, curr2: &str) -> (r: Option<Vec<Conversion<R>>>)
        requires
            self.wf(),
        ensures
            answers(self@, curr1@, curr2@, chain_view(r)),
            curr1@ == curr2@ ==> chain_view(r) == Some(Seq::<Conversion<R>>::empty()),
            curr1@ != curr2@ && !self@.contains_key(curr1@) ==> r is None,
            curr1@ != curr2@ && has_edge(self@, curr1@, curr2@) ==> chain_view(r) == Some(seq![self@[curr1@][curr2@]]),
    {
        let r = self.search(curr1, curr2);
        proof {
            if curr1@ == curr2@ {
                lemma_identity(self@, curr1@, chain_view(r));
            } else {
                if !self@.contains_key(curr1@) {
                    lemma_absent(self@, curr1@, curr2@, chain_view(r));
                }
                if has_edge(self@, curr1@, curr2@) {
                    lemma_direct(self@, curr1@, curr2@, chain_view(r));
                }
            }
        }
        r
    }

    /// Breadth-first search from `curr1`, one level of hops at a time.
    fn search(&self, curr1: &str, curr2: &str) -> (r: Option<Vec<Conversion<R>>>)
        requires
            self.wf(),
        ensures
            answers(self@, curr1@, curr2@, chain_view(r)),
    {
        let ghost m = self@;
        let ghost a = curr1@;
        let ghost b = curr2@;
        if curr1.to_owned() == curr2.to_owned() {
            let r = Vec::new();
            proof {
                let w = seq![a];
                assert(is_shortest(m, w, a, b));
                assert(r@ =~= chain_of(m, w));
            }
            return Some(r);
        }
        let ia = match self.position(curr1) {
            Some(i) => i,
            None => {
                proof {
                    assert(!m.contains_key(a)) by {
                        if m.contains_key(a) {
                            let x = choose|x: int| 0 <= x < self.count() && self.name(x) == a;
                        }
                    }
                    assert forall|p: Seq<Seq<char>>| !#[trigger] is_walk(m, p, a, b) by {
                        if is_walk(m, p, a, b) {
                            assert(has_edge(m, p[0], p[0int + 1]));
                        }
                    }
                }
                return None;
            },
        };
        let ib = match self.position(curr2) {
            Some(i) => i,
            None => {
                proof {
                    assert forall|p: Seq<Seq<char>>| !#[trigger] is_walk(m, p, a, b) by {
                        if is_walk(m, p, a, b) {
                            let i = p.len() - 2;
                            assert(has_edge(m, p[i], p[i + 1]));
                            let x = choose|x: int| 0 <= x < self.count() && self.name(x) == p[i];
                            assert(m[self.name(x)].contains_key(b));
                            let k = choose|k: int| 0 <= k < self.degree(x) && self.name(self.nb(x, k)) == b;
                        }
                    }
                }
                return None;
            },
        };
        let n = self.names.len();
        let mut visited: Vec<bool> = Vec::new();
        while visited.len() < n
            invariant
                visited@.len() <= n,
                forall|x: int| 0 <= x < visited@.len() ==> !visited@[x],
            decreases n - visited@.len(),
        {
            visited.push(false);
        }
        visited[ia] = true;
        let mut frontier: Vec<(usize, Vec<Conversion<R>>)> = Vec::new();
        frontier.push((ia, Vec::new()));
        let ghost mut walks: Seq<Seq<Seq<char>>> = seq![seq![a]];
        let ghost mut d: nat = 0;
        let ghost mut marked: Set<int> = set![ia as int];
        let mut count: usize = 1;
        proof {
            assert(chain_of(m, walks[0]) =~= frontier@[0].1@);
            assert(is_walk(m, walks[0], a, self.name(frontier@[0].0 as int)));
            assert forall|x: int| 0 <= x < n implies (visited@[x] <==> within(m, a, d).contains(self.name(x))) by {
                if x != ia {
                    assert(self.name(x) != self.name(ia as int));
                }
            }
            assert(within(m, a, d).contains(a));
        }
        while frontier.len() > 0
            invariant
                self.wf(),
                m == self@,
                a == curr1@,
                b == curr2@,
                a != b,
                n == self.count(),
                ia < n,
                ib < n,
                self.name(ia as int) == a,
                self.name(ib as int) == b,
                visited@.len() == n,
                forall|x: int| 0 <= x < n ==> (visited@[x] <==> #[trigger] within(m, a, d).contains(self.name(x))),
                forall|x: int| 0 <= x < n ==> (visited@[x] <==> #[trigger] marked.contains(x)),
                forall|x: int| #[trigger] marked.contains(x) ==> 0 <= x < n,
                marked.finite(),
                count == marked.len(),
                count <= n,
                !within(m, a, d).contains(b),
                walks.len() == frontier@.len(),
                forall|t: int| 0 <= t < frontier@.len() ==> {
                    &&& (#[trigger] frontier@[t]).0 < n
                    &&& is_walk(m, walks[t], a, self.name(frontier@[t].0 as int))
                    &&& walks[t].len() == d + 1
                    &&& frontier@[t].1@ == chain_of(m, walks[t])
                },
                forall|v: Seq<char>| #[trigger] within(m, a, d).contains(v) ==>
                    (d > 0 && within(m, a, (d - 1) as nat).contains(v))
                    || exists|t: int| 0 <= t < frontier@.len() && self.name(frontier@[t].0 as int) == v,
                forall|v: Seq<char>| #[trigger] within(m, a, d).contains(v) ==> exists|x: int| 0 <= x < n && self.name(x) == v,
            decreases n - count + if frontier@.len() > 0 { 1int } else { 0int },
        {
            let mut next: Vec<(usize, Vec<Conversion<R>>)> = Vec::new();
            let ghost mut next_walks: Seq<Seq<Seq<char>>> = Seq::empty();
            let ghost mut fresh: Set<Seq<char>> = Set::empty();
            let ghost count0 = count;
            let mut t: usize = 0;
            while t < frontier.len()
                invariant
                    self.wf(),
                    m == self@,
                    a == curr1@,
                    b == curr2@,
                    a != b,
                    n == self.count(),
                    ib < n,
                    self.name(ib as int) == b,
                    t <= frontier@.len(),
                    visited@.len() == n,
                    forall|x: int| 0 <= x < n ==> (visited@[x] <==>
                        (within(m, a, d).contains(#[trigger] self.name(x)) || fresh.contains(self.name(x)))),
                    forall|x: int| 0 <= x < n ==> (visited@[x] <==> #[trigger] marked.contains(x)),
                    forall|x: int| #[trigger] marked.contains(x) ==> 0 <= x < n,
                    marked.finite(),
                    count == marked.len(),
                    count >= count0,
                    next@.len() == count - count0,
                    !within(m, a, d).contains(b),
                    !fresh.contains(b),
                    walks.len() == frontier@.len(),
                    forall|s: int| 0 <= s < frontier@.len() ==> {
                        &&& (#[trigger] frontier@[s]).0 < n
                        &&& is_walk(m, walks[s], a, self.name(frontier@[s].0 as int))
                        &&& walks[s].len() == d + 1
                        &&& frontier@[s].1@ == chain_of(m, walks[s])
                    },
                    next_walks.len() == next@.len(),
                    forall|s: int| 0 <= s < next@.len() ==> {
                        &&& (#[trigger] next@[s]).0 < n
                        &&& is_walk(m, next_walks[s], a, self.name(next@[s].0 as int))
                        &&& next_walks[s].len() == d + 2
                        &&& next@[s].1@ == chain_of(m, next_walks[s])
                    },
                    forall|v: Seq<char>| #[trigger] fresh.contains(v) ==>
                        exists|s: int| 0 <= s < next@.len() && self.name(next@[s].0 as int) == v,
                    forall|v: Seq<char>| #[trigger] fresh.contains(v) ==> within(m, a, d + 1).contains(v),
                    forall|s: int, v: Seq<char>| 0 <= s < t && #[trigger] has_edge(m, self.name(frontier@[s].0 as int), v) ==>
                        within(m, a, d).contains(v) || fresh.contains(v),
                decreases frontier@.len() - t,
            {
                let u = frontier[t].0;
                let row = &self.links[u];
                let mut k: usize = 0;
                while k < row.len()
                    invariant
                        self.wf(),
                        m == self@,
                        a == curr1@,
                        b == curr2@,
                        a != b,
                        n == self.count(),
                        ib < n,
                        self.name(ib as int) == b,
                        t < frontier@.len(),
                        u == frontier@[t as int].0,
                        u < n,
                        row@ == self.links@[u as int]@,
                        k <= row@.len(),
                        visited@.len() == n,
                        forall|x: int| 0 <= x < n ==> (visited@[x] <==>
                            (within(m, a, d).contains(#[trigger] self.name(x)) || fresh.contains(self.name(x)))),
                        forall|x: int| 0 <= x < n ==> (visited@[x] <==> #[trigger] marked.contains(x)),
                        forall|x: int| #[trigger] marked.contains(x) ==> 0 <= x < n,
                        marked.finite(),
                        count == marked.len(),
                        count >= count0,
                        next@.len() == count - count0,
                        !within(m, a, d).contains(b),
                        !fresh.contains(b),
                        walks.len() == frontier@.len(),
                        forall|s: int| 0 <= s < frontier@.len() ==> {
                            &&& (#[trigger] frontier@[s]).0 < n
                            &&& is_walk(m, walks[s], a, self.name(frontier@[s].0 as int))
                            &&& walks[s].len() == d + 1
                            &&& frontier@[s].1@ == chain_of(m, walks[s])
                        },
                        next_walks.len() == next@.len(),
                        forall|s: int| 0 <= s < next@.len() ==> {
                            &&& (#[trigger] next@[s]).0 < n
                            &&& is_walk(m, next_walks[s], a, self.name(next@[s].0 as int))
                            &&& next_walks[s].len() == d + 2
                            &&& next@[s].1@ == chain_of(m, next_walks[s])
                        },
                        forall|v: Seq<char>| #[trigger] fresh.contains(v) ==>
                            exists|s: int| 0 <= s < next@.len() && self.name(next@[s].0 as int) == v,
                        forall|v: Seq<char>| #[trigger] fresh.contains(v) ==> within(m, a, d + 1).contains(v),
                        forall|s: int, v: Seq<char>| 0 <= s < t && #[trigger] has_edge(m, self.name(frontier@[s].0 as int), v) ==>
                            within(m, a, d).contains(v) || fresh.contains(v),
                        forall|l: int| 0 <= l < k ==> within(m, a, d).contains(#[trigger] self.name(self.nb(u as int, l)))
                            || fresh.contains(self.name(self.nb(u as int, l))),
                    decreases row@.len() - k,
                {
                    let v = row[k].0;
                    let conv = row[k].1;
                    let ghost w = walks[t as int];
                    let ghost wv = w.push(self.name(v as int));
                    proof {
                        assert(v == self.nb(u as int, k as int));
                        assert(conv == self.factor(u as int, k as int));
                        assert(m.contains_key(self.name(u as int)));
                        assert(m[self.name(u as int)].contains_key(self.name(v as int)));
                        assert forall|i: int| 0 <= i < wv.len() - 1 implies #[trigger] has_edge(m, wv[i], wv[i + 1]) by {
                            if i < w.len() - 1 {
                                assert(has_edge(m, w[i], w[i + 1]));
                            }
                        }
                        assert(is_walk(m, wv, a, self.name(v as int)));
                        assert(chain_of(m, wv) =~= chain_of(m, w).push(conv));
                        assert(within(m, a, d).contains(self.name(u as int))) by {
                            lemma_walk_within(m, w, a, self.name(u as int));
                        }
                        assert(has_edge(m, self.name(u as int), self.name(v as int)));
                        assert(within(m, a, d + 1) == within(m, a, d).union(Set::new(|v2: Seq<char>|
                            exists|u2: Seq<char>| within(m, a, d).contains(u2) && #[trigger] has_edge(m, u2, v2))));
                        assert(within(m, a, d + 1).contains(self.name(v as int)));
                    }
                    if v == ib {
                        let chain = extended(&frontier[t].1, conv);
                        proof {
                            assert forall|q: Seq<Seq<char>>| #[trigger] is_walk(m, q, a, b) implies wv.len() <= q.len() by {
                                lemma_no_shorter(m, a, b, d, q);
                            }
                            assert(is_shortest(m, wv, a, b));
                        }
                        return Some(chain);
                    }
                    if !visited[v] {
                        proof {
                            assert(!marked.contains(v as int));
                            assert(marked.subset_of(set_int_range(0, n as int)));
                            lemma_int_range(0, n as int);
                            lemma_len_subset(marked.insert(v as int), set_int_range(0, n as int));
                        }
                        visited[v] = true;
                        let chain = extended(&frontier[t].1, conv);
                        let ghost old_next = next@;
                        next.push((v, chain));
                        count = count + 1;
                        proof {
                            let fresh0 = fresh;
                            marked = marked.insert(v as int);
                            fresh = fresh.insert(self.name(v as int));
                            next_walks = next_walks.push(wv);
                            let last = next@.len() - 1;
                            assert(next@[last].0 == v);
                            assert forall|v2: Seq<char>| #[trigger] fresh.contains(v2) implies
                                exists|s: int| 0 <= s < next@.len() && self.name(next@[s].0 as int) == v2 by {
                                if v2 == self.name(v as int) {
                                    assert(self.name(next@[last].0 as int) == v2);
                                } else {
                                    assert(fresh0.contains(v2));
                                    let s = choose|s: int| 0 <= s < last && self.name(old_next[s].0 as int) == v2;
                                    assert(next@[s] == old_next[s]);
                                }
                            }
                            assert forall|x: int| 0 <= x < n && x != v implies self.name(x) != self.name(v as int) by {
                                if x < v {
                                    assert(self.name(x) != self.name(v as int));
                                } else {
                                    assert(self.name(v as int) != self.name(x));
                                }
                            }
                        }
                    }
                    k = k + 1;
                }
                proof {
                    let nu = self.name(u as int);
                    assert forall|s: int, v: Seq<char>| 0 <= s < t + 1 && #[trigger] has_edge(m, self.name(frontier@[s].0 as int), v)
                        implies within(m, a, d).contains(v) || fresh.contains(v) by {
                        if s == t {
                            let l = choose|l: int| 0 <= l < self.degree(u as int) && self.name(self.nb(u as int, l)) == v;
                            assert(within(m, a, d).contains(self.name(self.nb(u as int, l)))
                                || fresh.contains(self.name(self.nb(u as int, l))));
                        }
                    }
                }
                t = t + 1;
            }
            proof {
                let dn = d + 1;
                assert forall|v: Seq<char>| #[trigger] within(m, a, dn).contains(v)
                    implies within(m, a, d).contains(v) || fresh.contains(v) by {
                    if !within(m, a, d).contains(v) {
                        let u = choose|u: Seq<char>| within(m, a, d).contains(u) && #[trigger] has_edge(m, u, v);
                        if d > 0 && within(m, a, (d - 1) as nat).contains(u) {
                            assert(within(m, a, d).contains(v));
                        } else {
                            let s = choose|s: int| 0 <= s < frontier@.len() && self.name(frontier@[s].0 as int) == u;
                            assert(has_edge(m, self.name(frontier@[s].0 as int), v));
                        }
                    }
                }
                lemma_within_mono(m, a, d, dn);
            }
            frontier = next;
            proof {
                assert(marked.subset_of(set_int_range(0, n as int)));
                lemma_int_range(0, n as int);
                lemma_len_subset(marked, set_int_range(0, n as int));
                walks = next_walks;
                d = d + 1;
                assert forall|v: Seq<char>| #[trigger] within(m, a, d).contains(v)
                    implies exists|x: int| 0 <= x < n && self.name(x) == v by {
                    if fresh.contains(v) {
                        let s = choose|s: int| 0 <= s < frontier@.len() && self.name(frontier@[s].0 as int) == v;
                        assert(frontier@[s].0 < n);
                    }
                }
            }
        }
        proof {
            assert(d > 0);
            let d0 = (d - 1) as nat;
            lemma_within_mono(m, a, d0, d);
            assert(within(m, a, d) =~= within(m, a, d0));
            lemma_unreachable(m, a, b, d0);
        }
        None
    }
}


} // verus!
