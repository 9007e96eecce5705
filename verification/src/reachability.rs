//! A graph over type nodes whose edge relation is kept transitively closed:
//! adding an edge also adds every edge that it implies, each carrying a value
//! that the caller's edge type computes. Changes made after `save` can be
//! undone with `revert` or kept with `make_permanent`.

use vstd::prelude::*;
use std::collections::HashMap;

verus! {

broadcast use vstd::std_specs::hash::group_hash_axioms;

/// The index of a node in a `Reachability` graph.
#[derive(Copy, Clone, Debug, PartialEq, Eq, PartialOrd, Ord, Hash, Structural)]
pub struct TypeNodeInd(pub usize);

/// Data attached to each node. `truncate` is called on the data of every
/// node that survives a `revert`, with the number of nodes that survive;
/// `truncate_spec` is what an implementation states of it: the data before,
/// that number, and the data after. An implementation that states nothing
/// keeps the default, which holds of every call.
pub trait ExtNodeDataTrait: Sized {
    open spec fn truncate_spec(before: Self, i: TypeNodeInd, after: Self) -> bool {
        true
    }

    fn truncate(&mut self, i: TypeNodeInd)
        ensures
            Self::truncate_spec(*old(self), i, *final(self)),
    ;
}

/// Data attached to each edge.
///
/// `update` merges another value into this one and reports whether this one
/// changed; `update_spec` is what an implementation states of it: the value
/// before, the value merged in, the value after and the report. `expand`
/// gives the value that an edge passes on through the given node, as
/// `expand_spec` names it. For
/// `add_edge` to finish, a change must lower the value in a well-founded
/// order: `rank` names that order, and clones keep their rank.
pub trait EdgeDataTrait<N>: Clone + Sized {
    spec fn rank(&self) -> nat;

    spec fn update_spec(before: Self, other: Self, after: Self, changed: bool) -> bool;

    proof fn lemma_clone_keeps_rank(a: Self, b: Self)
        requires
            cloned(a, b),
        ensures
            a.rank() == b.rank(),
    ;

    fn update(&mut self, other: &Self) -> (changed: bool)
        ensures
            changed ==> final(self).rank() < old(self).rank(),
            Self::update_spec(*old(self), *other, *final(self), changed),
    ;

    spec fn expand_spec(self, hole: N, ind: TypeNodeInd) -> Self;

    fn expand(self, hole: &N, ind: TypeNodeInd) -> (r: Self)
        ensures
            r == self.expand_spec(*hole, ind),
    ;
}

/// Edges that carry a weight, of which the least seen is kept and passed on
/// unchanged.
impl<N> EdgeDataTrait<N> for u64 {
    open spec fn rank(&self) -> nat {
        *self as nat
    }

    /// The smaller value is kept, and a change is reported exactly when the
    /// merged value is smaller.
    open spec fn update_spec(before: Self, other: Self, after: Self, changed: bool) -> bool {
        &&& changed == (other < before)
        &&& after == if other < before {
            other
        } else {
            before
        }
    }

    /// The value is passed on unchanged.
    open spec fn expand_spec(self, hole: N, ind: TypeNodeInd) -> Self {
        self
    }

    proof fn lemma_clone_keeps_rank(a: Self, b: Self) {
    }

    fn update(&mut self, other: &Self) -> (changed: bool) {
        if *other < *self {
            *self = *other;
            true
        } else {
            false
        }
    }

    fn expand(self, hole: &N, ind: TypeNodeInd) -> (r: Self)
        ensures
            r == self,
    {
        self
    }
}

/// A map from node indices that remembers the order in which its keys were
/// first inserted.
struct OrderedMap<V> {
    keys: Vec<usize>,
    m: HashMap<usize, V>,
}

/// The part of a map whose keys are below `i`.
pub open spec fn keys_below<V>(m: Map<usize, V>, i: usize) -> Map<usize, V> {
    Map::new(|k: usize| m.contains_key(k) && k < i, |k: usize| m[k])
}

proof fn lemma_push_contains<T>(s: Seq<T>, v: T)
    ensures
        forall|x: T| #[trigger] s.push(v).contains(x) <==> s.contains(x) || x == v,
{
    assert forall|x: T| #[trigger] s.push(v).contains(x) <==> s.contains(x) || x == v by {
        if s.push(v).contains(x) && x != v {
            let t = choose|t: int| 0 <= t < s.push(v).len() && s.push(v)[t] == x;
            assert(s[t] == x);
        }
        if s.contains(x) {
            let t = choose|t: int| 0 <= t < s.len() && s[t] == x;
            assert(s.push(v)[t] == x);
        }
        if x == v {
            assert(s.push(v)[s.len() as int] == v);
        }
    }
}

proof fn lemma_push_no_duplicates<T>(s: Seq<T>, v: T)
    requires
        s.no_duplicates(),
        !s.contains(v),
    ensures
        s.push(v).no_duplicates(),
{
    assert forall|a: int, b: int|
        0 <= a < s.push(v).len() && 0 <= b < s.push(v).len() && a != b implies s.push(v)[a] != s.push(
        v,
    )[b] by {
        if a == s.len() {
            assert(s[b] == s.push(v)[b]);
        } else if b == s.len() {
            assert(s[a] == s.push(v)[a]);
        }
    }
}

impl<V> OrderedMap<V> {
    /// The key list holds each key of the map once, and nothing else.
    spec fn wf(&self) -> bool {
        &&& self.keys@.no_duplicates()
        &&& forall|k: usize|
            #![trigger self.keys@.contains(k)]
            #![trigger self.m@.contains_key(k)]
            self.keys@.contains(k) <==> self.m@.contains_key(k)
    }

    /// The key list holds each key of the map once, and maybe keys that
    /// have since been removed from the map.
    spec fn listed(&self) -> bool {
        &&& self.keys@.no_duplicates()
        &&& forall|k: usize| #[trigger] self.m@.contains_key(k) ==> self.keys@.contains(k)
    }

    fn new() -> (r: Self)
        ensures
            r.wf(),
            r.m@ == Map::<usize, V>::empty(),
    {
        OrderedMap { keys: Vec::new(), m: HashMap::new() }
    }

    fn insert(&mut self, k: usize, v: V) -> (prev: Option<V>)
        requires
            old(self).wf(),
        ensures
            final(self).wf(),
            final(self).m@ == old(self).m@.insert(k, v),
            match prev {
                Some(p) => old(self).m@.contains_key(k) && p == old(self).m@[k],
                None => !old(self).m@.contains_key(k),
            },
            final(self).keys@ == if prev is None {
                old(self).keys@.push(k)
            } else {
                old(self).keys@
            },
    {
        let prev = self.m.insert(k, v);
        if prev.is_none() {
            self.keys.push(k);
            proof {
                assert forall|x: usize| self.keys@.contains(x) <==> self.m@.contains_key(x) by {
                    if x != k && self.keys@.contains(x) {
                        let t = choose|t: int| 0 <= t < self.keys@.len() && self.keys@[t] == x;
                        assert(old(self).keys@[t] == x);
                    }
                    if x != k && old(self).keys@.contains(x) {
                        let t = choose|t: int| 0 <= t < old(self).keys@.len() && old(self).keys@[t] == x;
                        assert(self.keys@[t] == x);
                    }
                    if x == k {
                        assert(self.keys@[self.keys@.len() - 1] == k);
                    }
                }
            }
        }
        prev
    }

    fn iter_keys(&self) -> (r: &Vec<usize>)
        ensures
            r@ == self.keys@,
    {
        &self.keys
    }

    /// Drops the keys from `i` on, and forgets listed keys that the map no
    /// longer holds; the remaining keys keep their order.
    fn retain_below(&mut self, i: usize)
        requires
            old(self).listed(),
        ensures
            final(self).wf(),
            final(self).m@ == keys_below(old(self).m@, i),
            final(self).keys@ == old(self).keys@.filter(|k: usize| k < i && old(self).m@.contains_key(k)),
    {
        let mut new_keys: Vec<usize> = Vec::new();
        let mut j: usize = 0;
        while j < self.keys.len()
            invariant
                j <= self.keys@.len(),
                self.keys == old(self).keys,
                old(self).listed(),
                forall|x: usize|
                    #[trigger] self.m@.contains_key(x) <==> old(self).m@.contains_key(x) && !(x >= i
                        && self.keys@.subrange(0, j as int).contains(x)),
                forall|x: usize| #[trigger] self.m@.contains_key(x) ==> self.m@[x] == old(self).m@[x],
                new_keys@.no_duplicates(),
                forall|x: usize|
                    #[trigger] new_keys@.contains(x) <==> x < i && old(self).m@.contains_key(x)
                        && self.keys@.subrange(0, j as int).contains(x),
                new_keys@ == self.keys@.subrange(0, j as int).filter(
                    |k: usize| k < i && old(self).m@.contains_key(k),
                ),
            decreases self.keys@.len() - j,
        {
            let k = self.keys[j];
            let ghost seen = self.keys@.subrange(0, j as int);
            proof {
                reveal(Seq::filter);
                assert(self.keys@.subrange(0, j + 1) =~= seen.push(k));
                assert(seen.push(k).drop_last() =~= seen);
                lemma_push_contains(seen, k);
                if seen.contains(k) {
                    let t = choose|t: int| 0 <= t < j && seen[t] == k;
                    assert(self.keys@[t] == self.keys@[j as int]);
                }
            }
            if k < i {
                if self.m.contains_key(&k) {
                    proof {
                        lemma_push_contains(new_keys@, k);
                        lemma_push_no_duplicates(new_keys@, k);
                    }
                    new_keys.push(k);
                }
            } else {
                self.m.remove(&k);
            }
            j = j + 1;
        }
        proof {
            assert(self.keys@.subrange(0, self.keys@.len() as int) =~= self.keys@);
        }
        self.keys = new_keys;
        proof {
            assert(old(self).keys@.subrange(0, old(self).keys@.len() as int) =~= old(self).keys@);
            assert(self.m@ =~= keys_below(old(self).m@, i));
        }
    }
}

struct ReachabilityNode<N, E> {
    data: N,
    flows_from: OrderedMap<E>,
    flows_to: OrderedMap<E>,
}

impl<N: ExtNodeDataTrait, E> ReachabilityNode<N, E> {
    /// Lets the data know how many nodes survive, and drops the edges to
    /// nodes that do not.
    fn fix_and_truncate(&mut self, i: TypeNodeInd)
        requires
            old(self).flows_from.listed(),
            old(self).flows_to.listed(),
        ensures
            final(self).flows_from.wf(),
            final(self).flows_to.wf(),
            final(self).flows_from.m@ == keys_below(old(self).flows_from.m@, i.0),
            final(self).flows_to.m@ == keys_below(old(self).flows_to.m@, i.0),
            N::truncate_spec(old(self).data, i, final(self).data),
    {
        self.data.truncate(i);
        self.flows_from.retain_below(i.0);
        self.flows_to.retain_below(i.0);
    }
}

/// A graph over nodes carrying `N`, with edges carrying `E`.
pub struct Reachability<N, E> {
    nodes: Vec<ReachabilityNode<N, E>>,
    rewind_mark: TypeNodeInd,
    journal: Vec<(TypeNodeInd, TypeNodeInd, Option<E>)>,
    saved: Ghost<Map<(usize, usize), E>>,
}

impl<N, E> Reachability<N, E> {
    /// The number of nodes.
    pub closed spec fn size(&self) -> nat {
        self.nodes@.len()
    }

    /// The data of each node.
    pub closed spec fn data(&self) -> Seq<N> {
        self.nodes@.map_values(|n: ReachabilityNode<N, E>| n.data)
    }

    /// The edges, each from its left node to its right node, with its value.
    pub closed spec fn edges(&self) -> Map<(usize, usize), E> {
        Map::new(
            |p: (usize, usize)|
                p.0 < self.nodes@.len() && self.nodes@[p.0 as int].flows_to.m@.contains_key(p.1),
            |p: (usize, usize)| self.nodes@[p.0 as int].flows_to.m@[p.1],
        )
    }
}

/// Whether the relation is transitively closed.
pub open spec fn transitive(d: Set<(usize, usize)>) -> bool {
    forall|a: usize, b: usize, c: usize|
        #![trigger d.contains((a, b)), d.contains((b, c))]
        d.contains((a, b)) && d.contains((b, c)) ==> d.contains((a, c))
}

/// What adding an edge implies is closed: added to a transitively closed
/// relation, the implied edges leave it transitively closed.
pub proof fn lemma_closure_pairs_closed(d: Set<(usize, usize)>, l: usize, r: usize)
    requires
        transitive(d),
    ensures
        transitive(d.union(closure_pairs(d, l, r))),
{
    let t = d.union(closure_pairs(d, l, r));
    assert forall|a: usize, b: usize, c: usize| t.contains((a, b)) && t.contains((b, c)) implies t.contains(
        (a, c),
    ) by {
        if d.contains((a, b)) && d.contains((b, c)) {
        } else if d.contains((a, b)) {
            if b != l {
                assert(d.contains((b, l)));
            }
        } else if d.contains((b, c)) {
            if b != r {
                assert(d.contains((r, b)));
            }
        }
    }
}

/// What adding an edge implies is the least it must be: every transitively
/// closed relation that holds the old edges and the new one holds it.
pub proof fn lemma_closure_pairs_least(
    d: Set<(usize, usize)>,
    l: usize,
    r: usize,
    t: Set<(usize, usize)>,
)
    requires
        d.subset_of(t),
        t.contains((l, r)),
        transitive(t),
    ensures
        closure_pairs(d, l, r).subset_of(t),
{
    assert forall|p: (usize, usize)| #[trigger] closure_pairs(d, l, r).contains(p) implies t.contains(p) by {
        if p.0 != l {
            assert(t.contains((p.0, l)));
            assert(t.contains((p.0, r)));
        }
        if p.1 != r {
            assert(t.contains((r, p.1)));
            assert(t.contains((p.0, r)));
        }
    }
}

/// The edges between nodes below `k`.
spec fn below<E>(m: Map<(usize, usize), E>, k: nat) -> Map<(usize, usize), E> {
    Map::new(|p: (usize, usize)| m.contains_key(p) && p.0 < k && p.1 < k, |p: (usize, usize)| m[p])
}

/// Undoes one recorded change: puts back the value that an edge had, or
/// removes an edge that did not exist.
spec fn undo_step<E>(m: Map<(usize, usize), E>, e: (usize, usize, Option<E>)) -> Map<(usize, usize), E> {
    match e.2 {
        Some(v) => m.insert((e.0, e.1), v),
        None => m.remove((e.0, e.1)),
    }
}

/// Undoes recorded changes, latest first.
spec fn undo<E>(m: Map<(usize, usize), E>, j: Seq<(usize, usize, Option<E>)>) -> Map<(usize, usize), E>
    decreases j.len(),
{
    if j.len() == 0 {
        m
    } else {
        undo(undo_step(m, j.last()), j.drop_last())
    }
}

/// Every value to be put back, latest first, belongs to an edge that exists
/// at that point.
spec fn replayable<E>(m: Map<(usize, usize), E>, j: Seq<(usize, usize, Option<E>)>) -> bool
    decreases j.len(),
{
    if j.len() == 0 {
        true
    } else {
        &&& (j.last().2 is Some ==> m.contains_key((j.last().0, j.last().1)))
        &&& replayable(undo_step(m, j.last()), j.drop_last())
    }
}

/// The edges that adding an edge from `l` to `r` to the transitively closed
/// relation `d` implies: from `l` or anything that reaches `l`, to `r` or
/// anything that `r` reaches.
pub open spec fn closure_pairs(d: Set<(usize, usize)>, l: usize, r: usize) -> Set<(usize, usize)> {
    Set::new(
        |p: (usize, usize)| (p.0 == l || d.contains((p.0, l))) && (p.1 == r || d.contains((r, p.1))),
    )
}

/// The pairs of nodes named by pending work items.
spec fn work_pairs<E>(w: Seq<(TypeNodeInd, TypeNodeInd, E)>) -> Set<(usize, usize)> {
    Set::new(
        |p: (usize, usize)|
            exists|k: int| 0 <= k < w.len() && (#[trigger] w[k]).0.0 == p.0 && w[k].1.0 == p.1,
    )
}

/// Transitively closed, but for the pairs that are still pending.
spec fn closed_upto(d: Set<(usize, usize)>, pend: Set<(usize, usize)>) -> bool {
    forall|a: usize, b: usize, c: usize|
        #![trigger d.contains((a, b)), d.contains((b, c))]
        d.contains((a, b)) && d.contains((b, c)) ==> d.contains((a, c)) || pend.contains((a, c))
}

spec fn row_sum(w: spec_fn(int, int) -> nat, i: int, j: nat) -> nat
    decreases j,
{
    if j == 0 {
        0
    } else {
        row_sum(w, i, (j - 1) as nat) + w(i, j - 1)
    }
}

/// The sum of a weight over the grid `[0, rows) x [0, cols)`.
spec fn grid_sum(w: spec_fn(int, int) -> nat, rows: nat, cols: nat) -> nat
    decreases rows,
{
    if rows == 0 {
        0
    } else {
        grid_sum(w, (rows - 1) as nat, cols) + row_sum(w, rows - 1, cols)
    }
}

proof fn lemma_row_sum_change(w1: spec_fn(int, int) -> nat, w2: spec_fn(int, int) -> nat, i: int, j: nat, c: int)
    requires
        forall|k: int| 0 <= k < j && k != c ==> #[trigger] w1(i, k) == w2(i, k),
    ensures
        0 <= c < j ==> row_sum(w2, i, j) == row_sum(w1, i, j) - w1(i, c) + w2(i, c),
        !(0 <= c < j) ==> row_sum(w2, i, j) == row_sum(w1, i, j),
    decreases j,
{
    if j > 0 {
        lemma_row_sum_change(w1, w2, i, (j - 1) as nat, c);
    }
}

proof fn lemma_grid_sum_change(
    w1: spec_fn(int, int) -> nat,
    w2: spec_fn(int, int) -> nat,
    rows: nat,
    cols: nat,
    r: int,
    c: int,
)
    requires
        forall|i: int, k: int|
            0 <= i < rows && 0 <= k < cols && !(i == r && k == c) ==> #[trigger] w1(i, k) == w2(i, k),
    ensures
        0 <= r < rows && 0 <= c < cols ==> grid_sum(w2, rows, cols) == grid_sum(w1, rows, cols)
            - w1(r, c) + w2(r, c),
        !(0 <= r < rows && 0 <= c < cols) ==> grid_sum(w2, rows, cols) == grid_sum(w1, rows, cols),
    decreases rows,
{
    if rows > 0 {
        lemma_grid_sum_change(w1, w2, (rows - 1) as nat, cols, r, c);
        if rows - 1 == r && 0 <= c < cols {
            lemma_row_sum_change(w1, w2, r, cols, c);
        } else {
            lemma_row_sum_change(w1, w2, rows - 1, cols, -1);
        }
    }
}

/// Which pairs of the grid have no edge.
spec fn absent_weight<E>(m: Map<(usize, usize), E>) -> spec_fn(int, int) -> nat {
    |i: int, j: int| if m.contains_key((i as usize, j as usize)) { 0nat } else { 1nat }
}

/// The rank of the edge of each pair of the grid, 0 where there is none.
spec fn rank_weight<N, E: EdgeDataTrait<N>>(m: Map<(usize, usize), E>) -> spec_fn(int, int) -> nat {
    |i: int, j: int|
        if m.contains_key((i as usize, j as usize)) {
            m[(i as usize, j as usize)].rank()
        } else {
            0nat
        }
}

/// Setting one edge of the grid: a new edge lowers the number of missing
/// ones; a changed edge changes the sum of ranks by its own change.
proof fn lemma_measure_insert<N, E: EdgeDataTrait<N>>(
    m: Map<(usize, usize), E>,
    n: nat,
    p: (usize, usize),
    v: E,
)
    requires
        p.0 < n,
        p.1 < n,
        n <= usize::MAX,
    ensures
        !m.contains_key(p) ==> grid_sum(absent_weight(m.insert(p, v)), n, n) + 1 == grid_sum(
            absent_weight(m),
            n,
            n,
        ),
        m.contains_key(p) ==> grid_sum(absent_weight(m.insert(p, v)), n, n) == grid_sum(
            absent_weight(m),
            n,
            n,
        ),
        m.contains_key(p) ==> grid_sum(rank_weight::<N, E>(m.insert(p, v)), n, n) + m[p].rank()
            == grid_sum(rank_weight::<N, E>(m), n, n) + v.rank(),
{
    let m2 = m.insert(p, v);
    assert forall|i: int, k: int|
        0 <= i < n && 0 <= k < n && !(i == p.0 && k == p.1) implies #[trigger] absent_weight(m)(i, k)
        == absent_weight(m2)(i, k) && rank_weight::<N, E>(m)(i, k) == rank_weight::<N, E>(m2)(
        i,
        k,
    ) by {
        assert((i as usize, k as usize) != p);
    }
    lemma_grid_sum_change(absent_weight(m), absent_weight(m2), n, n, p.0 as int, p.1 as int);
    lemma_grid_sum_change(
        rank_weight::<N, E>(m),
        rank_weight::<N, E>(m2),
        n,
        n,
        p.0 as int,
        p.1 as int,
    );
}

proof fn lemma_work_pairs_pop<E>(w: Seq<(TypeNodeInd, TypeNodeInd, E)>)
    requires
        w.len() > 0,
    ensures
        forall|p: (usize, usize)|
            #[trigger] work_pairs(w).contains(p) && p != (w.last().0.0, w.last().1.0) ==> work_pairs(
                w.drop_last(),
            ).contains(p),
{
    assert forall|p: (usize, usize)|
        #[trigger] work_pairs(w).contains(p) && p != (w.last().0.0, w.last().1.0) implies work_pairs(
        w.drop_last(),
    ).contains(p) by {
        let k = choose|k: int| 0 <= k < w.len() && (#[trigger] w[k]).0.0 == p.0 && w[k].1.0 == p.1;
        assert(k != w.len() - 1);
        assert(w.drop_last()[k] == w[k]);
    }
}

/// A pending pair whose edge exists is no longer needed.
proof fn lemma_closed_pop(
    d: Set<(usize, usize)>,
    pend_old: Set<(usize, usize)>,
    pend_mid: Set<(usize, usize)>,
    l: usize,
    r: usize,
)
    requires
        closed_upto(d, pend_old),
        d.contains((l, r)),
        forall|p: (usize, usize)| #[trigger] pend_old.contains(p) && p != (l, r) ==> pend_mid.contains(p),
    ensures
        closed_upto(d, pend_mid),
{
    assert forall|a: usize, b: usize, c: usize|
        d.contains((a, b)) && d.contains((b, c)) implies d.contains((a, c)) || pend_mid.contains(
        (a, c),
    ) by {
        if !d.contains((a, c)) {
            assert(pend_old.contains((a, c)));
        }
    }
}

/// Adding the edge `(l, r)` keeps the relation closed up to what is pending,
/// once every pair that the new edge implies in one step is pending.
proof fn lemma_closed_step(
    d: Set<(usize, usize)>,
    pend_old: Set<(usize, usize)>,
    pend_new: Set<(usize, usize)>,
    l: usize,
    r: usize,
)
    requires
        closed_upto(d, pend_old),
        forall|p: (usize, usize)| #[trigger] pend_old.contains(p) && p != (l, r) ==> pend_new.contains(p),
        forall|a: usize| #[trigger] d.insert((l, r)).contains((a, l)) ==> pend_new.contains((a, r)),
        forall|c: usize| #[trigger] d.insert((l, r)).contains((r, c)) ==> pend_new.contains((l, c)),
    ensures
        closed_upto(d.insert((l, r)), pend_new),
{
    let d2 = d.insert((l, r));
    assert forall|a: usize, b: usize, c: usize|
        d2.contains((a, b)) && d2.contains((b, c)) implies d2.contains((a, c)) || pend_new.contains(
        (a, c),
    ) by {
        if a == l && b == r {
            assert(d2.contains((r, c)));
        } else if b == l && c == r {
            assert(d2.contains((a, l)));
        } else {
            assert(d.contains((a, b)) && d.contains((b, c)));
            if !d.contains((a, c)) && (a, c) != (l, r) {
                assert(pend_old.contains((a, c)));
            }
        }
    }
}

/// Queues an item from each of `keys` to `rhs`.
fn push_sources<E: Clone>(
    work: &mut Vec<(TypeNodeInd, TypeNodeInd, E)>,
    keys: &Vec<usize>,
    rhs: TypeNodeInd,
    temp: &E,
)
    ensures
        final(work)@.len() == old(work)@.len() + keys@.len(),
        forall|k: int| 0 <= k < old(work)@.len() ==> final(work)@[k] == old(work)@[k],
        forall|j: int|
            0 <= j < keys@.len() ==> (#[trigger] final(work)@[old(work)@.len() + j]).0.0 == keys@[j]
                && final(work)@[old(work)@.len() + j].1 == rhs
                && cloned(*temp, final(work)@[old(work)@.len() + j].2),
{
    let mut j: usize = 0;
    while j < keys.len()
        invariant
            j <= keys@.len(),
            work@.len() == old(work)@.len() + j,
            forall|k: int| 0 <= k < old(work)@.len() ==> work@[k] == old(work)@[k],
            forall|i: int|
                0 <= i < j ==> (#[trigger] work@[old(work)@.len() + i]).0.0 == keys@[i]
                    && work@[old(work)@.len() + i].1 == rhs
                    && cloned(*temp, work@[old(work)@.len() + i].2),
        decreases keys@.len() - j,
    {
        work.push((TypeNodeInd(keys[j]), rhs, temp.clone()));
        j = j + 1;
    }
}

/// Queues an item from `lhs` to each of `keys`.
fn push_targets<E: Clone>(
    work: &mut Vec<(TypeNodeInd, TypeNodeInd, E)>,
    lhs: TypeNodeInd,
    keys: &Vec<usize>,
    temp: &E,
)
    ensures
        final(work)@.len() == old(work)@.len() + keys@.len(),
        forall|k: int| 0 <= k < old(work)@.len() ==> final(work)@[k] == old(work)@[k],
        forall|j: int|
            0 <= j < keys@.len() ==> (#[trigger] final(work)@[old(work)@.len() + j]).1.0 == keys@[j]
                && final(work)@[old(work)@.len() + j].0 == lhs
                && cloned(*temp, final(work)@[old(work)@.len() + j].2),
{
    let mut j: usize = 0;
    while j < keys.len()
        invariant
            j <= keys@.len(),
            work@.len() == old(work)@.len() + j,
            forall|k: int| 0 <= k < old(work)@.len() ==> work@[k] == old(work)@[k],
            forall|i: int|
                0 <= i < j ==> (#[trigger] work@[old(work)@.len() + i]).1.0 == keys@[i]
                    && work@[old(work)@.len() + i].0 == lhs
                    && cloned(*temp, work@[old(work)@.len() + i].2),
        decreases keys@.len() - j,
    {
        work.push((lhs, TypeNodeInd(keys[j]), temp.clone()));
        j = j + 1;
    }
}

/// The value of the last report of the pair `p` among `o[lo..k]`, if any.
pub open spec fn last_report<E>(
    o: Seq<(TypeNodeInd, TypeNodeInd, E)>,
    lo: int,
    k: int,
    p: (usize, usize),
) -> Option<E>
    decreases k - lo,
{
    if k <= lo {
        None
    } else if o[k - 1].0.0 == p.0 && o[k - 1].1.0 == p.1 {
        Some(o[k - 1].2)
    } else {
        last_report(o, lo, k - 1, p)
    }
}

/// `s` is what the edge `p` held just before the report at index `k`: a
/// clone of the last earlier report of `p`, or, with none, its value before
/// the call (`e0`).
pub open spec fn held_before<E: Clone>(
    e0: Map<(usize, usize), E>,
    o: Seq<(TypeNodeInd, TypeNodeInd, E)>,
    lo: int,
    k: int,
    p: (usize, usize),
    s: E,
) -> bool {
    match last_report(o, lo, k, p) {
        Some(u) => cloned(u, s),
        None => e0.contains_key(p) && s == e0[p],
    }
}

/// The edge `p` did not exist just before the report at index `k`.
pub open spec fn absent_before<E>(
    e0: Map<(usize, usize), E>,
    o: Seq<(TypeNodeInd, TypeNodeInd, E)>,
    lo: int,
    k: int,
    p: (usize, usize),
) -> bool {
    last_report(o, lo, k, p) is None && !e0.contains_key(p)
}

/// The report at index `k` is `update` merging `w` into a clone `c` of the
/// value `s` that its edge held, with a change reported.
pub open spec fn merged_write<N, E: EdgeDataTrait<N>>(
    e0: Map<(usize, usize), E>,
    o: Seq<(TypeNodeInd, TypeNodeInd, E)>,
    lo: int,
    k: int,
    w: E,
    s: E,
    c: E,
) -> bool {
    &&& held_before(e0, o, lo, k, (o[k].0.0, o[k].1.0), s)
    &&& cloned(s, c)
    &&& E::update_spec(c, w, o[k].2, true)
}

/// The report at index `k` is the write that the value `w` arriving at its
/// edge causes: `w` itself on an absent edge, else a merge that changed it.
pub open spec fn written<N, E: EdgeDataTrait<N>>(
    e0: Map<(usize, usize), E>,
    o: Seq<(TypeNodeInd, TypeNodeInd, E)>,
    lo: int,
    k: int,
    w: E,
) -> bool {
    if absent_before(e0, o, lo, k, (o[k].0.0, o[k].1.0)) {
        o[k].2 == w
    } else {
        exists|s: E, c: E| #[trigger] merged_write::<N, E>(e0, o, lo, k, w, s, c)
    }
}

/// The report at index `j` passes the value `w` on to the pair `(x, y)`
/// through node `m`: its edge runs from `m` with `x` reaching `m`, or runs to
/// `m` with `m` reaching `y`; `w` is a clone of `expand` applied to a clone
/// `c` of the reported value, with the data of `m`.
pub open spec fn passes<N, E: EdgeDataTrait<N>>(
    data: Seq<N>,
    dom: Set<(usize, usize)>,
    o: Seq<(TypeNodeInd, TypeNodeInd, E)>,
    j: int,
    m: usize,
    c: E,
    x: usize,
    y: usize,
    w: E,
) -> bool {
    &&& m < data.len()
    &&& ((o[j].0.0 == m && o[j].1.0 == y && dom.contains((x, m))) || (o[j].0.0 == x && o[j].1.0 == m
        && dom.contains((m, y))))
    &&& cloned(o[j].2, c)
    &&& cloned(c.expand_spec(data[m as int], TypeNodeInd(m)), w)
}

/// The value `w` arrives at the pair `(x, y)`: it is the value given for the
/// new edge `(lhs, rhs)`, or a report among `o[lo..k]` passed it on.
pub open spec fn reaches<N, E: EdgeDataTrait<N>>(
    data: Seq<N>,
    dom: Set<(usize, usize)>,
    o: Seq<(TypeNodeInd, TypeNodeInd, E)>,
    lo: int,
    k: int,
    lhs: usize,
    rhs: usize,
    edge_val: E,
    x: usize,
    y: usize,
    w: E,
) -> bool {
    ||| (x == lhs && y == rhs && w == edge_val)
    ||| exists|j: int, m: usize, c: E|
        lo <= j < k && #[trigger] passes::<N, E>(data, dom, o, j, m, c, x, y, w)
}

/// The report at index `k` writes a value `w` that arrived at its edge.
pub open spec fn report_ok<N, E: EdgeDataTrait<N>>(
    e0: Map<(usize, usize), E>,
    data: Seq<N>,
    dom: Set<(usize, usize)>,
    o: Seq<(TypeNodeInd, TypeNodeInd, E)>,
    lo: int,
    k: int,
    lhs: usize,
    rhs: usize,
    edge_val: E,
    w: E,
) -> bool {
    &&& reaches::<N, E>(data, dom, o, lo, k, lhs, rhs, edge_val, o[k].0.0, o[k].1.0, w)
    &&& written::<N, E>(e0, o, lo, k, w)
}

/// The report at index `k` writes some value that arrived at its edge.
pub open spec fn report_at<N, E: EdgeDataTrait<N>>(
    e0: Map<(usize, usize), E>,
    data: Seq<N>,
    dom: Set<(usize, usize)>,
    o: Seq<(TypeNodeInd, TypeNodeInd, E)>,
    lo: int,
    k: int,
    lhs: usize,
    rhs: usize,
    edge_val: E,
) -> bool {
    exists|w: E| #[trigger] report_ok::<N, E>(e0, data, dom, o, lo, k, lhs, rhs, edge_val, w)
}

/// `w` is a clone of `expand` applied, with the data of node `m`, to a
/// clone `c` of the value reported at index `j`.
pub open spec fn carries<N, E: EdgeDataTrait<N>>(
    data: Seq<N>,
    o: Seq<(TypeNodeInd, TypeNodeInd, E)>,
    j: int,
    m: usize,
    c: E,
    w: E,
) -> bool {
    &&& m < data.len()
    &&& cloned(o[j].2, c)
    &&& cloned(c.expand_spec(data[m as int], TypeNodeInd(m)), w)
}

/// `w` is what the report at index `j` passes on through node `m`.
pub open spec fn from_report<N, E: EdgeDataTrait<N>>(
    data: Seq<N>,
    o: Seq<(TypeNodeInd, TypeNodeInd, E)>,
    j: int,
    m: usize,
    w: E,
) -> bool {
    exists|c: E| #[trigger] carries::<N, E>(data, o, j, m, c, w)
}

/// The edge `p` held `s` when `t` reports had been made, and `update` of a
/// clone `c` of it with `w` gave `after` and reported no change.
pub open spec fn kept<N, E: EdgeDataTrait<N>>(
    e0: Map<(usize, usize), E>,
    o: Seq<(TypeNodeInd, TypeNodeInd, E)>,
    lo: int,
    t: int,
    p: (usize, usize),
    w: E,
    s: E,
    c: E,
    after: E,
) -> bool {
    &&& held_before(e0, o, lo, t, p, s)
    &&& cloned(s, c)
    &&& E::update_spec(c, w, after, false)
}

/// The value `w` arriving at `p` was dealt with when `t` reports had been
/// made: the report at index `t` is its write, or the edge existed and
/// merging `w` into it changed nothing.
pub open spec fn handled<N, E: EdgeDataTrait<N>>(
    e0: Map<(usize, usize), E>,
    o: Seq<(TypeNodeInd, TypeNodeInd, E)>,
    lo: int,
    t: int,
    p: (usize, usize),
    w: E,
) -> bool {
    &&& lo <= t <= o.len()
    &&& {
        ||| (t < o.len() && o[t].0.0 == p.0 && o[t].1.0 == p.1 && written::<N, E>(e0, o, lo, t, w))
        ||| (!absent_before(e0, o, lo, t, p) && exists|s: E, c: E, after: E|
            #[trigger] kept::<N, E>(e0, o, lo, t, p, w, s, c, after))
    }
}

/// The pair `p` had an edge just after the report at index `j` was made.
pub open spec fn edge_after<E>(
    e0: Map<(usize, usize), E>,
    o: Seq<(TypeNodeInd, TypeNodeInd, E)>,
    lo: int,
    j: int,
    p: (usize, usize),
) -> bool {
    e0.contains_key(p) || last_report(o, lo, j + 1, p) is Some
}

/// The value that the report at index `j` passes on through node `m` to
/// `p` was dealt with later.
pub open spec fn pass_fate<N, E: EdgeDataTrait<N>>(
    e0: Map<(usize, usize), E>,
    data: Seq<N>,
    o: Seq<(TypeNodeInd, TypeNodeInd, E)>,
    lo: int,
    j: int,
    m: usize,
    p: (usize, usize),
    w: E,
    t: int,
) -> bool {
    &&& j < t
    &&& from_report::<N, E>(data, o, j, m, w)
    &&& handled::<N, E>(e0, o, lo, t, p, w)
}

pub open spec fn pass_handled<N, E: EdgeDataTrait<N>>(
    e0: Map<(usize, usize), E>,
    data: Seq<N>,
    o: Seq<(TypeNodeInd, TypeNodeInd, E)>,
    lo: int,
    j: int,
    m: usize,
    p: (usize, usize),
) -> bool {
    exists|w: E, t: int| #[trigger] pass_fate::<N, E>(e0, data, o, lo, j, m, p, w, t)
}

/// Every value that a report passes on was dealt with: through its left
/// node to `(a, right)` for each `a` that reaches the left node, and through
/// its right node to `(left, c)` for each `c` that the right node reaches,
/// as the edges stood just after the report.
pub open spec fn passes_handled<N, E: EdgeDataTrait<N>>(
    e0: Map<(usize, usize), E>,
    data: Seq<N>,
    o: Seq<(TypeNodeInd, TypeNodeInd, E)>,
    lo: int,
) -> bool {
    &&& forall|j: int, a: usize|
        lo <= j < o.len() && #[trigger] edge_after(e0, o, lo, j, (a, o[j].0.0)) ==> pass_handled::<
            N,
            E,
        >(e0, data, o, lo, j, o[j].0.0, (a, o[j].1.0))
    &&& forall|j: int, c: usize|
        lo <= j < o.len() && #[trigger] edge_after(e0, o, lo, j, (o[j].1.0, c)) ==> pass_handled::<
            N,
            E,
        >(e0, data, o, lo, j, o[j].1.0, (o[j].0.0, c))
}

/// The value given for the new edge was dealt with.
pub open spec fn initial_handled<N, E: EdgeDataTrait<N>>(
    e0: Map<(usize, usize), E>,
    o: Seq<(TypeNodeInd, TypeNodeInd, E)>,
    lo: int,
    lhs: usize,
    rhs: usize,
    edge_val: E,
) -> bool {
    exists|t: int| #[trigger] handled::<N, E>(e0, o, lo, t, (lhs, rhs), edge_val)
}

/// The pending item at `idx` carries what the report at `j` passes on
/// through `m` to `p`.
spec fn pending_at<N, E: EdgeDataTrait<N>>(
    data: Seq<N>,
    o: Seq<(TypeNodeInd, TypeNodeInd, E)>,
    work: Seq<(TypeNodeInd, TypeNodeInd, E)>,
    idx: int,
    j: int,
    m: usize,
    p: (usize, usize),
) -> bool {
    &&& 0 <= idx < work.len()
    &&& work[idx].0.0 == p.0
    &&& work[idx].1.0 == p.1
    &&& from_report::<N, E>(data, o, j, m, work[idx].2)
}

spec fn pass_tracked<N, E: EdgeDataTrait<N>>(
    e0: Map<(usize, usize), E>,
    data: Seq<N>,
    o: Seq<(TypeNodeInd, TypeNodeInd, E)>,
    lo: int,
    work: Seq<(TypeNodeInd, TypeNodeInd, E)>,
    j: int,
    m: usize,
    p: (usize, usize),
) -> bool {
    ||| exists|idx: int| #[trigger] pending_at::<N, E>(data, o, work, idx, j, m, p)
    ||| pass_handled::<N, E>(e0, data, o, lo, j, m, p)
}

/// Every passed-on value is pending or was dealt with.
spec fn passes_tracked<N, E: EdgeDataTrait<N>>(
    e0: Map<(usize, usize), E>,
    data: Seq<N>,
    o: Seq<(TypeNodeInd, TypeNodeInd, E)>,
    lo: int,
    work: Seq<(TypeNodeInd, TypeNodeInd, E)>,
) -> bool {
    &&& forall|j: int, a: usize|
        lo <= j < o.len() && #[trigger] edge_after(e0, o, lo, j, (a, o[j].0.0)) ==> pass_tracked::<
            N,
            E,
        >(e0, data, o, lo, work, j, o[j].0.0, (a, o[j].1.0))
    &&& forall|j: int, c: usize|
        lo <= j < o.len() && #[trigger] edge_after(e0, o, lo, j, (o[j].1.0, c)) ==> pass_tracked::<
            N,
            E,
        >(e0, data, o, lo, work, j, o[j].1.0, (o[j].0.0, c))
}

spec fn initial_at<E>(
    work: Seq<(TypeNodeInd, TypeNodeInd, E)>,
    idx: int,
    lhs: usize,
    rhs: usize,
    edge_val: E,
) -> bool {
    0 <= idx < work.len() && work[idx].0.0 == lhs && work[idx].1.0 == rhs && work[idx].2 == edge_val
}

/// The value given for the new edge is pending or was dealt with.
spec fn initial_tracked<N, E: EdgeDataTrait<N>>(
    e0: Map<(usize, usize), E>,
    o: Seq<(TypeNodeInd, TypeNodeInd, E)>,
    lo: int,
    work: Seq<(TypeNodeInd, TypeNodeInd, E)>,
    lhs: usize,
    rhs: usize,
    edge_val: E,
) -> bool {
    ||| exists|idx: int| #[trigger] initial_at(work, idx, lhs, rhs, edge_val)
    ||| initial_handled::<N, E>(e0, o, lo, lhs, rhs, edge_val)
}

proof fn lemma_handled_grow<N, E: EdgeDataTrait<N>>(
    e0: Map<(usize, usize), E>,
    o: Seq<(TypeNodeInd, TypeNodeInd, E)>,
    o2: Seq<(TypeNodeInd, TypeNodeInd, E)>,
    lo: int,
    t: int,
    p: (usize, usize),
    w: E,
)
    requires
        handled::<N, E>(e0, o, lo, t, p, w),
        0 <= lo,
        o.len() <= o2.len(),
        forall|i: int| 0 <= i < o.len() ==> o2[i] == o[i],
    ensures
        handled::<N, E>(e0, o2, lo, t, p, w),
{
    lemma_last_report_prefix(o, o2, lo, t, p);
    if t < o.len() && o[t].0.0 == p.0 && o[t].1.0 == p.1 && written::<N, E>(e0, o, lo, t, w) {
        assert(o2[t] == o[t]);
        if !absent_before(e0, o, lo, t, p) {
            let (s, c) = choose|s: E, c: E| #[trigger] merged_write::<N, E>(e0, o, lo, t, w, s, c);
            assert(merged_write::<N, E>(e0, o2, lo, t, w, s, c));
        }
    } else {
        let (s, c, a) = choose|s: E, c: E, after: E| #[trigger] kept::<N, E>(e0, o, lo, t, p, w, s, c, after);
        assert(kept::<N, E>(e0, o2, lo, t, p, w, s, c, a));
    }
}

proof fn lemma_pass_handled_grow<N, E: EdgeDataTrait<N>>(
    e0: Map<(usize, usize), E>,
    data: Seq<N>,
    o: Seq<(TypeNodeInd, TypeNodeInd, E)>,
    o2: Seq<(TypeNodeInd, TypeNodeInd, E)>,
    lo: int,
    j: int,
    m: usize,
    p: (usize, usize),
)
    requires
        pass_handled::<N, E>(e0, data, o, lo, j, m, p),
        0 <= lo <= j < o.len(),
        o.len() <= o2.len(),
        forall|i: int| 0 <= i < o.len() ==> o2[i] == o[i],
    ensures
        pass_handled::<N, E>(e0, data, o2, lo, j, m, p),
{
    let (w, t) = choose|w: E, t: int| #[trigger] pass_fate::<N, E>(e0, data, o, lo, j, m, p, w, t);
    lemma_handled_grow::<N, E>(e0, o, o2, lo, t, p, w);
    let c = choose|c: E| #[trigger] carries::<N, E>(data, o, j, m, c, w);
    assert(o2[j] == o[j]);
    assert(carries::<N, E>(data, o2, j, m, c, w));
    assert(pass_fate::<N, E>(e0, data, o2, lo, j, m, p, w, t));
}

/// Every report from index `lo` on is such a write.
spec fn reports_ok<N, E: EdgeDataTrait<N>>(
    e0: Map<(usize, usize), E>,
    data: Seq<N>,
    dom: Set<(usize, usize)>,
    o: Seq<(TypeNodeInd, TypeNodeInd, E)>,
    lo: int,
    lhs: usize,
    rhs: usize,
    edge_val: E,
) -> bool {
    forall|k: int|
        lo <= k < o.len() ==> #[trigger] report_at::<N, E>(e0, data, dom, o, lo, k, lhs, rhs, edge_val)
}

/// Every pending item carries a value that arrived at its pair.
spec fn items_reach<N, E: EdgeDataTrait<N>>(
    data: Seq<N>,
    dom: Set<(usize, usize)>,
    o: Seq<(TypeNodeInd, TypeNodeInd, E)>,
    lo: int,
    lhs: usize,
    rhs: usize,
    edge_val: E,
    w: Seq<(TypeNodeInd, TypeNodeInd, E)>,
) -> bool {
    forall|i: int|
        #![trigger w[i]]
        0 <= i < w.len() ==> reaches::<N, E>(
            data,
            dom,
            o,
            lo,
            o.len() as int,
            lhs,
            rhs,
            edge_val,
            w[i].0.0,
            w[i].1.0,
            w[i].2,
        )
}

/// Each edge holds what the reports so far left it with, and an edge
/// without one did not exist before the call and has none.
spec fn held_now<E: Clone>(
    e0: Map<(usize, usize), E>,
    m: Map<(usize, usize), E>,
    o: Seq<(TypeNodeInd, TypeNodeInd, E)>,
    lo: int,
) -> bool {
    forall|p: (usize, usize)|
        #![trigger m.contains_key(p)]
        (m.contains_key(p) ==> held_before(e0, o, lo, o.len() as int, p, m[p])) && (!m.contains_key(p)
            ==> absent_before(e0, o, lo, o.len() as int, p))
}

proof fn lemma_last_report_prefix<E>(
    o: Seq<(TypeNodeInd, TypeNodeInd, E)>,
    o2: Seq<(TypeNodeInd, TypeNodeInd, E)>,
    lo: int,
    k: int,
    p: (usize, usize),
)
    requires
        forall|t: int| lo <= t < k ==> o2[t] == o[t],
    ensures
        last_report(o2, lo, k, p) == last_report(o, lo, k, p),
    decreases k - lo,
{
    if k > lo {
        assert(o2[k - 1] == o[k - 1]);
        lemma_last_report_prefix(o, o2, lo, k - 1, p);
    }
}

proof fn lemma_reaches_grow<N, E: EdgeDataTrait<N>>(
    data: Seq<N>,
    dom: Set<(usize, usize)>,
    dom2: Set<(usize, usize)>,
    o: Seq<(TypeNodeInd, TypeNodeInd, E)>,
    o2: Seq<(TypeNodeInd, TypeNodeInd, E)>,
    lo: int,
    k: int,
    k2: int,
    lhs: usize,
    rhs: usize,
    edge_val: E,
    x: usize,
    y: usize,
    w: E,
)
    requires
        reaches::<N, E>(data, dom, o, lo, k, lhs, rhs, edge_val, x, y, w),
        dom.subset_of(dom2),
        k <= k2,
        forall|t: int| lo <= t < k ==> o2[t] == o[t],
    ensures
        reaches::<N, E>(data, dom2, o2, lo, k2, lhs, rhs, edge_val, x, y, w),
{
    if !(x == lhs && y == rhs && w == edge_val) {
        let (j, m, c) = choose|j: int, m: usize, c: E|
            lo <= j < k && #[trigger] passes::<N, E>(data, dom, o, j, m, c, x, y, w);
        assert(o2[j] == o[j]);
        assert(passes::<N, E>(data, dom2, o2, j, m, c, x, y, w));
    }
}

proof fn lemma_report_grow<N, E: EdgeDataTrait<N>>(
    e0: Map<(usize, usize), E>,
    data: Seq<N>,
    dom: Set<(usize, usize)>,
    dom2: Set<(usize, usize)>,
    o: Seq<(TypeNodeInd, TypeNodeInd, E)>,
    o2: Seq<(TypeNodeInd, TypeNodeInd, E)>,
    lo: int,
    k: int,
    lhs: usize,
    rhs: usize,
    edge_val: E,
    w: E,
)
    requires
        report_ok::<N, E>(e0, data, dom, o, lo, k, lhs, rhs, edge_val, w),
        dom.subset_of(dom2),
        lo <= k,
        forall|t: int| lo <= t <= k ==> o2[t] == o[t],
    ensures
        report_ok::<N, E>(e0, data, dom2, o2, lo, k, lhs, rhs, edge_val, w),
{
    assert(o2[k] == o[k]);
    lemma_reaches_grow::<N, E>(data, dom, dom2, o, o2, lo, k, k, lhs, rhs, edge_val, o[k].0.0, o[k].1.0, w);
    let p = (o[k].0.0, o[k].1.0);
    lemma_last_report_prefix(o, o2, lo, k, p);
    if !absent_before(e0, o, lo, k, p) {
        let (s, c) = choose|s: E, c: E| #[trigger] merged_write::<N, E>(e0, o, lo, k, w, s, c);
        assert(merged_write::<N, E>(e0, o2, lo, k, w, s, c));
    }
}

/// A popped item whose merge changed nothing is dealt with, and the rest
/// stay pending or dealt with.
proof fn lemma_track_reject<N, E: EdgeDataTrait<N>>(
    e0: Map<(usize, usize), E>,
    data: Seq<N>,
    lo: int,
    lhs: usize,
    rhs: usize,
    ev0: E,
    out1: Seq<(TypeNodeInd, TypeNodeInd, E)>,
    w0: Seq<(TypeNodeInd, TypeNodeInd, E)>,
    l: TypeNodeInd,
    r: TypeNodeInd,
    item: E,
)
    requires
        0 <= lo <= out1.len(),
        w0.len() > 0,
        w0[w0.len() - 1] == (l, r, item),
        passes_tracked::<N, E>(e0, data, out1, lo, w0),
        initial_tracked::<N, E>(e0, out1, lo, w0, lhs, rhs, ev0),
        handled::<N, E>(e0, out1, lo, out1.len() as int, (l.0, r.0), item),
    ensures
        passes_tracked::<N, E>(e0, data, out1, lo, w0.drop_last()),
        initial_tracked::<N, E>(e0, out1, lo, w0.drop_last(), lhs, rhs, ev0),
{
    let n0 = w0.len() - 1;
    let w1 = w0.drop_last();
    let kk = out1.len() as int;
    assert forall|j: int, m: usize, p: (usize, usize)|
        lo <= j < kk && pass_tracked::<N, E>(e0, data, out1, lo, w0, j, m, p) implies pass_tracked::<
        N,
        E,
    >(e0, data, out1, lo, w1, j, m, p) by {
        if exists|idx: int| #[trigger] pending_at::<N, E>(data, out1, w0, idx, j, m, p) {
            let idx = choose|idx: int| #[trigger] pending_at::<N, E>(data, out1, w0, idx, j, m, p);
            if idx < n0 {
                assert(w1[idx] == w0[idx]);
                assert(pending_at::<N, E>(data, out1, w1, idx, j, m, p));
            } else {
                assert(pass_fate::<N, E>(e0, data, out1, lo, j, m, p, item, kk));
            }
        }
    }
    if exists|idx: int| #[trigger] initial_at(w0, idx, lhs, rhs, ev0) {
        let idx = choose|idx: int| #[trigger] initial_at(w0, idx, lhs, rhs, ev0);
        if idx < n0 {
            assert(w1[idx] == w0[idx]);
            assert(initial_at(w1, idx, lhs, rhs, ev0));
        } else {
            assert(handled::<N, E>(e0, out1, lo, kk, (lhs, rhs), ev0));
        }
    }
}

/// A write deals with the popped item, queues what it passes on, and keeps
/// every earlier value pending or dealt with.
proof fn lemma_track_write<N, E: EdgeDataTrait<N>>(
    e0: Map<(usize, usize), E>,
    data: Seq<N>,
    lo: int,
    lhs: usize,
    rhs: usize,
    ev0: E,
    m1: Map<(usize, usize), E>,
    out1: Seq<(TypeNodeInd, TypeNodeInd, E)>,
    out2: Seq<(TypeNodeInd, TypeNodeInd, E)>,
    w0: Seq<(TypeNodeInd, TypeNodeInd, E)>,
    w3: Seq<(TypeNodeInd, TypeNodeInd, E)>,
    l: TypeNodeInd,
    r: TypeNodeInd,
    item: E,
    ev: E,
    c1: E,
    c2: E,
    srcs: Seq<usize>,
    tgts: Seq<usize>,
)
    requires
        0 <= lo <= out1.len(),
        out2 == out1.push((l, r, ev)),
        w0.len() > 0,
        w0[w0.len() - 1] == (l, r, item),
        l.0 < data.len(),
        r.0 < data.len(),
        written::<N, E>(e0, out2, lo, out1.len() as int, item),
        passes_tracked::<N, E>(e0, data, out1, lo, w0),
        initial_tracked::<N, E>(e0, out1, lo, w0, lhs, rhs, ev0),
        held_now(e0, m1, out2, lo),
        forall|a: usize| #[trigger] m1.contains_key((a, l.0)) ==> srcs.contains(a),
        forall|c: usize| #[trigger] m1.contains_key((r.0, c)) ==> tgts.contains(c),
        w3.len() == w0.len() - 1 + srcs.len() + tgts.len(),
        forall|k: int| 0 <= k < w0.len() - 1 ==> w3[k] == w0[k],
        forall|j: int|
            0 <= j < srcs.len() ==> (#[trigger] w3[w0.len() - 1 + j]).0.0 == srcs[j] && w3[w0.len() - 1
                + j].1 == r && cloned(c1.expand_spec(data[l.0 as int], l), w3[w0.len() - 1 + j].2),
        forall|j: int|
            0 <= j < tgts.len() ==> (#[trigger] w3[w0.len() - 1 + srcs.len() + j]).1.0 == tgts[j]
                && w3[w0.len() - 1 + srcs.len() + j].0 == l && cloned(
                c2.expand_spec(data[r.0 as int], r),
                w3[w0.len() - 1 + srcs.len() + j].2,
            ),
        cloned(ev, c1),
        cloned(ev, c2),
    ensures
        passes_tracked::<N, E>(e0, data, out2, lo, w3),
        initial_tracked::<N, E>(e0, out2, lo, w3, lhs, rhs, ev0),
{
    let n0 = w0.len() - 1;
    let kk = out1.len() as int;
    assert(out2[kk] == (l, r, ev));
    assert forall|i: int| 0 <= i < out1.len() implies out2[i] == out1[i] by {}
    assert(handled::<N, E>(e0, out2, lo, kk, (l.0, r.0), item));
    // an earlier obligation keeps its standing
    assert forall|j: int, m: usize, p: (usize, usize)|
        lo <= j < kk && pass_tracked::<N, E>(e0, data, out1, lo, w0, j, m, p) implies pass_tracked::<
        N,
        E,
    >(e0, data, out2, lo, w3, j, m, p) by {
        if exists|idx: int| #[trigger] pending_at::<N, E>(data, out1, w0, idx, j, m, p) {
            let idx = choose|idx: int| #[trigger] pending_at::<N, E>(data, out1, w0, idx, j, m, p);
            let c = choose|c: E| #[trigger] carries::<N, E>(data, out1, j, m, c, w0[idx].2);
            assert(carries::<N, E>(data, out2, j, m, c, w0[idx].2));
            if idx < n0 {
                assert(w3[idx] == w0[idx]);
                assert(pending_at::<N, E>(data, out2, w3, idx, j, m, p));
            } else {
                assert(pass_fate::<N, E>(e0, data, out2, lo, j, m, p, item, kk));
            }
        } else {
            lemma_pass_handled_grow::<N, E>(e0, data, out1, out2, lo, j, m, p);
        }
    }
    // edges just after an earlier report are as they were
    assert forall|j: int, p: (usize, usize)|
        lo <= j < kk implies edge_after(e0, out2, lo, j, p) == edge_after(e0, out1, lo, j, p) by {
        lemma_last_report_prefix(out1, out2, lo, j + 1, p);
    }
    // what the new report passes on is queued
    assert forall|a: usize| #[trigger] edge_after(e0, out2, lo, kk, (a, l.0)) implies pass_tracked::<N, E>(
        e0,
        data,
        out2,
        lo,
        w3,
        kk,
        l.0,
        (a, r.0),
    ) by {
        assert(m1.contains_key((a, l.0)));
        let jj = choose|jj: int| 0 <= jj < srcs.len() && srcs[jj] == a;
        let idx = n0 + jj;
        assert(w3[n0 + jj].0.0 == srcs[jj]);
        assert(TypeNodeInd(l.0) == l);
        assert(carries::<N, E>(data, out2, kk, l.0, c1, w3[idx].2));
        assert(pending_at::<N, E>(data, out2, w3, idx, kk, l.0, (a, r.0)));
    }
    assert forall|c: usize| #[trigger] edge_after(e0, out2, lo, kk, (r.0, c)) implies pass_tracked::<N, E>(
        e0,
        data,
        out2,
        lo,
        w3,
        kk,
        r.0,
        (l.0, c),
    ) by {
        assert(m1.contains_key((r.0, c)));
        let jj = choose|jj: int| 0 <= jj < tgts.len() && tgts[jj] == c;
        let idx = n0 + srcs.len() + jj;
        assert(w3[n0 + srcs.len() + jj].1.0 == tgts[jj]);
        assert(TypeNodeInd(r.0) == r);
        assert(carries::<N, E>(data, out2, kk, r.0, c2, w3[idx].2));
        assert(pending_at::<N, E>(data, out2, w3, idx, kk, r.0, (l.0, c)));
    }
    assert forall|j: int, a: usize|
        lo <= j < out2.len() && #[trigger] edge_after(e0, out2, lo, j, (a, out2[j].0.0)) implies pass_tracked::<
        N,
        E,
    >(e0, data, out2, lo, w3, j, out2[j].0.0, (a, out2[j].1.0)) by {
        if j < kk {
            assert(out2[j] == out1[j]);
            assert(edge_after(e0, out1, lo, j, (a, out1[j].0.0)));
        }
    }
    assert forall|j: int, c: usize|
        lo <= j < out2.len() && #[trigger] edge_after(e0, out2, lo, j, (out2[j].1.0, c)) implies pass_tracked::<
        N,
        E,
    >(e0, data, out2, lo, w3, j, out2[j].1.0, (out2[j].0.0, c)) by {
        if j < kk {
            assert(out2[j] == out1[j]);
            assert(edge_after(e0, out1, lo, j, (out1[j].1.0, c)));
        }
    }
    // the value given for the new edge
    if exists|idx: int| #[trigger] initial_at(w0, idx, lhs, rhs, ev0) {
        let idx = choose|idx: int| #[trigger] initial_at(w0, idx, lhs, rhs, ev0);
        if idx < n0 {
            assert(w3[idx] == w0[idx]);
            assert(initial_at(w3, idx, lhs, rhs, ev0));
        } else {
            assert(handled::<N, E>(e0, out2, lo, kk, (lhs, rhs), ev0));
        }
    } else {
        let t = choose|t: int| #[trigger] handled::<N, E>(e0, out1, lo, t, (lhs, rhs), ev0);
        lemma_handled_grow::<N, E>(e0, out1, out2, lo, t, (lhs, rhs), ev0);
    }
}

/// One write keeps the record of writes: the new report is the write that
/// the popped item caused, the items it queued carry values passed on
/// through it, and every edge holds what the reports left it with.
proof fn lemma_log_write<N, E: EdgeDataTrait<N>>(
    e0: Map<(usize, usize), E>,
    data: Seq<N>,
    lo: int,
    lhs: usize,
    rhs: usize,
    ev0: E,
    m0: Map<(usize, usize), E>,
    m1: Map<(usize, usize), E>,
    out1: Seq<(TypeNodeInd, TypeNodeInd, E)>,
    out2: Seq<(TypeNodeInd, TypeNodeInd, E)>,
    w0: Seq<(TypeNodeInd, TypeNodeInd, E)>,
    w3: Seq<(TypeNodeInd, TypeNodeInd, E)>,
    l: TypeNodeInd,
    r: TypeNodeInd,
    item: E,
    ev: E,
    stored: E,
    s: E,
    ob: E,
    c1: E,
    c2: E,
    srcs: Seq<usize>,
    tgts: Seq<usize>,
)
    requires
        0 <= lo <= out1.len(),
        w0.len() > 0,
        w0[w0.len() - 1] == (l, r, item),
        l.0 < data.len(),
        r.0 < data.len(),
        m1 == m0.insert((l.0, r.0), stored),
        cloned(ev, stored),
        out2 == out1.push((l, r, ev)),
        m0.contains_key((l.0, r.0)) ==> s == m0[(l.0, r.0)] && cloned(s, ob) && E::update_spec(
            ob,
            item,
            ev,
            true,
        ),
        !m0.contains_key((l.0, r.0)) ==> ev == item,
        reports_ok::<N, E>(e0, data, m0.dom(), out1, lo, lhs, rhs, ev0),
        items_reach::<N, E>(data, m0.dom(), out1, lo, lhs, rhs, ev0, w0),
        held_now(e0, m0, out1, lo),
        w3.len() == w0.len() - 1 + srcs.len() + tgts.len(),
        forall|k: int| 0 <= k < w0.len() - 1 ==> w3[k] == w0[k],
        forall|j: int|
            0 <= j < srcs.len() ==> (#[trigger] w3[w0.len() - 1 + j]).0.0 == srcs[j] && w3[w0.len() - 1
                + j].1 == r && cloned(c1.expand_spec(data[l.0 as int], l), w3[w0.len() - 1 + j].2),
        forall|j: int|
            0 <= j < tgts.len() ==> (#[trigger] w3[w0.len() - 1 + srcs.len() + j]).1.0 == tgts[j]
                && w3[w0.len() - 1 + srcs.len() + j].0 == l && cloned(
                c2.expand_spec(data[r.0 as int], r),
                w3[w0.len() - 1 + srcs.len() + j].2,
            ),
        cloned(ev, c1),
        cloned(ev, c2),
        forall|j: int| 0 <= j < srcs.len() ==> m1.contains_key((#[trigger] srcs[j], l.0)),
        forall|j: int| 0 <= j < tgts.len() ==> m1.contains_key((r.0, #[trigger] tgts[j])),
    ensures
        reports_ok::<N, E>(e0, data, m1.dom(), out2, lo, lhs, rhs, ev0),
        items_reach::<N, E>(data, m1.dom(), out2, lo, lhs, rhs, ev0, w3),
        held_now(e0, m1, out2, lo),
        written::<N, E>(e0, out2, lo, out1.len() as int, item),
{
    let kk = out1.len() as int;
    let pp = (l.0, r.0);
    let d0 = m0.dom();
    let d1 = m1.dom();
    assert(d0.subset_of(d1));
    assert(out2[kk] == (l, r, ev));
    assert forall|t: int| lo <= t < kk implies out2[t] == out1[t] by {}
    assert forall|k: int| lo <= k < out2.len() implies #[trigger] report_at::<N, E>(
        e0,
        data,
        d1,
        out2,
        lo,
        k,
        lhs,
        rhs,
        ev0,
    ) by {
        if k < kk {
            assert(report_at::<N, E>(e0, data, d0, out1, lo, k, lhs, rhs, ev0));
            let w = choose|w: E| #[trigger] report_ok::<N, E>(e0, data, d0, out1, lo, k, lhs, rhs, ev0, w);
            lemma_report_grow::<N, E>(e0, data, d0, d1, out1, out2, lo, k, lhs, rhs, ev0, w);
        } else {
            let i = w0.len() - 1;
            assert(w0[i] == (l, r, item));
            lemma_reaches_grow::<N, E>(data, d0, d1, out1, out2, lo, kk, kk, lhs, rhs, ev0, l.0, r.0, item);
            lemma_last_report_prefix(out1, out2, lo, kk, pp);
            assert(m0.contains_key(pp) ==> held_before(e0, out1, lo, kk, pp, m0[pp]));
            assert(!m0.contains_key(pp) ==> absent_before(e0, out1, lo, kk, pp));
            if m0.contains_key(pp) {
                assert(merged_write::<N, E>(e0, out2, lo, kk, item, s, ob));
            }
            assert(report_ok::<N, E>(e0, data, d1, out2, lo, kk, lhs, rhs, ev0, item));
        }
    }
    assert(report_at::<N, E>(e0, data, d1, out2, lo, kk, lhs, rhs, ev0));
    lemma_last_report_prefix(out1, out2, lo, kk, pp);
    assert(m0.contains_key(pp) ==> held_before(e0, out1, lo, kk, pp, m0[pp]));
    assert(!m0.contains_key(pp) ==> absent_before(e0, out1, lo, kk, pp));
    if m0.contains_key(pp) {
        assert(merged_write::<N, E>(e0, out2, lo, kk, item, s, ob));
    }
    assert forall|p: (usize, usize)|
        (m1.contains_key(p) ==> held_before(e0, out2, lo, out2.len() as int, p, m1[p])) && (
        !#[trigger] m1.contains_key(p) ==> absent_before(e0, out2, lo, out2.len() as int, p)) by {
        if p != pp {
            assert(last_report(out2, lo, kk + 1, p) == last_report(out2, lo, kk, p));
            lemma_last_report_prefix(out1, out2, lo, kk, p);
            assert(m0.contains_key(p) ==> held_before(e0, out1, lo, kk, p, m0[p]));
            assert(!m0.contains_key(p) ==> absent_before(e0, out1, lo, kk, p));
        } else {
            assert(last_report(out2, lo, kk + 1, p) == Some(ev));
        }
    }
    assert forall|i: int| #![trigger w3[i]] 0 <= i < w3.len() implies reaches::<N, E>(
        data,
        d1,
        out2,
        lo,
        out2.len() as int,
        lhs,
        rhs,
        ev0,
        w3[i].0.0,
        w3[i].1.0,
        w3[i].2,
    ) by {
        let n0 = w0.len() - 1;
        if i < n0 {
            assert(w3[i] == w0[i]);
            lemma_reaches_grow::<N, E>(data, d0, d1, out1, out2, lo, kk, kk + 1, lhs, rhs, ev0, w0[i].0.0, w0[i].1.0, w0[i].2);
        } else if i < n0 + srcs.len() {
            let j = i - n0;
            assert(w3[n0 + j].0.0 == srcs[j]);
            assert(m1.contains_key((srcs[j], l.0)));
            assert(TypeNodeInd(l.0) == l);
            assert(passes::<N, E>(data, d1, out2, kk, l.0, c1, w3[i].0.0, w3[i].1.0, w3[i].2));
        } else {
            let j = i - n0 - srcs.len();
            assert(w3[n0 + srcs.len() + j].1.0 == tgts[j]);
            assert(m1.contains_key((r.0, tgts[j])));
            assert(TypeNodeInd(r.0) == r);
            assert(passes::<N, E>(data, d1, out2, kk, r.0, c2, w3[i].0.0, w3[i].1.0, w3[i].2));
        }
    }
}

impl<N, E> Reachability<N, E> {
    /// The number of nodes below which changes are recorded; 0 when no
    /// mark is set.
    pub closed spec fn mark(&self) -> nat {
        self.rewind_mark.0 as nat
    }

    /// The edges at the last `save`, while a mark is set.
    pub closed spec fn saved_edges(&self) -> Map<(usize, usize), E> {
        self.saved@
    }

    spec fn journal_model(&self) -> Seq<(usize, usize, Option<E>)> {
        self.journal@.map_values(|e: (TypeNodeInd, TypeNodeInd, Option<E>)| (e.0.0, e.1.0, e.2))
    }

    /// Everything but the closure of the edge relation.
    spec fn wf_struct(&self) -> bool {
        let n = self.nodes@.len();
        let mark = self.rewind_mark.0;
        &&& forall|i: int|
            0 <= i < n ==> (#[trigger] self.nodes@[i]).flows_to.wf() && self.nodes@[i].flows_from.wf()
        &&& forall|p: (usize, usize)| #[trigger] self.edges().contains_key(p) ==> p.1 < n
        &&& forall|i: usize, k: usize|
            #![trigger self.nodes@[i as int].flows_from.m@.contains_key(k)]
            #![trigger self.edges().contains_key((k, i))]
            i < n ==> (self.nodes@[i as int].flows_from.m@.contains_key(k)
                <==> self.edges().contains_key((k, i)))
        &&& mark <= n
        &&& mark == 0 ==> self.journal@.len() == 0
        &&& forall|t: int|
            0 <= t < self.journal@.len() ==> (#[trigger] self.journal@[t]).0.0 < mark
                && self.journal@[t].1.0 < mark
        &&& forall|p: (usize, usize)| #[trigger] self.saved@.contains_key(p) ==> p.0 < mark && p.1 < mark
        &&& transitive(self.saved@.dom())
        &&& replayable(below(self.edges(), mark as nat), self.journal_model())
        &&& undo(below(self.edges(), mark as nat), self.journal_model()) == self.saved@
    }

    /// The graph is consistent, and its edge relation transitively closed.
    pub closed spec fn wf(&self) -> bool {
        &&& self.wf_struct()
        &&& transitive(self.edges().dom())
    }
}

/// The edge relation of a consistent graph is transitively closed: a node
/// reaches everything that the nodes it reaches reach.
pub proof fn lemma_edges_transitive<N, E>(g: &Reachability<N, E>)
    requires
        g.wf(),
    ensures
        transitive(g.edges().dom()),
{
}

/// After `make_permanent` no mark is set, so `save` may follow; a `revert`
/// after that `save` (with any `add_node`, `add_edge` or `get_mut` between,
/// which keep the mark and the saved edges) returns to the graph as it was
/// at the `save`, and so undoes nothing from before `make_permanent`.
/// `p` is the graph after `make_permanent`, `s` after the `save` and the
/// calls between, `r` after the `revert`.
pub proof fn lemma_permanent_then_save_revert<N, E>(
    p: Reachability<N, E>,
    s: Reachability<N, E>,
    r: Reachability<N, E>,
)
    requires
        p.mark() == 0,
        s.mark() == p.size(),
        s.saved_edges() == p.edges(),
        r.size() == s.mark(),
        r.edges() == s.saved_edges(),
        r.mark() == 0,
    ensures
        r.size() == p.size(),
        r.edges() == p.edges(),
        r.mark() == 0,
{
}

/// `save`, then any number of calls that keep the mark and the saved edges
/// (`add_node`, `add_edge`, `get_mut`), then `revert`, return to the size
/// and the edges at the `save`. `g` is the graph when `save` is called,
/// `states[0]` the graph after it, each next state the graph after one more
/// call, and `r` the graph after `revert`.
pub proof fn lemma_save_then_revert<N, E>(
    g: Reachability<N, E>,
    states: Seq<Reachability<N, E>>,
    r: Reachability<N, E>,
)
    requires
        states.len() > 0,
        states[0].mark() == g.size(),
        states[0].saved_edges() == g.edges(),
        forall|i: int|
            0 <= i < states.len() - 1 ==> (#[trigger] states[i + 1]).mark() == states[i].mark()
                && states[i + 1].saved_edges() == states[i].saved_edges(),
        r.size() == states.last().mark(),
        r.edges() == states.last().saved_edges(),
    ensures
        r.size() == g.size(),
        r.edges() == g.edges(),
{
    lemma_marks_kept(states, states.len() - 1);
}

proof fn lemma_marks_kept<N, E>(states: Seq<Reachability<N, E>>, k: int)
    requires
        0 <= k < states.len(),
        forall|i: int|
            0 <= i < states.len() - 1 ==> (#[trigger] states[i + 1]).mark() == states[i].mark()
                && states[i + 1].saved_edges() == states[i].saved_edges(),
    ensures
        states[k].mark() == states[0].mark(),
        states[k].saved_edges() == states[0].saved_edges(),
    decreases k,
{
    if k > 0 {
        lemma_marks_kept(states, k - 1);
        assert(states[(k - 1) + 1].mark() == states[k - 1].mark());
    }
}

/// There is one datum per node.
pub proof fn lemma_data_len<N, E>(g: &Reachability<N, E>)
    ensures
        g.data().len() == g.size(),
{
}

impl<N: ExtNodeDataTrait, E: EdgeDataTrait<N>> Reachability<N, E> {
    pub fn new() -> (r: Self)
        ensures
            r.wf(),
            r.size() == 0,
            r.edges() == Map::<(usize, usize), E>::empty(),
            r.mark() == 0,
            r.saved_edges() == Map::<(usize, usize), E>::empty(),
    {
        let r = Reachability {
            nodes: Vec::new(),
            rewind_mark: TypeNodeInd(0),
            journal: Vec::new(),
            saved: Ghost(Map::empty()),
        };
        proof {
            assert(r.edges() =~= Map::<(usize, usize), E>::empty());
            assert(below(r.edges(), 0) =~= Map::<(usize, usize), E>::empty());
            assert(r.journal_model() =~= Seq::<(usize, usize, Option<E>)>::empty());
        }
        r
    }

    pub fn len(&self) -> (r: usize)
        ensures
            r == self.size(),
    {
        self.nodes.len()
    }

    pub fn get(&self, i: TypeNodeInd) -> (r: Option<&N>)
        ensures
            r == (if i.0 < self.size() {
                Some(&self.data()[i.0 as int])
            } else {
                None
            }),
    {
        if i.0 < self.nodes.len() {
            Some(&self.nodes[i.0].data)
        } else {
            None
        }
    }

    pub fn get_mut(&mut self, i: TypeNodeInd) -> (r: Option<&mut N>)
        requires
            old(self).wf(),
        ensures
            r is Some <==> i.0 < old(self).size(),
            r matches Some(d) ==> *d == old(self).data()[i.0 as int]
                && final(self).data() == old(self).data().update(i.0 as int, *final(d)),
            r is None ==> final(self).data() == old(self).data(),
            final(self).wf(),
            final(self).size() == old(self).size(),
            final(self).edges() == old(self).edges(),
            final(self).mark() == old(self).mark(),
            final(self).saved_edges() == old(self).saved_edges(),
    {
        if i.0 < self.nodes.len() {
            proof {
                Self::lemma_wf_ignores_data(*self);
            }
            Some(&mut self.nodes[i.0].data)
        } else {
            None
        }
    }

    /// Two graphs that differ at most in the data of their nodes.
    spec fn same_shape(a: Self, b: Self) -> bool {
        &&& b.nodes@.len() == a.nodes@.len()
        &&& forall|i: int|
            0 <= i < a.nodes@.len() ==> (#[trigger] b.nodes@[i]).flows_to == a.nodes@[i].flows_to
                && b.nodes@[i].flows_from == a.nodes@[i].flows_from
        &&& b.rewind_mark == a.rewind_mark
        &&& b.journal == a.journal
        &&& b.saved == a.saved
    }

    /// Whether a graph is consistent does not depend on the data of its nodes.
    proof fn lemma_wf_ignores_data(a: Self)
        requires
            a.wf(),
        ensures
            forall|b: Self| Self::same_shape(a, b) ==> #[trigger] b.wf() && b.edges() == a.edges(),
    {
        assert forall|b: Self| Self::same_shape(a, b) implies #[trigger] b.wf() && b.edges() == a.edges() by {
            assert(b.edges() =~= a.edges());
            assert(b.journal_model() == a.journal_model());
        }
    }

    pub fn get_edge(&self, lhs: TypeNodeInd, rhs: TypeNodeInd) -> (r: Option<&E>)
        ensures
            r == (if self.edges().contains_key((lhs.0, rhs.0)) {
                Some(&self.edges()[(lhs.0, rhs.0)])
            } else {
                None
            }),
    {
        if lhs.0 < self.nodes.len() {
            self.nodes[lhs.0].flows_to.m.get(&rhs.0)
        } else {
            None
        }
    }

    pub fn add_node(&mut self, data: N) -> (r: TypeNodeInd)
        requires
            old(self).wf(),
        ensures
            final(self).wf(),
            r.0 == old(self).size(),
            final(self).size() == old(self).size() + 1,
            final(self).data() == old(self).data().push(data),
            final(self).edges() == old(self).edges(),
            final(self).mark() == old(self).mark(),
            final(self).saved_edges() == old(self).saved_edges(),
    {
        let i = self.nodes.len();
        let n = ReachabilityNode { data, flows_from: OrderedMap::new(), flows_to: OrderedMap::new() };
        self.nodes.push(n);
        proof {
            assert(self.edges() =~= old(self).edges());
            assert(self.data() =~= old(self).data().push(data));
            assert(self.journal_model() == old(self).journal_model());
        }
        TypeNodeInd(i)
    }

    pub fn save(&mut self)
        requires
            old(self).wf(),
            old(self).mark() == 0,
        ensures
            final(self).wf(),
            final(self).mark() == old(self).size(),
            final(self).saved_edges() == old(self).edges(),
            final(self).size() == old(self).size(),
            final(self).data() == old(self).data(),
            final(self).edges() == old(self).edges(),
    {
        self.rewind_mark = TypeNodeInd(self.nodes.len());
        self.saved = Ghost(self.edges());
        proof {
            assert(below(self.edges(), self.nodes@.len()) =~= self.edges());
            assert(self.journal_model() =~= Seq::<(usize, usize, Option<E>)>::empty());
        }
    }

    pub fn make_permanent(&mut self)
        requires
            old(self).wf(),
        ensures
            final(self).wf(),
            final(self).mark() == 0,
            final(self).saved_edges() == Map::<(usize, usize), E>::empty(),
            final(self).size() == old(self).size(),
            final(self).data() == old(self).data(),
            final(self).edges() == old(self).edges(),
    {
        self.rewind_mark = TypeNodeInd(0);
        self.journal.clear();
        self.saved = Ghost(Map::empty());
        proof {
            assert(self.edges() =~= old(self).edges());
            assert(below(self.edges(), 0) =~= Map::<(usize, usize), E>::empty());
            assert(self.journal_model() =~= Seq::<(usize, usize, Option<E>)>::empty());
        }
    }

    /// Adds an edge from `lhs` to `rhs` with the value `edge_val`, and every
    /// edge that it implies: from `lhs` or a node that reaches it, to `rhs`
    /// or a node that it reaches. Where an edge exists already, the new value
    /// is merged into it with `update`; an edge that is added or changes
    /// passes its value on, through `expand`, to the edges it implies in
    /// one step. Each edge that is added or changes is appended to `out`
    /// with its new value.
    #[verifier::rlimit(60)]
    #[verifier::spinoff_prover]
    pub fn add_edge(
        &mut self,
        lhs: TypeNodeInd,
        rhs: TypeNodeInd,
        edge_val: E,
        out: &mut Vec<(TypeNodeInd, TypeNodeInd, E)>,
    )
        requires
            old(self).wf(),
            lhs.0 < old(self).size(),
            rhs.0 < old(self).size(),
        ensures
            final(self).wf(),
            final(self).edges().dom() == old(self).edges().dom().union(
                closure_pairs(old(self).edges().dom(), lhs.0, rhs.0),
            ),
            forall|p: (usize, usize)|
                !closure_pairs(old(self).edges().dom(), lhs.0, rhs.0).contains(p) ==> (
                #[trigger] final(self).edges().contains_key(p) == old(self).edges().contains_key(p))
                    && (old(self).edges().contains_key(p) ==> final(self).edges()[p]
                    == old(self).edges()[p]),
            final(out)@.len() >= old(out)@.len(),
            forall|k: int| 0 <= k < old(out)@.len() ==> final(out)@[k] == old(out)@[k],
            forall|k: int|
                old(out)@.len() <= k < final(out)@.len() ==> closure_pairs(
                    old(self).edges().dom(),
                    lhs.0,
                    rhs.0,
                ).contains(((#[trigger] final(out)@[k]).0.0, final(out)@[k].1.0)),
            forall|p: (usize, usize)|
                #[trigger] final(self).edges().contains_key(p) && (!old(self).edges().contains_key(p)
                    || final(self).edges()[p] != old(self).edges()[p]) ==> exists|k: int|
                    old(out)@.len() <= k < final(out)@.len() && (#[trigger] final(out)@[k]).0.0 == p.0
                        && final(out)@[k].1.0 == p.1,
            forall|k: int|
                #![trigger final(out)@[k]]
                old(out)@.len() <= k < final(out)@.len() && (forall|k2: int|
                    k < k2 < final(out)@.len() ==> (#[trigger] final(out)@[k2]).0 != final(out)@[k].0
                        || final(out)@[k2].1 != final(out)@[k].1) ==> {
                    let p = (final(out)@[k].0.0, final(out)@[k].1.0);
                    &&& final(self).edges().contains_key(p)
                    &&& cloned(final(out)@[k].2, final(self).edges()[p])
                },
            forall|k: int|
                old(out)@.len() <= k < final(out)@.len() ==> #[trigger] report_at::<N, E>(
                    old(self).edges(),
                    old(self).data(),
                    final(self).edges().dom(),
                    final(out)@,
                    old(out)@.len() as int,
                    k,
                    lhs.0,
                    rhs.0,
                    edge_val,
                ),
            initial_handled::<N, E>(
                old(self).edges(),
                final(out)@,
                old(out)@.len() as int,
                lhs.0,
                rhs.0,
                edge_val,
            ),
            passes_handled::<N, E>(
                old(self).edges(),
                old(self).data(),
                final(out)@,
                old(out)@.len() as int,
            ),
            final(self).size() == old(self).size(),
            final(self).data() == old(self).data(),
            final(self).mark() == old(self).mark(),
            final(self).saved_edges() == old(self).saved_edges(),
    {
        let ghost e0 = self.edges();
        let ghost d0 = self.edges().dom();
        let ghost cp = closure_pairs(d0, lhs.0, rhs.0);
        let ghost out0 = out@;
        let ghost ev0 = edge_val;
        let ghost data0 = self.data();
        let ghost lo = out0.len() as int;
        let mut work: Vec<(TypeNodeInd, TypeNodeInd, E)> = Vec::new();
        work.push((lhs, rhs, edge_val));
        proof {
            assert(work@[0] == (lhs, rhs, ev0));
            assert(items_reach::<N, E>(data0, self.edges().dom(), out@, lo, lhs.0, rhs.0, ev0, work@));
            assert(initial_at(work@, 0, lhs.0, rhs.0, ev0));
            assert forall|p: (usize, usize)|
                (self.edges().contains_key(p) ==> held_before(e0, out@, lo, out@.len() as int, p, self.edges()[p]))
                && (!#[trigger] self.edges().contains_key(p) ==> absent_before(e0, out@, lo, out@.len() as int, p)) by {}
            assert(work@[0].0.0 == lhs.0);
            assert(work_pairs(work@).contains((lhs.0, rhs.0)));
            assert forall|a: usize, b: usize, c: usize|
                d0.contains((a, b)) && d0.contains((b, c)) implies d0.contains((a, c))
                || work_pairs(work@).contains((a, c)) by {}
        }
        while work.len() > 0
            invariant
                self.wf_struct(),
                self.size() == old(self).size(),
                self.data() == old(self).data(),
                self.mark() == old(self).mark(),
                self.saved_edges() == old(self).saved_edges(),
                lhs.0 < self.size(),
                rhs.0 < self.size(),
                e0 == old(self).edges(),
                d0 == e0.dom(),
                cp == closure_pairs(d0, lhs.0, rhs.0),
                transitive(d0),
                forall|p: (usize, usize)| #[trigger] e0.contains_key(p) ==> self.edges().contains_key(p),
                forall|p: (usize, usize)|
                    #[trigger] self.edges().contains_key(p) ==> d0.contains(p) || cp.contains(p),
                forall|p: (usize, usize)|
                    !cp.contains(p) ==> (#[trigger] self.edges().contains_key(p) == e0.contains_key(p))
                        && (e0.contains_key(p) ==> self.edges()[p] == e0[p]),
                forall|k: int|
                    0 <= k < work@.len() ==> cp.contains(((#[trigger] work@[k]).0.0, work@[k].1.0)),
                closed_upto(self.edges().dom(), work_pairs(work@)),
                self.edges().contains_key((lhs.0, rhs.0)) || work_pairs(work@).contains((lhs.0, rhs.0)),
                out@.len() >= out0.len(),
                out0 == old(out)@,
                lo == out0.len(),
                data0 == old(self).data(),
                reports_ok::<N, E>(e0, data0, self.edges().dom(), out@, lo, lhs.0, rhs.0, ev0),
                items_reach::<N, E>(data0, self.edges().dom(), out@, lo, lhs.0, rhs.0, ev0, work@),
                held_now(e0, self.edges(), out@, lo),
                passes_tracked::<N, E>(e0, data0, out@, lo, work@),
                initial_tracked::<N, E>(e0, out@, lo, work@, lhs.0, rhs.0, ev0),
                forall|k: int| 0 <= k < out0.len() ==> out@[k] == out0[k],
                forall|k: int|
                    out0.len() <= k < out@.len() ==> cp.contains(((#[trigger] out@[k]).0.0, out@[k].1.0)),
                forall|p: (usize, usize)|
                    #[trigger] self.edges().contains_key(p) && (!e0.contains_key(p) || self.edges()[p]
                        != e0[p]) ==> exists|k: int|
                        out0.len() <= k < out@.len() && (#[trigger] out@[k]).0.0 == p.0 && out@[k].1.0
                            == p.1,
                forall|k: int|
                    #![trigger out@[k]]
                    out0.len() <= k < out@.len() && (forall|k2: int|
                        k < k2 < out@.len() ==> (#[trigger] out@[k2]).0 != out@[k].0 || out@[k2].1
                            != out@[k].1) ==> {
                        let p = (out@[k].0.0, out@[k].1.0);
                        &&& self.edges().contains_key(p)
                        &&& cloned(out@[k].2, self.edges()[p])
                    },
            decreases
                grid_sum(absent_weight(self.edges()), self.size(), self.size()),
                grid_sum(rank_weight::<N, E>(self.edges()), self.size(), self.size()),
                work@.len(),
        {
            let ghost w0 = work@;
            let ghost m0 = self.edges();
            let ghost out1 = out@;
            let (l, r, ev) = work.pop().unwrap();
            let ghost item = ev;
            let ghost mut s_held = ev;
            let ghost mut o_merged = ev;
            let mut ev = ev;
            proof {
                lemma_work_pairs_pop(w0);
                assert(w0.last() == (l, r, ev));
                assert(w0[w0.len() - 1] == (l, r, ev));
                assert(cp.contains((l.0, r.0)));
                assert(l.0 < self.size()) by {
                    if l.0 != lhs.0 {
                        assert(e0.contains_key((l.0, lhs.0)));
                    }
                }
                assert(r.0 < self.size()) by {
                    if r.0 != rhs.0 {
                        assert(e0.contains_key((rhs.0, r.0)));
                    }
                }
            }
            match self.nodes[l.0].flows_to.m.get(&r.0) {
                Some(s) => {
                    let mut o = s.clone();
                    let ghost o0 = o;
                    proof {
                        E::lemma_clone_keeps_rank(*s, o);
                        s_held = *s;
                        o_merged = o;
                    }
                    if o.update(&ev) {
                        proof {
                            assert(o.rank() < m0[(l.0, r.0)].rank());
                        }
                        ev = o;
                    } else {
                        proof {
                            assert(m0.contains_key((l.0, r.0)));
                            lemma_closed_pop(m0.dom(), work_pairs(w0), work_pairs(work@), l.0, r.0);
                            let kk = out@.len() as int;
                            assert(held_before(e0, out@, lo, kk, (l.0, r.0), m0[(l.0, r.0)]));
                            assert(kept::<N, E>(e0, out@, lo, kk, (l.0, r.0), item, s_held, o_merged, o));
                            assert(handled::<N, E>(e0, out@, lo, kk, (l.0, r.0), item));
                            assert(w0[w0.len() - 1] == (l, r, item));
                            lemma_track_reject::<N, E>(e0, data0, lo, lhs.0, rhs.0, ev0, out@, w0, l, r, item);
                            assert(work@ == w0.drop_last());
                            assert forall|i: int| #![trigger work@[i]] 0 <= i < work@.len() implies reaches::<N, E>(
                                data0,
                                self.edges().dom(),
                                out@,
                                lo,
                                out@.len() as int,
                                lhs.0,
                                rhs.0,
                                ev0,
                                work@[i].0.0,
                                work@[i].1.0,
                                work@[i].2,
                            ) by {
                                assert(work@[i] == w0[i]);
                            }
                        }
                        continue;
                    }
                },
                None => {},
            }
            let stored = ev.clone();
            let _count = self.nodes.len();
            proof {
                E::lemma_clone_keeps_rank(ev, stored);
                lemma_measure_insert::<N, E>(m0, self.size(), (l.0, r.0), stored);
            }
            self.update_edge_value(l, r, stored);
            let ghost w1 = work@;
            let ghost m1 = self.edges();
            let c1 = ev.clone();
            let temp = c1.expand(&self.nodes[l.0].data, l);
            push_sources(&mut work, self.nodes[l.0].flows_from.iter_keys(), r, &temp);
            let ghost w2 = work@;
            let c2 = ev.clone();
            let temp = c2.expand(&self.nodes[r.0].data, r);
            push_targets(&mut work, l, self.nodes[r.0].flows_to.iter_keys(), &temp);
            out.push((l, r, ev));
            proof {
                let srcs0 = self.nodes@[l.0 as int].flows_from.keys@;
                let tgts0 = self.nodes@[r.0 as int].flows_to.keys@;
                assert(self.nodes@[l.0 as int].flows_from.wf());
                assert(self.nodes@[r.0 as int].flows_to.wf());
                assert forall|j: int| 0 <= j < srcs0.len() implies m1.contains_key((#[trigger] srcs0[j], l.0)) by {
                    assert(srcs0.contains(srcs0[j]));
                    assert(self.nodes@[l.0 as int].flows_from.m@.contains_key(srcs0[j]));
                }
                assert forall|j: int| 0 <= j < tgts0.len() implies m1.contains_key((r.0, #[trigger] tgts0[j])) by {
                    assert(tgts0.contains(tgts0[j]));
                    assert(self.nodes@[r.0 as int].flows_to.m@.contains_key(tgts0[j]));
                }
                assert(data0[l.0 as int] == self.nodes@[l.0 as int].data);
                assert(data0[r.0 as int] == self.nodes@[r.0 as int].data);
                assert forall|k: int| 0 <= k < w0.len() - 1 implies work@[k] == w0[k] by {
                    assert(work@[k] == w1[k]);
                }
                lemma_log_write::<N, E>(
                    e0, data0, lo, lhs.0, rhs.0, ev0, m0, m1, out1, out@, w0, work@, l, r, item, ev,
                    stored, s_held, o_merged, c1, c2, srcs0, tgts0,
                );
                assert forall|x: usize| #[trigger] m1.contains_key((x, l.0)) implies srcs0.contains(x) by {
                    assert(self.nodes@[l.0 as int].flows_from.m@.contains_key(x));
                }
                assert forall|x: usize| #[trigger] m1.contains_key((r.0, x)) implies tgts0.contains(x) by {
                    assert(self.nodes@[r.0 as int].flows_to.m@.contains_key(x));
                }
                lemma_track_write::<N, E>(
                    e0, data0, lo, lhs.0, rhs.0, ev0, m1, out1, out@, w0, work@, l, r, item, ev,
                    c1, c2, srcs0, tgts0,
                );
            }
            proof {
                let d1 = m0.dom();
                let w3 = work@;
                let srcs = self.nodes@[l.0 as int].flows_from.keys@;
                let tgts = self.nodes@[r.0 as int].flows_to.keys@;
                assert(self.edges().dom() =~= d1.insert((l.0, r.0)));
                // everything pending before is still pending, but the popped pair
                assert forall|p: (usize, usize)|
                    #[trigger] work_pairs(w0).contains(p) && p != (l.0, r.0) implies work_pairs(
                    w3,
                ).contains(p) by {
                    assert(work_pairs(w1).contains(p));
                    let k = choose|k: int|
                        0 <= k < w1.len() && (#[trigger] w1[k]).0.0 == p.0 && w1[k].1.0 == p.1;
                    assert(w3[k] == w1[k]);
                }
                // the sources of the new edge are pending towards its target
                assert forall|a: usize| #[trigger] d1.insert((l.0, r.0)).contains((a, l.0)) implies work_pairs(
                    w3,
                ).contains((a, r.0)) by {
                    assert(self.edges().contains_key((a, l.0)));
                    assert(self.nodes@[l.0 as int].flows_from.m@.contains_key(a));
                    assert(srcs.contains(a));
                    let j = choose|j: int| 0 <= j < srcs.len() && srcs[j] == a;
                    assert(w3[w1.len() + j] == w2[w1.len() + j]);
                    assert(w3[w1.len() + j].0.0 == a);
                }
                assert forall|c: usize| #[trigger] d1.insert((l.0, r.0)).contains((r.0, c)) implies work_pairs(
                    w3,
                ).contains((l.0, c)) by {
                    assert(self.edges().contains_key((r.0, c)));
                    assert(tgts.contains(c));
                    let j = choose|j: int| 0 <= j < tgts.len() && tgts[j] == c;
                    assert(w3[w2.len() + j].1.0 == c);
                }
                lemma_closed_step(d1, work_pairs(w0), work_pairs(w3), l.0, r.0);
                // new work stays within the pairs that the added edge implies
                assert forall|k: int| 0 <= k < w3.len() implies cp.contains(
                    ((#[trigger] w3[k]).0.0, w3[k].1.0),
                ) by {
                    if k < w1.len() {
                        assert(w3[k] == w1[k]);
                        assert(w1[k] == w0[k]);
                    } else if k < w2.len() {
                        let j = k - w1.len();
                        assert(w3[k] == w2[k]);
                        let a = srcs[j];
                        assert(w2[w1.len() + j].0.0 == srcs[j]);
                        assert(w3[k].0.0 == a);
                        assert(w3[k].1 == r);
                        assert(srcs.contains(a));
                        assert(self.edges().contains_key((a, l.0)));
                        assert(m0.contains_key((a, l.0)) || (a == l.0 && l.0 == r.0));
                        if !cp.contains((a, l.0)) {
                            assert(d0.contains((a, l.0)));
                            if l.0 != lhs.0 {
                                assert(d0.contains((l.0, lhs.0)));
                            }
                        }
                    } else {
                        let j = k - w2.len();
                        let c = tgts[j];
                        assert(w3[w2.len() + j].1.0 == tgts[j]);
                        assert(w3[k].1.0 == c);
                        assert(w3[k].0 == l);
                        assert(tgts.contains(c));
                        assert(self.edges().contains_key((r.0, c)));
                        if !cp.contains((r.0, c)) {
                            assert(d0.contains((r.0, c)));
                            if r.0 != rhs.0 {
                                assert(d0.contains((rhs.0, r.0)));
                            }
                        }
                    }
                }
                // the first edge is present or pending
                if !self.edges().contains_key((lhs.0, rhs.0)) {
                    assert(work_pairs(w0).contains((lhs.0, rhs.0)));
                }
                // every new or changed edge has been reported
                assert forall|p: (usize, usize)|
                    #[trigger] self.edges().contains_key(p) && (!e0.contains_key(p) || self.edges()[p]
                        != e0[p]) implies exists|k: int|
                    out0.len() <= k < out@.len() && (#[trigger] out@[k]).0.0 == p.0 && out@[k].1.0
                        == p.1 by {
                    if p == (l.0, r.0) {
                        assert(out@[out@.len() - 1].0.0 == p.0);
                    } else {
                        assert(m0.contains_key(p));
                        let k = choose|k: int|
                            out0.len() <= k < out1.len() && (#[trigger] out1[k]).0.0 == p.0
                                && out1[k].1.0 == p.1;
                        assert(out@[k] == out1[k]);
                    }
                }
                assert forall|k: int| out0.len() <= k < out@.len() implies cp.contains(
                    ((#[trigger] out@[k]).0.0, out@[k].1.0),
                ) by {
                    if k < out1.len() {
                        assert(out@[k] == out1[k]);
                    }
                }
                // the last report of each pair holds what is stored for it
                assert forall|k: int|
                    #![trigger out@[k]]
                    out0.len() <= k < out@.len() && (forall|k2: int|
                        k < k2 < out@.len() ==> (#[trigger] out@[k2]).0 != out@[k].0 || out@[k2].1
                            != out@[k].1) implies {
                        let p = (out@[k].0.0, out@[k].1.0);
                        &&& self.edges().contains_key(p)
                        &&& cloned(out@[k].2, self.edges()[p])
                    } by {
                    if k < out1.len() {
                        assert(out@[k] == out1[k]);
                        let last = out@.len() - 1;
                        assert(out@[last] == (l, r, ev));
                        assert(out@[last].0 != out@[k].0 || out@[last].1 != out@[k].1);
                        assert forall|k2: int| k < k2 < out1.len() implies (#[trigger] out1[k2]).0
                            != out1[k].0 || out1[k2].1 != out1[k].1 by {
                            assert(out@[k2] == out1[k2]);
                        }
                        assert((out1[k].0.0, out1[k].1.0) != (l.0, r.0));
                    }
                }
            }
        }
        proof {
            assert forall|j: int, m: usize, p: (usize, usize)|
                pass_tracked::<N, E>(e0, data0, out@, lo, work@, j, m, p) implies pass_handled::<N, E>(
                e0,
                data0,
                out@,
                lo,
                j,
                m,
                p,
            ) by {
                if exists|idx: int| #[trigger] pending_at::<N, E>(data0, out@, work@, idx, j, m, p) {
                    let idx = choose|idx: int| #[trigger] pending_at::<N, E>(data0, out@, work@, idx, j, m, p);
                }
            }
            if exists|idx: int| #[trigger] initial_at(work@, idx, lhs.0, rhs.0, ev0) {
                let idx = choose|idx: int| #[trigger] initial_at(work@, idx, lhs.0, rhs.0, ev0);
            }
            let d = self.edges().dom();
            assert(closed_upto(d, work_pairs(work@)));
            assert forall|a: usize, b: usize, c: usize|
                d.contains((a, b)) && d.contains((b, c)) implies d.contains((a, c)) by {
                if !d.contains((a, c)) {
                    assert(work_pairs(work@).contains((a, c)));
                    let k = choose|k: int|
                        0 <= k < work@.len() && (#[trigger] work@[k]).0.0 == a && work@[k].1.0 == c;
                }
            }
            assert(d.contains((lhs.0, rhs.0)));
            assert forall|p: (usize, usize)| cp.contains(p) implies #[trigger] d.contains(p) by {
                if p.0 != lhs.0 {
                    assert(d.contains((p.0, lhs.0)));
                }
                if p.1 != rhs.0 {
                    assert(d.contains((rhs.0, p.1)));
                }
                if p.0 != lhs.0 {
                    assert(d.contains((p.0, rhs.0)));
                }
            }
            assert(d =~= d0.union(cp));
        }
    }

    /// Undoes everything since the last `save`: drops the nodes added since
    /// and puts every edge between the remaining nodes back as it was then.
    /// Without a mark, every node is dropped. The data of each remaining
    /// node is told, through `truncate`, how many nodes remain.
    pub fn revert(&mut self)
        requires
            old(self).wf(),
        ensures
            final(self).wf(),
            final(self).size() == old(self).mark(),
            final(self).data().len() == old(self).mark(),
            final(self).edges() == old(self).saved_edges(),
            final(self).mark() == 0,
            final(self).saved_edges() == Map::<(usize, usize), E>::empty(),
            forall|k: int|
                0 <= k < old(self).mark() ==> N::truncate_spec(
                    #[trigger] old(self).data()[k],
                    TypeNodeInd(old(self).mark() as usize),
                    final(self).data()[k],
                ),
    {
        let i = self.rewind_mark;
        let ghost e0 = self.edges();
        self.rewind_mark = TypeNodeInd(0);
        self.nodes.truncate(i.0);
        let ghost saved0 = self.saved@;
        proof {
            assert(below(self.edges(), i.0 as nat) =~= below(e0, i.0 as nat));
            assert forall|a: usize, b: usize| a < i.0 && b < i.0 implies (#[trigger] self.nodes@[a as int].flows_to.m@.contains_key(b)
                <==> #[trigger] self.nodes@[b as int].flows_from.m@.contains_key(a)) by {
                assert(self.nodes@[b as int] == old(self).nodes@[b as int]);
                assert(self.nodes@[a as int] == old(self).nodes@[a as int]);
                assert(old(self).edges().contains_key((a, b)) == old(self).nodes@[a as int].flows_to.m@.contains_key(b));
            }
            assert forall|t: int| 0 <= t < self.nodes@.len() implies (#[trigger] self.nodes@[t]).flows_to.listed()
                && self.nodes@[t].flows_from.listed() by {
                assert(self.nodes@[t] == old(self).nodes@[t]);
            }
        }
        while self.journal.len() > 0
            invariant
                self.nodes@.len() == i.0,
                self.saved@ == saved0,
                self.rewind_mark.0 == 0,
                i.0 <= old(self).nodes@.len(),
                forall|t: int| 0 <= t < i.0 ==> (#[trigger] self.nodes@[t]).data == old(self).nodes@[t].data,
                forall|t: int|
                    0 <= t < self.nodes@.len() ==> (#[trigger] self.nodes@[t]).flows_to.listed()
                        && self.nodes@[t].flows_from.listed(),
                forall|a: usize, b: usize|
                    a < i.0 && b < i.0 ==> (#[trigger] self.nodes@[a as int].flows_to.m@.contains_key(b)
                        <==> #[trigger] self.nodes@[b as int].flows_from.m@.contains_key(a)),
                forall|t: int|
                    0 <= t < self.journal@.len() ==> (#[trigger] self.journal@[t]).0.0 < i.0
                        && self.journal@[t].1.0 < i.0,
                replayable(below(self.edges(), i.0 as nat), self.journal_model()),
                undo(below(self.edges(), i.0 as nat), self.journal_model()) == saved0,
            decreases self.journal@.len(),
        {
            let ghost jm = self.journal_model();
            let ghost b0 = below(self.edges(), i.0 as nat);
            let ghost n0 = self.nodes@;
            let (lhs, rhs, val) = self.journal.pop().unwrap();
            proof {
                assert(self.journal_model() =~= jm.drop_last());
                assert(self.journal@.len() + 1 == jm.len());
                assert(jm[jm.len() - 1] == (lhs.0, rhs.0, val));
                assert(jm.last() == (lhs.0, rhs.0, val));
                assert(lhs.0 < i.0 && rhs.0 < i.0);
            }
            match val {
                Some(val) => {
                    proof {
                        assert(b0.contains_key((lhs.0, rhs.0)));
                        assert(n0[lhs.0 as int].flows_to.m@.contains_key(rhs.0));
                        assert(n0[rhs.0 as int].flows_from.m@.contains_key(lhs.0));
                    }
                    let v2 = val.clone();
                    self.nodes[lhs.0].flows_to.m.insert(rhs.0, val);
                    self.nodes[rhs.0].flows_from.m.insert(lhs.0, v2);
                },
                None => {
                    self.nodes[lhs.0].flows_to.m.remove(&rhs.0);
                    self.nodes[rhs.0].flows_from.m.remove(&lhs.0);
                },
            }
            proof {
                assert(below(self.edges(), i.0 as nat) =~= undo_step(b0, jm.last()));
                assert forall|t: int| 0 <= t < self.nodes@.len() implies (#[trigger] self.nodes@[t]).flows_to.listed()
                    && self.nodes@[t].flows_from.listed() by {
                    if t != lhs.0 && t != rhs.0 {
                        assert(self.nodes@[t] == n0[t]);
                    }
                }
                assert forall|a: usize, b: usize| a < i.0 && b < i.0 implies (#[trigger] self.nodes@[a as int].flows_to.m@.contains_key(b)
                    <==> #[trigger] self.nodes@[b as int].flows_from.m@.contains_key(a)) by {
                    assert(n0[a as int].flows_to.m@.contains_key(b) <==> n0[b as int].flows_from.m@.contains_key(a));
                }
                assert forall|t: int| 0 <= t < i.0 implies (#[trigger] self.nodes@[t]).data == old(self).nodes@[t].data by {
                    assert(self.nodes@[t].data == n0[t].data);
                }
            }
        }
        let ghost n1 = self.nodes@;
        proof {
            assert(self.journal_model() =~= Seq::<(usize, usize, Option<E>)>::empty());
            assert(below(self.edges(), i.0 as nat) == saved0);
        }
        let mut k: usize = 0;
        while k < self.nodes.len()
            invariant
                k <= self.nodes@.len(),
                self.nodes@.len() == i.0,
                n1.len() == i.0,
                self.journal@.len() == 0,
                self.rewind_mark.0 == 0,
                forall|t: int|
                    0 <= t < k ==> (#[trigger] self.nodes@[t]).flows_to.wf() && self.nodes@[t].flows_from.wf()
                        && self.nodes@[t].flows_to.m@ == keys_below(n1[t].flows_to.m@, i.0)
                        && self.nodes@[t].flows_from.m@ == keys_below(n1[t].flows_from.m@, i.0),
                forall|t: int|
                    k <= t < self.nodes@.len() ==> (#[trigger] self.nodes@[t]).flows_to == n1[t].flows_to
                        && self.nodes@[t].flows_from == n1[t].flows_from,
                forall|t: int|
                    0 <= t < n1.len() ==> (#[trigger] n1[t]).flows_to.listed() && n1[t].flows_from.listed(),
                i.0 <= old(self).nodes@.len(),
                forall|t: int| 0 <= t < n1.len() ==> (#[trigger] n1[t]).data == old(self).nodes@[t].data,
                forall|t: int| 0 <= t < k ==> N::truncate_spec(old(self).nodes@[t].data, i, (#[trigger] self.nodes@[t]).data),
                forall|t: int| k <= t < self.nodes@.len() ==> (#[trigger] self.nodes@[t]).data == n1[t].data,
            decreases self.nodes@.len() - k,
        {
            let ghost before = self.nodes@;
            self.nodes[k].fix_and_truncate(i);
            proof {
                assert forall|t: int| 0 <= t < k + 1 implies (#[trigger] self.nodes@[t]).flows_to.wf()
                    && self.nodes@[t].flows_from.wf()
                    && self.nodes@[t].flows_to.m@ == keys_below(n1[t].flows_to.m@, i.0)
                    && self.nodes@[t].flows_from.m@ == keys_below(n1[t].flows_from.m@, i.0) by {
                    if t < k {
                        assert(self.nodes@[t] == before[t]);
                    }
                }
                assert forall|t: int| k + 1 <= t < self.nodes@.len() implies (#[trigger] self.nodes@[t]).flows_to
                    == n1[t].flows_to && self.nodes@[t].flows_from == n1[t].flows_from by {
                    assert(self.nodes@[t] == before[t]);
                }
                assert forall|t: int| 0 <= t < k + 1 implies N::truncate_spec(old(self).nodes@[t].data, i, (#[trigger] self.nodes@[t]).data) by {
                    if t < k {
                        assert(self.nodes@[t] == before[t]);
                    }
                }
                assert forall|t: int| k + 1 <= t < self.nodes@.len() implies (#[trigger] self.nodes@[t]).data == n1[t].data by {
                    assert(self.nodes@[t] == before[t]);
                }
            }
            k = k + 1;
        }
        self.saved = Ghost(Map::empty());
        proof {
            assert(self.edges() =~= saved0) by {
                assert forall|p: (usize, usize)| self.edges().contains_key(p) <==> saved0.contains_key(p) by {
                    if p.0 < i.0 {
                        assert(self.nodes@[p.0 as int].flows_to.m@ == keys_below(n1[p.0 as int].flows_to.m@, i.0));
                    }
                    if saved0.contains_key(p) {
                        assert(p.0 < i.0 && p.1 < i.0);
                    }
                }
            }
            assert forall|b: usize, a: usize| b < self.nodes@.len() implies (
                #[trigger] self.nodes@[b as int].flows_from.m@.contains_key(a)
                <==> self.edges().contains_key((a, b))) by {
                assert(self.nodes@[b as int].flows_from.m@ == keys_below(n1[b as int].flows_from.m@, i.0));
                if a < i.0 {
                    assert(self.nodes@[a as int].flows_to.m@ == keys_below(n1[a as int].flows_to.m@, i.0));
                    assert(n1[a as int].flows_to.m@.contains_key(b) <==> n1[b as int].flows_from.m@.contains_key(a));
                }
            }
            assert(below(self.edges(), 0) =~= Map::<(usize, usize), E>::empty());
            assert(self.journal_model() =~= Seq::<(usize, usize, Option<E>)>::empty());
            assert(self.data().len() == self.nodes@.len());
            assert forall|t: int| 0 <= t < i.0 implies N::truncate_spec(
                #[trigger] old(self).data()[t],
                TypeNodeInd(i.0),
                self.data()[t],
            ) by {
                assert(old(self).data()[t] == old(self).nodes@[t].data);
                assert(self.data()[t] == self.nodes@[t].data);
            }
        }
    }

    fn update_edge_value(&mut self, lhs: TypeNodeInd, rhs: TypeNodeInd, val: E)
        requires
            old(self).wf_struct(),
            lhs.0 < old(self).size(),
            rhs.0 < old(self).size(),
        ensures
            final(self).wf_struct(),
            final(self).edges() == old(self).edges().insert((lhs.0, rhs.0), val),
            final(self).size() == old(self).size(),
            final(self).data() == old(self).data(),
            final(self).mark() == old(self).mark(),
            final(self).saved_edges() == old(self).saved_edges(),
            cloned(val, final(self).nodes@[rhs.0 as int].flows_from.m@[lhs.0]),
            final(self).journal@ == if lhs.0 < old(self).mark() && rhs.0 < old(self).mark() {
                old(self).journal@.push(
                    (
                        lhs,
                        rhs,
                        if old(self).edges().contains_key((lhs.0, rhs.0)) {
                            Some(old(self).edges()[(lhs.0, rhs.0)])
                        } else {
                            None
                        },
                    ),
                )
            } else {
                old(self).journal@
            },
    {
        let val2 = val.clone();
        let prev = self.nodes[lhs.0].flows_to.insert(rhs.0, val);
        self.nodes[rhs.0].flows_from.insert(lhs.0, val2);
        proof {
            assert(self.edges() =~= old(self).edges().insert((lhs.0, rhs.0), val));
            assert(self.data() =~= old(self).data());
        }
        let ghost mid = below(self.edges(), self.rewind_mark.0 as nat);
        if lhs.0 < self.rewind_mark.0 && rhs.0 < self.rewind_mark.0 {
            self.journal.push((lhs, rhs, prev));
            proof {
                let jm = old(self).journal_model();
                let e = (lhs.0, rhs.0, prev);
                assert(self.journal_model() =~= jm.push(e));
                assert(self.journal_model().drop_last() =~= jm);
                assert(undo_step(mid, e) =~= below(old(self).edges(), self.rewind_mark.0 as nat));
            }
        } else {
            proof {
                assert(mid =~= below(old(self).edges(), self.rewind_mark.0 as nat));
            }
        }
    }
}

} // verus!
