//! A set of pairs of source locations, used to track which bound type
//! variables of two polymorphic types correspond. Each left location is
//! paired with at most one right location (or, seen flipped, the other way
//! round), and a flipped view shares its storage with the set it was made from.

use vstd::prelude::*;
use std::collections::HashMap;
use std::rc::Rc;

verus! {

broadcast use vstd::std_specs::hash::group_hash_axioms;

/// A position in the source text.
#[derive(Debug, Clone, Copy, PartialEq, Eq, Hash, Structural)]
pub struct SourceLoc(pub u64);

/// A bound type variable: where it was declared and its interned name.
#[derive(Debug, Clone, Copy, PartialEq, Eq, Hash, Structural)]
pub struct VarSpec {
    pub loc: SourceLoc,
    pub name: u32,
}

/// `Rc::ptr_eq`: whether two `Rc`s point to the same allocation. Two `Rc`s
/// that share an allocation share its value, which is all that is claimed;
/// two distinct allocations may hold equal values, so nothing is claimed
/// when the result is `false`.
#[verifier::external_body]
fn rc_ptr_eq<T>(a: &Rc<T>, b: &Rc<T>) -> (r: bool)
    ensures
        r ==> *a == *b,
{
    Rc::ptr_eq(a, b)
}

/// The keys of a map, each once.
fn map_keys(m: &HashMap<u64, u64>) -> (r: Vec<u64>)
    ensures
        r@.to_set() == m@.dom(),
        r@.no_duplicates(),
{
    let ghost ks = vstd::std_specs::iter::IteratorSpec::remaining(
        &vstd::std_specs::hash::spec_keys_iter(m),
    );
    proof {
        vstd::std_specs::hash::axiom_spec_keys_iter(m);
    }
    let mut r: Vec<u64> = Vec::new();
    for k in it: m.keys()
        invariant
            it.seq() == ks,
            r@ == ks.take(it.index() as int).map_values(|x: &u64| *x),
    {
        proof {
            assert(ks.take(it.index() + 1).map_values(|x: &u64| *x) =~= ks.take(
                it.index() as int,
            ).map_values(|x: &u64| *x).push(*k));
        }
        r.push(*k);
    }
    assert(ks.take(ks.len() as int) =~= ks);
    assert(r@ =~= ks.unref());
    r
}

/// The stored relation: a map from each left location to its right one.
#[derive(Debug)]
struct BoundPairsSetSub(HashMap<u64, u64>);

impl View for BoundPairsSetSub {
    type V = Map<u64, u64>;

    closed spec fn view(&self) -> Map<u64, u64> {
        self.0@
    }
}

impl BoundPairsSetSub {
    fn new() -> (r: Self)
        ensures
            r@ == Map::<u64, u64>::empty(),
    {
        BoundPairsSetSub(HashMap::new())
    }

    fn copy(&self) -> (r: Self)
        ensures
            r@ == self@,
    {
        BoundPairsSetSub(self.0.clone())
    }

    fn is_empty(&self) -> (r: bool)
        ensures
            r == (self@ == Map::<u64, u64>::empty()),
    {
        let r = self.0.is_empty();
        proof {
            if !r {
                assert(!self@.dom().is_empty());
                let k = self@.dom().choose();
                assert(!Map::<u64, u64>::empty().contains_key(k));
            } else {
                assert(self@ =~= Map::<u64, u64>::empty());
            }
        }
        r
    }

    /// Whether both hold the same entries.
    fn same_entries(&self, other: &Self) -> (r: bool)
        ensures
            r == (self@ == other@),
    {
        let keys = map_keys(&self.0);
        let mut i: usize = 0;
        while i < keys.len()
            invariant
                i <= keys.len(),
                keys@.to_set() == self@.dom(),
                forall|j: int|
                    0 <= j < i ==> #[trigger] other@.contains_key(keys@[j]) && other@[keys@[j]]
                        == self@[keys@[j]],
            decreases keys.len() - i,
        {
            let k = keys[i];
            assert(keys@.to_set().contains(k));
            match other.0.get(&k) {
                Some(v) => {
                    if *v != *self.0.get(&k).unwrap() {
                        return false;
                    }
                },
                None => {
                    return false;
                },
            }
            i += 1;
        }
        let other_keys = map_keys(&other.0);
        let mut j: usize = 0;
        while j < other_keys.len()
            invariant
                j <= other_keys.len(),
                other_keys@.to_set() == other@.dom(),
                forall|t: int| 0 <= t < j ==> #[trigger] self@.contains_key(other_keys@[t]),
            decreases other_keys.len() - j,
        {
            let k = other_keys[j];
            assert(other_keys@.to_set().contains(k));
            if !self.0.contains_key(&k) {
                return false;
            }
            j += 1;
        }
        proof {
            assert forall|k: u64| #[trigger] self@.contains_key(k) implies other@.contains_key(k)
                && other@[k] == self@[k] by {
                assert(keys@.to_set().contains(k));
                let t = choose|t: int| 0 <= t < keys.len() && keys@[t] == k;
                assert(other@.contains_key(keys@[t]));
            }
            assert forall|k: u64| #[trigger] other@.contains_key(k) implies self@.contains_key(k) by {
                assert(other_keys@.to_set().contains(k));
                let t = choose|t: int| 0 <= t < other_keys.len() && other_keys@[t] == k;
                assert(self@.contains_key(other_keys@[t]));
            }
            assert(self@ =~= other@);
        }
        true
    }

    /// Keeps the entries whose left location `f` accepts.
    fn filter_left<F: Fn(SourceLoc) -> bool>(&mut self, f: &F)
        requires
            forall|x: SourceLoc| f.requires((x,)),
        ensures
            final(self)@.submap_of(old(self)@),
            forall|k: u64|
                #[trigger] old(self)@.contains_key(k) ==> (final(self)@.contains_key(k) ==> f.ensures(
                    (SourceLoc(k),),
                    true,
                )) && (!final(self)@.contains_key(k) ==> f.ensures((SourceLoc(k),), false)),
    {
        let keys = map_keys(&self.0);
        let mut i: usize = 0;
        while i < keys.len()
            invariant
                i <= keys.len(),
                forall|x: SourceLoc| f.requires((x,)),
                keys@.to_set() == old(self)@.dom(),
                keys@.no_duplicates(),
                self@.submap_of(old(self)@),
                forall|j: int|
                    i <= j < keys.len() ==> #[trigger] self@.contains_key(keys@[j]),
                forall|j: int|
                    0 <= j < i ==> (#[trigger] self@.contains_key(keys@[j]) ==> f.ensures(
                        (SourceLoc(keys@[j]),),
                        true,
                    )) && (!self@.contains_key(keys@[j]) ==> f.ensures((SourceLoc(keys@[j]),), false)),
            decreases keys.len() - i,
        {
            let k = keys[i];
            proof {
                assert(keys@.to_set().contains(k));
            }
            if !f(SourceLoc(k)) {
                let ghost prev = self@;
                self.0.remove(&k);
                proof {
                    assert(self@ == prev.remove(k));
                    assert forall|j: int| i < j < keys.len() implies #[trigger] self@.contains_key(
                        keys@[j],
                    ) by {
                        assert(keys@[j] != keys@[i as int]);
                    }
                    assert forall|x: u64| #[trigger] self@.contains_key(x) implies prev.contains_key(x)
                        && self@[x] == prev[x] by {}
                    assert(self@.submap_of(prev));
                    assert(prev.submap_of(old(self)@));
                }
            }
            i += 1;
        }
        proof {
            assert forall|k: u64| #[trigger] old(self)@.contains_key(k) implies (self@.contains_key(k)
                ==> f.ensures((SourceLoc(k),), true)) && (!self@.contains_key(k) ==> f.ensures(
                (SourceLoc(k),),
                false,
            )) by {
                assert(keys@.to_set().contains(k));
                let t = choose|t: int| 0 <= t < keys.len() && keys@[t] == k;
                assert(self@.contains_key(keys@[t]) ==> f.ensures((SourceLoc(keys@[t]),), true));
            }
        }
    }

    /// Keeps the entries whose right location `f` accepts.
    fn filter_right<F: Fn(SourceLoc) -> bool>(&mut self, f: &F)
        requires
            forall|x: SourceLoc| f.requires((x,)),
        ensures
            final(self)@.submap_of(old(self)@),
            forall|k: u64|
                #[trigger] old(self)@.contains_key(k) ==> (final(self)@.contains_key(k) ==> f.ensures(
                    (SourceLoc(old(self)@[k]),),
                    true,
                )) && (!final(self)@.contains_key(k) ==> f.ensures((SourceLoc(old(self)@[k]),), false)),
    {
        let keys = map_keys(&self.0);
        let mut i: usize = 0;
        while i < keys.len()
            invariant
                i <= keys.len(),
                forall|x: SourceLoc| f.requires((x,)),
                keys@.to_set() == old(self)@.dom(),
                keys@.no_duplicates(),
                self@.submap_of(old(self)@),
                forall|j: int|
                    i <= j < keys.len() ==> #[trigger] self@.contains_key(keys@[j]),
                forall|j: int|
                    0 <= j < i ==> (#[trigger] self@.contains_key(keys@[j]) ==> f.ensures(
                        (SourceLoc(old(self)@[keys@[j]]),),
                        true,
                    )) && (!self@.contains_key(keys@[j]) ==> f.ensures(
                        (SourceLoc(old(self)@[keys@[j]]),),
                        false,
                    )),
            decreases keys.len() - i,
        {
            let k = keys[i];
            proof {
                assert(keys@.to_set().contains(k));
            }
            let v = *self.0.get(&k).unwrap();
            if !f(SourceLoc(v)) {
                let ghost prev = self@;
                self.0.remove(&k);
                proof {
                    assert(self@ == prev.remove(k));
                    assert forall|j: int| i < j < keys.len() implies #[trigger] self@.contains_key(
                        keys@[j],
                    ) by {
                        assert(keys@[j] != keys@[i as int]);
                    }
                    assert forall|x: u64| #[trigger] self@.contains_key(x) implies prev.contains_key(x)
                        && self@[x] == prev[x] by {}
                    assert(self@.submap_of(prev));
                    assert(prev.submap_of(old(self)@));
                }
            }
            i += 1;
        }
        proof {
            assert forall|k: u64| #[trigger] old(self)@.contains_key(k) implies (self@.contains_key(k)
                ==> f.ensures((SourceLoc(old(self)@[k]),), true)) && (!self@.contains_key(k)
                ==> f.ensures((SourceLoc(old(self)@[k]),), false)) by {
                assert(keys@.to_set().contains(k));
                let t = choose|t: int| 0 <= t < keys.len() && keys@[t] == k;
                assert(self@.contains_key(keys@[t]) ==> f.ensures(
                    (SourceLoc(old(self)@[keys@[t]]),),
                    true,
                ));
            }
        }
    }

    /// Pairs `pair.0` with `pair.1`, replacing any earlier partner of `pair.0`.
    fn push(&mut self, pair: (SourceLoc, SourceLoc))
        ensures
            final(self)@ == old(self)@.insert(pair.0.0, pair.1.0),
    {
        self.0.insert(pair.0.0, pair.1.0);
    }

    /// Keeps the entries that `other` also holds (`flipped` false) or holds
    /// the other way round (`flipped` true).
    fn retain_common(&mut self, other: &Self, flipped: bool)
        ensures
            final(self)@ == common_entries(old(self)@, other@, flipped),
    {
        let keys = map_keys(&self.0);
        let mut i: usize = 0;
        while i < keys.len()
            invariant
                i <= keys.len(),
                keys@.to_set() == old(self)@.dom(),
                keys@.no_duplicates(),
                self@.submap_of(old(self)@),
                forall|j: int| i <= j < keys.len() ==> #[trigger] self@.contains_key(keys@[j]),
                forall|j: int|
                    0 <= j < i ==> (#[trigger] self@.contains_key(keys@[j]) <==> common_entries(
                        old(self)@,
                        other@,
                        flipped,
                    ).contains_key(keys@[j])),
            decreases keys.len() - i,
        {
            let k = keys[i];
            proof {
                assert(keys@.to_set().contains(k));
            }
            let v = *self.0.get(&k).unwrap();
            let keep = if flipped {
                other.get(v, k)
            } else {
                other.get(k, v)
            };
            if !keep {
                let ghost prev = self@;
                self.0.remove(&k);
                proof {
                    assert(self@ == prev.remove(k));
                    assert forall|j: int| i < j < keys.len() implies #[trigger] self@.contains_key(
                        keys@[j],
                    ) by {
                        assert(keys@[j] != keys@[i as int]);
                    }
                    assert forall|x: u64| #[trigger] self@.contains_key(x) implies prev.contains_key(x)
                        && self@[x] == prev[x] by {}
                    assert(self@.submap_of(prev));
                    assert(prev.submap_of(old(self)@));
                }
            }
            i += 1;
        }
        proof {
            let c = common_entries(old(self)@, other@, flipped);
            assert forall|k: u64| #[trigger] self@.contains_key(k) <==> c.contains_key(k) by {
                if old(self)@.contains_key(k) {
                    assert(keys@.to_set().contains(k));
                    let t = choose|t: int| 0 <= t < keys.len() && keys@[t] == k;
                    assert(self@.contains_key(keys@[t]) <==> c.contains_key(keys@[t]));
                }
            }
            assert(self@ =~= c);
        }
    }

    /// Keeps the entries that `other` also holds.
    fn update_intersect(&mut self, other: &Self)
        ensures
            final(self)@ == common_entries(old(self)@, other@, false),
    {
        self.retain_common(other, false);
    }

    /// Keeps the entries that `other` holds the other way round.
    fn update_intersect_flipped(&mut self, other: &Self)
        ensures
            final(self)@ == common_entries(old(self)@, other@, true),
    {
        self.retain_common(other, true);
    }

    /// Whether `loc1` is paired with `loc2`.
    fn get(&self, loc1: u64, loc2: u64) -> (r: bool)
        ensures
            r == (self@.contains_key(loc1) && self@[loc1] == loc2),
    {
        match self.0.get(&loc1) {
            Some(v) => *v == loc2,
            None => false,
        }
    }
}

/// The entries of `m` that `o` also holds (`flipped` false), or holds the
/// other way round (`flipped` true).
pub open spec fn common_entries(m: Map<u64, u64>, o: Map<u64, u64>, flipped: bool) -> Map<u64, u64> {
    m.restrict(
        Set::new(
            |k: u64|
                if flipped {
                    o.contains_key(m[k]) && o[m[k]] == k
                } else {
                    o.contains_key(k) && o[k] == m[k]
                },
        ),
    )
}

/// The pairs that a stored map stands for, read the other way round when
/// `flipped`.
pub open spec fn pairs_of(m: Map<u64, u64>, flipped: bool) -> Set<(u64, u64)> {
    Set::new(
        |p: (u64, u64)|
            if flipped {
                m.contains_key(p.1) && m[p.1] == p.0
            } else {
                m.contains_key(p.0) && m[p.0] == p.1
            },
    )
}

/// A set of pairs of source locations, possibly viewed flipped. Views made
/// by `flip` share the stored map until one of them is changed.
#[derive(Debug)]
pub struct BoundPairsSet(Option<Rc<BoundPairsSetSub>>, bool);

impl BoundPairsSet {
    #[verifier::type_invariant]
    spec fn inv(self) -> bool {
        match self.0 {
            Some(rc) => (*rc)@ != Map::<u64, u64>::empty(),
            None => true,
        }
    }

    /// The stored map from left to right locations (before any flip).
    pub closed spec fn stored(self) -> Map<u64, u64> {
        match self.0 {
            Some(rc) => (*rc)@,
            None => Map::empty(),
        }
    }

    /// Whether the stored map is read the other way round.
    pub closed spec fn flipped(self) -> bool {
        self.1
    }

    /// The pairs in the set.
    pub open spec fn pairs(self) -> Set<(u64, u64)> {
        pairs_of(self.stored(), self.flipped())
    }

    /// The empty set.
    pub fn new() -> (r: Self)
        ensures
            r.stored() == Map::<u64, u64>::empty(),
            !r.flipped(),
    {
        BoundPairsSet(None, false)
    }

    /// Whether `self` and `other` are the same view of the same storage.
    fn shares_storage(&self, other: &Self) -> (r: bool)
        ensures
            r ==> self.stored() == other.stored() && self.flipped() == other.flipped(),
            self.stored() == Map::<u64, u64>::empty() && other.stored() == Map::<u64, u64>::empty()
                && self.flipped() == other.flipped() ==> r,
    {
        proof {
            use_type_invariant(self);
            use_type_invariant(other);
        }
        if self.1 != other.1 {
            return false;
        }
        match (&self.0, &other.0) {
            (None, None) => true,
            (Some(a), Some(b)) => rc_ptr_eq(a, b),
            _ => false,
        }
    }

    /// Empties the set (and drops any flip).
    pub fn clear(&mut self)
        ensures
            final(self).stored() == Map::<u64, u64>::empty(),
            !final(self).flipped(),
    {
        *self = BoundPairsSet(None, false);
    }

    /// A private copy of the stored map.
    fn stored_copy(&self) -> (r: BoundPairsSetSub)
        ensures
            r@ == self.stored(),
    {
        match &self.0 {
            Some(rc) => rc.copy(),
            None => BoundPairsSetSub::new(),
        }
    }

    /// Stores `sub` as the new map (dropping the storage when it is empty).
    /// Returns whether the map changed; when it did not, the existing storage
    /// is kept and stays shared.
    fn mutate(&mut self, sub: BoundPairsSetSub) -> (r: bool)
        ensures
            final(self).stored() == sub@,
            final(self).flipped() == old(self).flipped(),
            r == (sub@ != old(self).stored()),
    {
        proof {
            use_type_invariant(&*self);
        }
        let r = match &self.0 {
            Some(rc) => !rc.same_entries(&sub),
            None => !sub.is_empty(),
        };
        if r {
            if sub.is_empty() {
                self.0 = None;
            } else {
                self.0 = Some(Rc::new(sub));
            }
        }
        r
    }

    /// Keeps the pairs whose left location `f` accepts.
    pub fn filter_left<F: Fn(SourceLoc) -> bool>(&mut self, f: F)
        requires
            forall|x: SourceLoc| f.requires((x,)),
        ensures
            final(self).flipped() == old(self).flipped(),
            final(self).pairs().subset_of(old(self).pairs()),
            forall|p: (u64, u64)|
                #[trigger] old(self).pairs().contains(p) ==> (final(self).pairs().contains(p)
                    ==> f.ensures((SourceLoc(p.0),), true)) && (!final(self).pairs().contains(p)
                    ==> f.ensures((SourceLoc(p.0),), false)),
    {
        let mut sub = self.stored_copy();
        if self.1 {
            sub.filter_right(&f);
        } else {
            sub.filter_left(&f);
        }
        self.mutate(sub);
        proof {
            let m = old(self).stored();
            assert forall|p: (u64, u64)| #[trigger] self.pairs().contains(p) implies old(
                self,
            ).pairs().contains(p) by {
                if self.flipped() {
                    assert(m.contains_key(p.1));
                } else {
                    assert(m.contains_key(p.0));
                }
            }
            assert forall|p: (u64, u64)| #[trigger] old(self).pairs().contains(p) implies (
            self.pairs().contains(p) ==> f.ensures((SourceLoc(p.0),), true)) && (
            !self.pairs().contains(p) ==> f.ensures((SourceLoc(p.0),), false)) by {
                if self.flipped() {
                    assert(m.contains_key(p.1));
                } else {
                    assert(m.contains_key(p.0));
                }
            }
        }
    }

    /// Keeps the pairs whose right location `f` accepts.
    pub fn filter_right<F: Fn(SourceLoc) -> bool>(&mut self, f: F)
        requires
            forall|x: SourceLoc| f.requires((x,)),
        ensures
            final(self).flipped() == old(self).flipped(),
            final(self).pairs().subset_of(old(self).pairs()),
            forall|p: (u64, u64)|
                #[trigger] old(self).pairs().contains(p) ==> (final(self).pairs().contains(p)
                    ==> f.ensures((SourceLoc(p.1),), true)) && (!final(self).pairs().contains(p)
                    ==> f.ensures((SourceLoc(p.1),), false)),
    {
        let mut sub = self.stored_copy();
        if self.1 {
            sub.filter_left(&f);
        } else {
            sub.filter_right(&f);
        }
        self.mutate(sub);
        proof {
            let m = old(self).stored();
            assert forall|p: (u64, u64)| #[trigger] self.pairs().contains(p) implies old(
                self,
            ).pairs().contains(p) by {
                if self.flipped() {
                    assert(m.contains_key(p.1));
                } else {
                    assert(m.contains_key(p.0));
                }
            }
            assert forall|p: (u64, u64)| #[trigger] old(self).pairs().contains(p) implies (
            self.pairs().contains(p) ==> f.ensures((SourceLoc(p.1),), true)) && (
            !self.pairs().contains(p) ==> f.ensures((SourceLoc(p.1),), false)) by {
                if self.flipped() {
                    assert(m.contains_key(p.1));
                } else {
                    assert(m.contains_key(p.0));
                }
            }
        }
    }

    /// Adds the pair `(pair.0, pair.1)`. The stored map keeps one partner per
    /// key, so the pair replaces any earlier one with the same left location
    /// (or, when flipped, the same right location).
    pub fn push(&mut self, pair: (SourceLoc, SourceLoc))
        ensures
            final(self).flipped() == old(self).flipped(),
            final(self).stored() == if old(self).flipped() {
                old(self).stored().insert(pair.1.0, pair.0.0)
            } else {
                old(self).stored().insert(pair.0.0, pair.1.0)
            },
    {
        let mut pair = pair;
        if self.1 {
            pair = (pair.1, pair.0);
        }
        let mut sub = self.stored_copy();
        sub.push(pair);
        self.mutate(sub);
    }

    /// The same set read the other way round, sharing storage with `self`.
    pub fn flip(&self) -> (r: Self)
        ensures
            r.stored() == self.stored(),
            r.flipped() == !self.flipped(),
    {
        proof {
            use_type_invariant(self);
        }
        let shared = match &self.0 {
            Some(rc) => Some(Rc::clone(rc)),
            None => None,
        };
        BoundPairsSet(shared, !self.1)
    }

    /// Keeps only the pairs that `other` holds too. Returns whether the set
    /// changed; when `other` is empty the set is cleared (dropping any flip)
    /// and `true` is returned, unless both are empty views with the same flip.
    pub fn update_intersect(&mut self, other: &Self) -> (r: bool)
        ensures
            final(self).pairs() == old(self).pairs().intersect(other.pairs()),
            other.stored() == Map::<u64, u64>::empty() ==> {
                if old(self).stored() == Map::<u64, u64>::empty() && old(self).flipped()
                    == other.flipped() {
                    &&& !r
                    &&& *final(self) == *old(self)
                } else {
                    &&& r
                    &&& final(self).stored() == Map::<u64, u64>::empty()
                    &&& !final(self).flipped()
                }
            },
            other.stored() != Map::<u64, u64>::empty() ==> {
                &&& final(self).flipped() == old(self).flipped()
                &&& final(self).stored() == common_entries(
                    old(self).stored(),
                    other.stored(),
                    old(self).flipped() != other.flipped(),
                )
                &&& r == (final(self).stored() != old(self).stored())
            },
    {
        proof {
            use_type_invariant(&*self);
            use_type_invariant(other);
        }
        let ghost old_pairs = self.pairs();
        // Skip the intersection when self and other are the same view.
        if self.shares_storage(other) {
            proof {
                lemma_common_entries_self(self.stored(), self.flipped());
                assert(old_pairs.intersect(other.pairs()) =~= old_pairs);
            }
            return false;
        }
        let flip = self.1 != other.1;
        match &other.0 {
            Some(other_sub) => {
                let mut sub = self.stored_copy();
                if flip {
                    sub.update_intersect_flipped(other_sub);
                } else {
                    sub.update_intersect(other_sub);
                }
                let r = self.mutate(sub);
                proof {
                    lemma_common_entries_pairs(old(self).stored(), other.stored(), old(self).flipped(), other.flipped());
                }
                r
            },
            None => {
                self.clear();
                proof {
                    assert(self.pairs() =~= Set::<(u64, u64)>::empty());
                    assert(other.pairs() =~= Set::<(u64, u64)>::empty());
                    assert(old_pairs.intersect(other.pairs()) =~= Set::<(u64, u64)>::empty());
                }
                true
            },
        }
    }

    /// Whether the pair `(loc1, loc2)` is in the set.
    pub fn get(&self, loc1: SourceLoc, loc2: SourceLoc) -> (r: bool)
        ensures
            r == self.pairs().contains((loc1.0, loc2.0)),
    {
        match &self.0 {
            Some(sub) => {
                if self.1 {
                    sub.get(loc2.0, loc1.0)
                } else {
                    sub.get(loc1.0, loc2.0)
                }
            },
            None => false,
        }
    }

    /// Whether some pair `(loc, loc2)` in the set has a variable declared at
    /// `loc` in `lhs` and one of the same name declared at `loc2` in `rhs`.
    pub fn disjoint_union_vars_have_match(&self, lhs: &[VarSpec], rhs: &[VarSpec]) -> (r: bool)
        ensures
            r == exists|i: int, j: int|
                0 <= i < lhs.len() && 0 <= j < rhs.len() && #[trigger] lhs@[i].name
                    == #[trigger] rhs@[j].name && self.pairs().contains((lhs@[i].loc.0, rhs@[j].loc.0)),
    {
        let (from, to) = if self.1 {
            (rhs, lhs)
        } else {
            (lhs, rhs)
        };
        match &self.0 {
            Some(sub) => {
                let mut i: usize = 0;
                while i < from.len()
                    invariant
                        i <= from.len(),
                        self.0 == Some(*sub),
                        self.1 ==> from == rhs && to == lhs,
                        !self.1 ==> from == lhs && to == rhs,
                        forall|a: int, b: int|
                            0 <= a < i && 0 <= b < to.len() ==> !(#[trigger] from@[a].name
                                == #[trigger] to@[b].name && sub@.contains_key(from@[a].loc.0)
                                && sub@[from@[a].loc.0] == to@[b].loc.0),
                    decreases from.len() - i,
                {
                    let spec = from[i];
                    match sub.0.get(&spec.loc.0) {
                        Some(loc2) => {
                            let expect = VarSpec { loc: SourceLoc(*loc2), name: spec.name };
                            let mut j: usize = 0;
                            while j < to.len()
                                invariant
                                    j <= to.len(),
                                    i < from.len(),
                                    self.0 == Some(*sub),
                                    self.1 ==> from == rhs && to == lhs,
                                    !self.1 ==> from == lhs && to == rhs,
                                    spec == from@[i as int],
                                    sub@.contains_key(spec.loc.0),
                                    expect == (VarSpec { loc: SourceLoc(sub@[spec.loc.0]), name: spec.name }),
                                    forall|b: int| 0 <= b < j ==> #[trigger] to@[b] != expect,
                                decreases to.len() - j,
                            {
                                if to[j] == expect {
                                    proof {
                                        let a = i as int;
                                        let b = j as int;
                                        if self.1 {
                                            assert(lhs@[b].name == rhs@[a].name);
                                            assert(self.pairs().contains((lhs@[b].loc.0, rhs@[a].loc.0)));
                                        } else {
                                            assert(lhs@[a].name == rhs@[b].name);
                                            assert(self.pairs().contains((lhs@[a].loc.0, rhs@[b].loc.0)));
                                        }
                                    }
                                    return true;
                                }
                                j += 1;
                            }
                        },
                        None => {},
                    }
                    i += 1;
                }
                proof {
                    assert forall|a: int, b: int|
                        0 <= a < lhs.len() && 0 <= b < rhs.len() && #[trigger] lhs@[a].name
                            == #[trigger] rhs@[b].name implies !self.pairs().contains(
                        (lhs@[a].loc.0, rhs@[b].loc.0),
                    ) by {
                        if self.1 {
                            assert(from@[b] == rhs@[b]);
                            assert(to@[a] == lhs@[a]);
                        } else {
                            assert(from@[a] == lhs@[a]);
                            assert(to@[b] == rhs@[b]);
                        }
                    }
                }
                false
            },
            None => {
                false
            },
        }
    }
}

impl Clone for BoundPairsSet {
    /// Another view of the same storage.
    fn clone(&self) -> (r: Self)
        ensures
            r.stored() == self.stored(),
            r.flipped() == self.flipped(),
    {
        proof {
            use_type_invariant(self);
        }
        let shared = match &self.0 {
            Some(rc) => Some(Rc::clone(rc)),
            None => None,
        };
        BoundPairsSet(shared, self.1)
    }
}

impl Default for BoundPairsSet {
    fn default() -> (r: Self)
        ensures
            r.stored() == Map::<u64, u64>::empty(),
            !r.flipped(),
    {
        BoundPairsSet(None, false)
    }
}

/// Intersecting a stored map with itself under the same flip keeps it.
proof fn lemma_common_entries_self(m: Map<u64, u64>, flipped: bool)
    ensures
        pairs_of(m, flipped).intersect(pairs_of(m, flipped)) == pairs_of(m, flipped),
{
    assert(pairs_of(m, flipped).intersect(pairs_of(m, flipped)) =~= pairs_of(m, flipped));
}

/// The entries kept by the intersection stand for exactly the pairs that
/// both sets hold.
proof fn lemma_common_entries_pairs(m: Map<u64, u64>, o: Map<u64, u64>, f1: bool, f2: bool)
    ensures
        pairs_of(common_entries(m, o, f1 != f2), f1) == pairs_of(m, f1).intersect(pairs_of(o, f2)),
{
    assert(pairs_of(common_entries(m, o, f1 != f2), f1) =~= pairs_of(m, f1).intersect(
        pairs_of(o, f2),
    ));
}

/// Flipping a set swaps each of its pairs, so flipping twice gives the
/// same set.
pub proof fn lemma_flip_swaps_pairs(m: Map<u64, u64>, flipped: bool, a: u64, b: u64)
    ensures
        pairs_of(m, !flipped).contains((a, b)) == pairs_of(m, flipped).contains((b, a)),
        pairs_of(m, !(!flipped)) == pairs_of(m, flipped),
{
}

/// After a pair is pushed, the set holds it, and every pair it held that
/// does not share the pushed pair's stored key.
pub proof fn lemma_push_then_get(m: Map<u64, u64>, flipped: bool, a: u64, b: u64, p: (u64, u64))
    ensures
        pairs_of(if flipped { m.insert(b, a) } else { m.insert(a, b) }, flipped).contains((a, b)),
        pairs_of(m, flipped).contains(p) && (if flipped { p.1 != b } else { p.0 != a }) ==> pairs_of(
            if flipped {
                m.insert(b, a)
            } else {
                m.insert(a, b)
            },
            flipped,
        ).contains(p),
{
}

/// Intersecting with the same set a second time keeps what the first time
/// kept, so `update_intersect` then reports no change.
pub proof fn lemma_intersect_idempotent(m: Map<u64, u64>, o: Map<u64, u64>, flipped: bool)
    ensures
        common_entries(common_entries(m, o, flipped), o, flipped) == common_entries(m, o, flipped),
{
    assert(common_entries(common_entries(m, o, flipped), o, flipped) =~= common_entries(
        m,
        o,
        flipped,
    ));
}

} // verus!
