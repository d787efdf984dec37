//! A disjoint-set (union-find) structure over copyable keys.
//!
//! The structure is a parent map: an item that is absent from the map, or
//! that is its own parent, is a root; every other item points at its parent.
//! The representative of an item is the root that following parents reaches.
use std::collections::HashMap;
use std::hash::Hash;
use vstd::prelude::*;
use vstd::laws_eq::obeys_concrete_eq;
use vstd::std_specs::hash::obeys_key_model;

verus! {

broadcast use vstd::std_specs::hash::group_hash_axioms;

/// The parent of `x` in the parent map `m` (an absent item is its own parent).
pub open spec fn parent_in<T>(m: Map<T, T>, x: T) -> T {
    if m.contains_key(x) {
        m[x]
    } else {
        x
    }
}

/// `x` is a root of `m`: it is its own parent.
pub open spec fn is_root<T>(m: Map<T, T>, x: T) -> bool {
    parent_in(m, x) == x
}

/// The item reached from `x` after following `n` parent links.
pub open spec fn ancestor<T>(m: Map<T, T>, x: T, n: nat) -> T
    decreases n,
{
    if n == 0 {
        x
    } else {
        ancestor(m, parent_in(m, x), (n - 1) as nat)
    }
}

/// Following parents from `x` eventually reaches a root.
pub open spec fn reaches_root<T>(m: Map<T, T>, x: T) -> bool {
    exists|n: nat| is_root(m, #[trigger] ancestor(m, x, n))
}

/// The representative of `x`: the root that following parents from `x` reaches.
pub open spec fn rep_of<T>(m: Map<T, T>, x: T) -> T {
    ancestor(m, x, choose|n: nat| is_root(m, #[trigger] ancestor(m, x, n)))
}

/// The parent map after `union(target, incoming)`: the representative of
/// `incoming` now points at the representative of `target`.
pub open spec fn union_map<T>(m: Map<T, T>, target: T, incoming: T) -> Map<T, T> {
    m.insert(rep_of(m, incoming), rep_of(m, target))
}

/// One more parent link extends a walk by one step.
pub proof fn lemma_ancestor_succ<T>(m: Map<T, T>, x: T, n: nat)
    ensures
        ancestor(m, x, n + 1) == parent_in(m, ancestor(m, x, n)),
    decreases n,
{
    if n > 0 {
        let p = parent_in(m, x);
        lemma_ancestor_succ(m, p, (n - 1) as nat);
        assert(ancestor(m, x, n + 1) == ancestor(m, p, n));
        assert(ancestor(m, x, n) == ancestor(m, p, (n - 1) as nat));
    } else {
        assert(ancestor(m, x, 1) == ancestor(m, parent_in(m, x), 0));
    }
}

/// Once a walk reaches a root it stays there.
pub proof fn lemma_root_stable<T>(m: Map<T, T>, x: T, n: nat, k: nat)
    requires
        is_root(m, ancestor(m, x, n)),
        n <= k,
    ensures
        ancestor(m, x, k) == ancestor(m, x, n),
    decreases k - n,
{
    if k > n {
        lemma_root_stable(m, x, n, (k - 1) as nat);
        lemma_ancestor_succ(m, x, (k - 1) as nat);
    }
}

/// Any root that a walk from `x` reaches is the representative of `x`.
pub proof fn lemma_rep_is_reached_root<T>(m: Map<T, T>, x: T, n: nat)
    requires
        is_root(m, ancestor(m, x, n)),
    ensures
        reaches_root(m, x),
        rep_of(m, x) == ancestor(m, x, n),
        is_root(m, rep_of(m, x)),
{
    let k = choose|k: nat| is_root(m, #[trigger] ancestor(m, x, k));
    if k <= n {
        lemma_root_stable(m, x, k, n);
    } else {
        lemma_root_stable(m, x, n, k);
    }
}

/// A non-root item has the representative of its parent.
pub proof fn lemma_rep_of_parent<T>(m: Map<T, T>, x: T)
    requires
        reaches_root(m, parent_in(m, x)),
    ensures
        reaches_root(m, x),
        rep_of(m, x) == rep_of(m, parent_in(m, x)),
{
    let k = choose|k: nat| is_root(m, #[trigger] ancestor(m, parent_in(m, x), k));
    lemma_rep_is_reached_root(m, parent_in(m, x), k);
    assert(ancestor(m, x, k + 1) == ancestor(m, parent_in(m, x), k));
    lemma_rep_is_reached_root(m, x, k + 1);
}

/// Linking root `b` under root `a` moves exactly the class of `b` into the
/// class of `a`; every other item keeps its representative.
pub proof fn lemma_link_roots<T>(m: Map<T, T>, a: T, b: T, x: T, n: nat)
    requires
        is_root(m, a),
        is_root(m, b),
        is_root(m, ancestor(m, x, n)),
    ensures
        reaches_root(m.insert(b, a), x),
        rep_of(m.insert(b, a), x) == (if ancestor(m, x, n) == b {
            a
        } else {
            ancestor(m, x, n)
        }),
    decreases n,
{
    let m2 = m.insert(b, a);
    if x == b {
        lemma_root_stable(m, b, 0, n);
        if a == b {
            lemma_rep_is_reached_root(m2, b, 0);
        } else {
            assert(ancestor(m2, b, 1) == ancestor(m2, a, 0));
            lemma_rep_is_reached_root(m2, b, 1);
        }
    } else if is_root(m, x) {
        lemma_root_stable(m, x, 0, n);
        lemma_rep_is_reached_root(m2, x, 0);
    } else {
        let p = parent_in(m, x);
        assert(parent_in(m2, x) == p);
        lemma_link_roots(m, a, b, p, (n - 1) as nat);
        lemma_rep_of_parent(m2, x);
    }
}

/// Making a root its own parent explicitly changes no walk.
pub proof fn lemma_insert_root_same_walks<T>(m: Map<T, T>, r: T, x: T, n: nat)
    requires
        is_root(m, r),
    ensures
        ancestor(m.insert(r, r), x, n) == ancestor(m, x, n),
        is_root(m.insert(r, r), x) == is_root(m, x),
    decreases n,
{
    if n > 0 {
        lemma_insert_root_same_walks(m, r, parent_in(m, x), (n - 1) as nat);
    }
}

/// Making an item its own parent keeps every walk ending: a walk now ends at
/// that item if it passed through it, and where it ended before otherwise.
pub proof fn lemma_insert_self_reaches<T>(m: Map<T, T>, k: T, x: T, n: nat)
    requires
        is_root(m, ancestor(m, x, n)),
    ensures
        reaches_root(m.insert(k, k), x),
    decreases n,
{
    let m2 = m.insert(k, k);
    if x == k || n == 0 {
        lemma_rep_is_reached_root(m2, x, 0);
    } else {
        let p = parent_in(m, x);
        assert(parent_in(m2, x) == p);
        lemma_insert_self_reaches(m, k, p, (n - 1) as nat);
        lemma_rep_of_parent(m2, x);
    }
}

/// Every walk in `m` ends at a root.
pub open spec fn all_reach_roots<T>(m: Map<T, T>) -> bool {
    forall|x: T| #[trigger] reaches_root(m, x)
}

/// In a parent map whose walks all end, `union_map` moves exactly the class
/// of `incoming` into the class of `target`, and its walks all end too.
pub proof fn lemma_union_map_reps<T>(m: Map<T, T>, target: T, incoming: T)
    requires
        all_reach_roots(m),
    ensures
        all_reach_roots(union_map(m, target, incoming)),
        forall|x: T|
            #[trigger] rep_of(union_map(m, target, incoming), x) == if rep_of(m, x) == rep_of(
                m,
                incoming,
            ) {
                rep_of(m, target)
            } else {
                rep_of(m, x)
            },
{
    let a = rep_of(m, target);
    let b = rep_of(m, incoming);
    assert(reaches_root(m, target));
    assert(reaches_root(m, incoming));
    let na = choose|n: nat| is_root(m, #[trigger] ancestor(m, target, n));
    let nb = choose|n: nat| is_root(m, #[trigger] ancestor(m, incoming, n));
    lemma_rep_is_reached_root(m, target, na);
    lemma_rep_is_reached_root(m, incoming, nb);
    assert forall|x: T|
        #![trigger reaches_root(union_map(m, target, incoming), x)]
        #![trigger rep_of(union_map(m, target, incoming), x)]
        reaches_root(union_map(m, target, incoming), x) && rep_of(
            union_map(m, target, incoming),
            x,
        ) == if rep_of(m, x) == b {
            a
        } else {
            rep_of(m, x)
        } by {
        assert(reaches_root(m, x));
        let n = choose|n: nat| is_root(m, #[trigger] ancestor(m, x, n));
        lemma_rep_is_reached_root(m, x, n);
        lemma_link_roots(m, a, b, x, n);
    }
}

/// A union-find structure whose items are keys of a hash map.
#[verifier::reject_recursive_types(T)]
pub struct DSU<T: Eq + Hash> {
    map: HashMap<T, T>,
    rank: Ghost<spec_fn(T) -> nat>,
    bound: Ghost<nat>,
}

impl<T: Eq + Hash> View for DSU<T> {
    type V = Map<T, T>;

    closed spec fn view(&self) -> Map<T, T> {
        self.map@
    }
}

impl<T: Eq + Hash + Copy> DSU<T> {
    /// The structure is well formed: the key type hashes and compares by
    /// value, and parent links strictly climb in rank, so every walk ends.
    pub closed spec fn wf(&self) -> bool {
        &&& obeys_key_model::<T>()
        &&& obeys_concrete_eq::<T>()
        &&& forall|x: T|
            #![trigger self.map@.contains_key(x)]
            self.map@.contains_key(x) ==> {
                &&& (self.rank@)(x) < self.bound@
                &&& (self.rank@)(self.map@[x]) < self.bound@
                &&& self.map@[x] != x ==> (self.rank@)(x) < (self.rank@)(self.map@[x])
            }
    }

    /// How far `x` may still climb before reaching the rank bound.
    pub closed spec fn height(&self, x: T) -> int {
        self.bound@ - (self.rank@)(x)
    }

    proof fn lemma_wf_reaches_root(&self, x: T)
        requires
            self.wf(),
        ensures
            reaches_root(self@, x),
            is_root(self@, rep_of(self@, x)),
        decreases self.bound@ - (self.rank@)(x),
    {
        if is_root(self@, x) {
            lemma_rep_is_reached_root(self@, x, 0);
        } else {
            let p = self.map@[x];
            assert(self.map@.contains_key(x));
            self.lemma_wf_reaches_root(p);
            lemma_rep_of_parent(self@, x);
        }
    }

    /// The walk from `x` reaches a root after `k` steps, through items of the
    /// map whose ranks strictly increase.
    proof fn lemma_walk_ranks(&self, x: T) -> (k: nat)
        requires
            self.wf(),
        ensures
            is_root(self@, ancestor(self@, x, k)),
            forall|j: int| 0 <= j < k ==> self.map@.contains_key(#[trigger] ancestor(self@, x, j as nat)),
            forall|j1: int, j2: int|
                0 <= j1 < j2 <= k ==> (self.rank@)(#[trigger] ancestor(self@, x, j1 as nat)) < (
                self.rank@)(#[trigger] ancestor(self@, x, j2 as nat)),
        decreases self.bound@ - (self.rank@)(x),
    {
        let m = self@;
        if is_root(m, x) {
            0
        } else {
            let p = self.map@[x];
            assert(self.map@.contains_key(x));
            let k2 = self.lemma_walk_ranks(p);
            assert(ancestor(m, x, k2 + 1) == ancestor(m, p, k2));
            assert forall|j: int| 0 <= j < k2 + 1 implies self.map@.contains_key(
                #[trigger] ancestor(m, x, j as nat),
            ) by {
                if j > 0 {
                    assert(ancestor(m, x, j as nat) == ancestor(m, p, (j - 1) as nat));
                }
            }
            assert forall|j1: int, j2: int| 0 <= j1 < j2 <= k2 + 1 implies (self.rank@)(
                #[trigger] ancestor(m, x, j1 as nat),
            ) < (self.rank@)(#[trigger] ancestor(m, x, j2 as nat)) by {
                assert(ancestor(m, x, j2 as nat) == ancestor(m, p, (j2 - 1) as nat));
                if j1 > 0 {
                    assert(ancestor(m, x, j1 as nat) == ancestor(m, p, (j1 - 1) as nat));
                } else {
                    let z: int = 0;
                    assert(ancestor(m, p, z as nat) == p);
                    if j2 - 1 > 0 {
                        assert((self.rank@)(ancestor(m, p, z as nat)) < (self.rank@)(
                            ancestor(m, p, (j2 - 1) as nat),
                        ));
                    }
                }
            }
            k2 + 1
        }
    }

    /// `find` follows at most as many parent links as the map has entries:
    /// the walk from `x` reaches its representative after `k` steps through
    /// items that are not roots, with `k` at most the number of entries.
    pub proof fn lemma_find_steps(&self, x: T)
        requires
            self.wf(),
        ensures
            exists|k: nat|
                k <= self@.dom().len() && rep_of(self@, x) == #[trigger] ancestor(self@, x, k)
                    && forall|j: nat| j < k ==> !is_root(self@, #[trigger] ancestor(self@, x, j)),
    {
        let m = self@;
        let k = self.lemma_walk_ranks(x);
        lemma_rep_is_reached_root(m, x, k);
        let s = Seq::new(k, |j: int| ancestor(m, x, j as nat));
        assert forall|j: nat| j < k implies !is_root(m, #[trigger] ancestor(m, x, j)) by {
            assert((self.rank@)(ancestor(m, x, j as int as nat)) < (self.rank@)(
                ancestor(m, x, (j + 1) as int as nat),
            ));
            lemma_ancestor_succ(m, x, j);
        }
        assert(s.no_duplicates()) by {
            assert forall|i: int, j: int| 0 <= i < s.len() && 0 <= j < s.len() && i != j implies s[i]
                != s[j] by {
                if i < j {
                    assert((self.rank@)(ancestor(m, x, i as nat)) < (self.rank@)(ancestor(m, x, j as nat)));
                } else {
                    assert((self.rank@)(ancestor(m, x, j as nat)) < (self.rank@)(ancestor(m, x, i as nat)));
                }
            }
        }
        s.unique_seq_to_set();
        assert(s.to_set().subset_of(m.dom())) by {
            assert forall|y: T| s.to_set().contains(y) implies m.dom().contains(y) by {
                let i = choose|i: int| 0 <= i < s.len() && s[i] == y;
                assert(self.map@.contains_key(ancestor(m, x, i as nat)));
            }
        }
        assert(m.dom().finite());
        vstd::set_lib::lemma_len_subset(s.to_set(), m.dom());
        assert(k <= m.dom().len() && rep_of(m, x) == ancestor(m, x, k));
    }

    /// In a well-formed structure every walk ends at a root.
    pub proof fn lemma_all_reach_roots(&self)
        requires
            self.wf(),
        ensures
            all_reach_roots(self@),
    {
        assert forall|x: T| #[trigger] reaches_root(self@, x) by {
            self.lemma_wf_reaches_root(x);
        }
    }

    /// Every item of a well-formed structure has a representative, which is
    /// a root and is its own representative.
    pub proof fn lemma_rep_well_defined(&self, x: T)
        requires
            self.wf(),
        ensures
            reaches_root(self@, x),
            is_root(self@, rep_of(self@, x)),
            rep_of(self@, rep_of(self@, x)) == rep_of(self@, x),
    {
        self.lemma_wf_reaches_root(x);
        lemma_rep_is_reached_root(self@, rep_of(self@, x), 0);
    }

    /// An empty structure.
    pub fn new() -> (d: Self)
        requires
            obeys_key_model::<T>(),
            obeys_concrete_eq::<T>(),
        ensures
            d.wf(),
            d@ == Map::<T, T>::empty(),
    {
        DSU { map: HashMap::new(), rank: Ghost(|x: T| 0nat), bound: Ghost(0nat) }
    }

    /// Makes `item` a root of its own (its parent link becomes itself) and
    /// returns it.
    pub fn add(&mut self, item: T) -> (r: T)
        requires
            old(self).wf(),
        ensures
            final(self).wf(),
            r == item,
            final(self)@ == old(self)@.insert(item, item),
            rep_of(final(self)@, item) == item,
            is_root(old(self)@, item) ==> forall|x: T|
                #[trigger] rep_of(final(self)@, x) == rep_of(old(self)@, x),
    {
        let ghost rank = self.rank@;
        let ghost bound = self.bound@;
        self.map.insert(item, item);
        self.bound = Ghost(if rank(item) < bound { bound } else { rank(item) + 1 });
        proof {
            assert forall|x: T| #[trigger] self.map@.contains_key(x) implies {
                &&& (self.rank@)(x) < self.bound@
                &&& (self.rank@)(self.map@[x]) < self.bound@
                &&& self.map@[x] != x ==> (self.rank@)(x) < (self.rank@)(self.map@[x])
            } by {
                if x != item {
                    assert(old(self).map@.contains_key(x));
                }
            }
            lemma_rep_is_reached_root(self@, item, 0);
            if is_root(old(self)@, item) {
                let m = old(self)@;
                assert forall|x: T| #[trigger] rep_of(self@, x) == rep_of(m, x) by {
                    old(self).lemma_wf_reaches_root(x);
                    let n = choose|n: nat| is_root(m, #[trigger] ancestor(m, x, n));
                    lemma_rep_is_reached_root(m, x, n);
                    lemma_insert_root_same_walks(m, item, x, n);
                    lemma_insert_root_same_walks(m, item, ancestor(m, x, n), 0);
                    lemma_rep_is_reached_root(self@, x, n);
                }
            }
        }
        item
    }

    /// The representative of `item`.
    pub fn find(&self, item: T) -> (r: T)
        requires
            self.wf(),
        ensures
            r == rep_of(self@, item),
            is_root(self@, r),
        decreases self.height(item),
    {
        proof {
            reveal(obeys_concrete_eq);
        }
        match self.map.get(&item) {
            Some(parent) => if item == *parent {
                proof {
                    lemma_rep_is_reached_root(self@, item, 0);
                }
                item
            } else {
                assert(self.map@.contains_key(item));
                let r = self.find(*parent);
                proof {
                    lemma_rep_of_parent(self@, item);
                }
                r
            },
            None => {
                proof {
                    lemma_rep_is_reached_root(self@, item, 0);
                }
                item
            },
        }
    }

    /// Merges the class of `incoming` into the class of `target`: the
    /// representative of `incoming` is linked under the representative of
    /// `target`. Returns the former representative of `incoming`.
    pub fn union(&mut self, target: T, incoming: T) -> (r: T)
        requires
            old(self).wf(),
        ensures
            final(self).wf(),
            r == rep_of(old(self)@, incoming),
            final(self)@ == union_map(old(self)@, target, incoming),
            forall|x: T|
                #[trigger] rep_of(final(self)@, x) == if rep_of(old(self)@, x) == rep_of(
                    old(self)@,
                    incoming,
                ) {
                    rep_of(old(self)@, target)
                } else {
                    rep_of(old(self)@, x)
                },
    {
        let target_rep = self.find(target);
        let incoming_rep = self.find(incoming);
        let ghost m = self@;
        let ghost rank = self.rank@;
        let ghost bound = self.bound@;
        let ghost top: nat = if rank(target_rep) > rank(incoming_rep) {
            rank(target_rep)
        } else {
            rank(incoming_rep) + 1
        };
        let ghost new_rank = |x: T|
            if x == target_rep && x != incoming_rep {
                top
            } else {
                rank(x)
            };
        self.map.insert(incoming_rep, target_rep);
        self.rank = Ghost(new_rank);
        self.bound = Ghost(if top < bound { bound } else { top + 1 });
        proof {
            assert forall|x: T| #[trigger] self.map@.contains_key(x) implies {
                &&& (self.rank@)(x) < self.bound@
                &&& (self.rank@)(self.map@[x]) < self.bound@
                &&& self.map@[x] != x ==> (self.rank@)(x) < (self.rank@)(self.map@[x])
            } by {
                if x != incoming_rep {
                    assert(m.contains_key(x));
                    if x == target_rep {
                        assert(m[x] == x);
                    } else if m[x] == target_rep {
                        assert(m[x] != x);
                    }
                }
            }
            assert forall|x: T|
                #[trigger] rep_of(self@, x) == if rep_of(m, x) == rep_of(m, incoming) {
                    rep_of(m, target)
                } else {
                    rep_of(m, x)
                } by {
                old(self).lemma_wf_reaches_root(x);
                let n = choose|n: nat| is_root(m, #[trigger] ancestor(m, x, n));
                lemma_rep_is_reached_root(m, x, n);
                lemma_link_roots(m, target_rep, incoming_rep, x, n);
            }
        }
        incoming_rep
    }
}

impl<T: Eq + Hash + Copy> Default for DSU<T> {
    /// An empty structure; it is well formed when the key type hashes and
    /// compares by value (see [`DSU::new`]).
    fn default() -> (d: Self)
        ensures
            d@ == Map::<T, T>::empty(),
            obeys_key_model::<T>() && obeys_concrete_eq::<T>() ==> d.wf(),
    {
        DSU { map: HashMap::new(), rank: Ghost(|x: T| 0nat), bound: Ghost(0nat) }
    }
}

} // verus!
