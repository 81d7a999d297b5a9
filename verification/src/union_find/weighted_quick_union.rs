use vstd::prelude::*;
use vstd::set_lib::lemma_int_range;
use vstd::set_lib::lemma_len_subset;
use vstd::set_lib::lemma_set_disjoint_lens;
use vstd::set_lib::set_int_range;
use std::collections::HashMap;
use crate::union_find::UnionBeforeInsert;

verus! {

broadcast use vstd::std_specs::hash::group_hash_axioms;

/// A disjoint-set forest over `u64` items, merged with the union-by-size
/// heuristic and queried by a plain walk to the root (no path compression).
///
/// Each distinct item is registered under a dense identifier, assigned in
/// insertion order. `parents` and `sizes` are indexed by identifier:
/// `parents[i] == i` marks a root, and for a root `r`, `sizes[r]` counts the
/// identifiers whose root is `r`. The ghost fields carry, for every
/// identifier, the root its parent chain reaches and the length of that
/// chain; they let the contracts speak of groups directly.
#[allow(non_camel_case_types)]
pub struct Weighted_Quick_Union {
    item_to_id: HashMap<u64, usize>,
    parents: Vec<usize>,
    sizes: Vec<usize>,
    roots: Ghost<Seq<int>>,
    depths: Ghost<Seq<nat>>,
}

impl Weighted_Quick_Union {
    /// How many distinct items have been inserted so far.
    pub closed spec fn count(&self) -> nat {
        self.parents@.len()
    }

    /// The registry, as a map from item to identifier.
    pub closed spec fn id_map(&self) -> Map<u64, usize> {
        self.item_to_id@
    }

    /// Whether `item` has been inserted.
    pub open spec fn registered(&self, item: u64) -> bool {
        self.id_map().dom().contains(item)
    }

    /// The identifier of a registered item.
    pub open spec fn id_of(&self, item: u64) -> int {
        self.id_map()[item] as int
    }

    /// The parent entry of each identifier.
    pub closed spec fn parent_seq(&self) -> Seq<usize> {
        self.parents@
    }

    /// The size entry of each identifier.
    pub closed spec fn size_seq(&self) -> Seq<usize> {
        self.sizes@
    }

    /// The root that identifier `i`'s parent chain reaches.
    pub closed spec fn root_of_id(&self, i: int) -> int {
        self.roots@[i]
    }

    /// The group of identifier `r`: every identifier whose root is `r`.
    pub open spec fn group_of(&self, r: int) -> Set<int> {
        Set::new(|i: int| 0 <= i < self.count() && self.root_of_id(i) == r)
    }

    /// Two items are connected when both are registered and their
    /// identifiers share a root. An unregistered item is connected to
    /// nothing, itself included.
    pub open spec fn connected(&self, p: u64, q: u64) -> bool {
        &&& self.registered(p)
        &&& self.registered(q)
        &&& self.root_of_id(self.id_of(p)) == self.root_of_id(self.id_of(q))
    }

    /// Well-formedness of the forest: the sequences are index-aligned with
    /// the registry's identifier range, parent chains reach a root (witnessed
    /// by the ghost chain lengths), and each root's size entry counts its
    /// group exactly.
    pub closed spec fn wf(&self) -> bool {
        let n = self.count() as int;
        &&& self.sizes@.len() == n
        &&& self.roots@.len() == n
        &&& self.depths@.len() == n
        &&& forall|x: u64| #[trigger] self.item_to_id@.dom().contains(x)
            ==> (self.item_to_id@[x] as int) < n
        &&& forall|i: int| 0 <= i < n ==> (#[trigger] self.parents@[i] as int) < n
        &&& forall|i: int| 0 <= i < n ==> 0 <= #[trigger] self.roots@[i] < n
        &&& forall|i: int| 0 <= i < n ==> ((self.parents@[i] as int == i) <==> (#[trigger] self.depths@[i] == 0))
        &&& forall|i: int| 0 <= i < n && #[trigger] self.parents@[i] as int == i ==> self.roots@[i] == i
        &&& forall|i: int| 0 <= i < n && #[trigger] self.parents@[i] as int != i ==> {
            &&& self.depths@[i] == self.depths@[self.parents@[i] as int] + 1
            &&& self.roots@[i] == self.roots@[self.parents@[i] as int]
        }
        &&& forall|i: int| 0 <= i < n ==> self.parents@[#[trigger] self.roots@[i]] as int == self.roots@[i]
        &&& forall|r: int| 0 <= r < n && #[trigger] self.parents@[r] as int == r
            ==> self.sizes@[r] as nat == self.group_of(r).len()
    }

    /// Creates an empty structure: no items, empty forest.
    pub fn new() -> (r: Self)
        ensures
            r.wf(),
            r.count() == 0,
            forall|x: u64| !r.registered(x),
    {
        Self::default()
    }

    /// The total count of distinct items ever inserted. This is a raw item
    /// count, not a group count.
    pub fn size(&self) -> (r: usize)
        ensures
            r == self.count(),
    {
        self.parents.len()
    }

    /// Every group is a finite set of identifiers.
    proof fn lemma_group_finite(&self, r: int)
        ensures
            self.group_of(r).finite(),
    {
        let n = self.count() as int;
        lemma_int_range(0, n);
        assert(self.group_of(r).subset_of(set_int_range(0, n)));
        lemma_len_subset(self.group_of(r), set_int_range(0, n));
    }

    /// Registers `item` if it is new: it gets the next identifier, appended
    /// to the forest as a singleton root. Re-inserting a present item is a
    /// silent no-op.
    pub fn insert(&mut self, item: u64)
        requires
            old(self).wf(),
        ensures
            final(self).wf(),
            final(self).registered(item),
            old(self).registered(item) ==> *final(self) == *old(self),
            !old(self).registered(item) ==> {
                &&& final(self).count() == old(self).count() + 1
                &&& final(self).id_of(item) == old(self).count()
                &&& final(self).id_map() == old(self).id_map().insert(item, old(self).count() as usize)
                &&& final(self).parent_seq() == old(self).parent_seq().push(old(self).count() as usize)
                &&& final(self).size_seq() == old(self).size_seq().push(1usize)
            },
            forall|x: u64| x != item ==> final(self).registered(x) == old(self).registered(x),
            forall|x: u64| x != item && old(self).registered(x)
                ==> final(self).id_of(x) == old(self).id_of(x),
            forall|a: u64, b: u64| #[trigger] final(self).connected(a, b)
                <==> (old(self).connected(a, b) || (a == item && b == item)),
    {
        if self.item_to_id.contains_key(&item) {
            return;
        }
        let new_id: usize = self.parents.len();
        self.item_to_id.insert(item, new_id);
        self.parents.push(new_id);
        self.sizes.push(1);
        proof {
            let n = new_id as int;
            self.roots@ = self.roots@.push(n);
            self.depths@ = self.depths@.push(0);
            assert forall|r: int| 0 <= r < n + 1 && #[trigger] self.parents@[r] as int == r
                implies self.sizes@[r] as nat == self.group_of(r).len() by {
                if r < n {
                    assert(self.group_of(r) =~= old(self).group_of(r));
                } else {
                    assert(self.group_of(n) =~= Set::empty().insert(n));
                }
            }
            assert forall|a: u64, b: u64| #[trigger] self.connected(a, b)
                implies (old(self).connected(a, b) || (a == item && b == item)) by {
                if a != item && b != item {
                    assert(old(self).connected(a, b));
                }
            }
        }
    }

    /// Follows parent links from `child_id` until the self-referencing root.
    /// No path compression: the walk leaves the forest untouched.
    fn root_of(&self, child_id: usize) -> (r: usize)
        requires
            self.wf(),
            child_id < self.count(),
        ensures
            r as int == self.root_of_id(child_id as int),
            r < self.count(),
            self.parent_seq()[r as int] as int == r as int,
    {
        let mut cur_id = child_id;
        while self.parents[cur_id] != cur_id
            invariant
                self.wf(),
                cur_id < self.count(),
                self.root_of_id(cur_id as int) == self.root_of_id(child_id as int),
            decreases self.depths@[cur_id as int],
        {
            cur_id = self.parents[cur_id];
        }
        cur_id
    }

    /// Whether `p` and `q` lie in the same group. Items never inserted are
    /// connected to nothing, each other included.
    pub fn is_connected(&self, p: &u64, q: &u64) -> (r: bool)
        requires
            self.wf(),
        ensures
            r == self.connected(*p, *q),
    {
        let pid: usize = match self.item_to_id.get(p) {
            Some(id) => *id,
            None => {
                return false;
            },
        };
        let qid: usize = match self.item_to_id.get(q) {
            Some(id) => *id,
            None => {
                return false;
            },
        };
        self.root_of(pid) == self.root_of(qid)
    }

    /// The size entries of two distinct roots count two disjoint groups, so
    /// together they never exceed the item count.
    proof fn lemma_two_group_sizes(&self, a: int, b: int)
        requires
            self.wf(),
            0 <= a < self.count(),
            0 <= b < self.count(),
            self.parent_seq()[a] as int == a,
            self.parent_seq()[b] as int == b,
            a != b,
        ensures
            self.size_seq()[a] + self.size_seq()[b] <= self.count(),
    {
        let n = self.count() as int;
        let ga = self.group_of(a);
        let gb = self.group_of(b);
        self.lemma_group_finite(a);
        self.lemma_group_finite(b);
        assert(ga.disjoint(gb));
        lemma_set_disjoint_lens(ga, gb);
        lemma_int_range(0, n);
        assert((ga + gb).subset_of(set_int_range(0, n)));
        lemma_len_subset(ga + gb, set_int_range(0, n));
    }

    /// Attaches the root `loser` under the root `winner` and adds the
    /// absorbed group's size into the surviving root's size entry. No other
    /// entry of either sequence changes.
    fn link(&mut self, loser: usize, winner: usize)
        requires
            old(self).wf(),
            loser < old(self).count(),
            winner < old(self).count(),
            old(self).parent_seq()[loser as int] as int == loser as int,
            old(self).parent_seq()[winner as int] as int == winner as int,
            loser != winner,
        ensures
            final(self).wf(),
            final(self).count() == old(self).count(),
            final(self).id_map() == old(self).id_map(),
            final(self).parent_seq() == old(self).parent_seq().update(loser as int, winner),
            final(self).size_seq() == old(self).size_seq().update(
                winner as int,
                (old(self).size_seq()[winner as int] + old(self).size_seq()[loser as int]) as usize,
            ),
            forall|i: int| 0 <= i < old(self).count()
                ==> final(self).root_of_id(i) == (if old(self).root_of_id(i) == loser as int {
                    winner as int
                } else {
                    old(self).root_of_id(i)
                }),
    {
        let n: usize = self.parents.len();
        proof {
            self.lemma_two_group_sizes(winner as int, loser as int);
            assert(self.sizes@[winner as int] + self.sizes@[loser as int] <= n);
        }
        let total: usize = self.sizes[winner] + self.sizes[loser];
        self.parents.set(loser, winner);
        self.sizes.set(winner, total);
        proof {
            let n = self.count() as int;
            let l = loser as int;
            let w = winner as int;
            let old_roots = old(self).roots@;
            let old_depths = old(self).depths@;
            self.roots@ = Seq::new(old_roots.len(), |i: int| if old_roots[i] == l { w } else { old_roots[i] });
            self.depths@ = Seq::new(
                old_depths.len(),
                |i: int| if old_roots[i] == l { (old_depths[i] + 1) as nat } else { old_depths[i] },
            );
            assert forall|r: int| 0 <= r < n && #[trigger] self.parents@[r] as int == r
                implies self.sizes@[r] as nat == self.group_of(r).len() by {
                if r == w {
                    assert(self.group_of(w) =~= old(self).group_of(w) + old(self).group_of(l));
                    old(self).lemma_group_finite(w);
                    old(self).lemma_group_finite(l);
                    assert(old(self).group_of(w).disjoint(old(self).group_of(l)));
                    lemma_set_disjoint_lens(old(self).group_of(w), old(self).group_of(l));
                } else {
                    assert(self.group_of(r) =~= old(self).group_of(r));
                }
            }
        }
    }

    /// Merges the groups of `p` and `q` by size: the strictly smaller
    /// group's root is attached under the larger one's (on a tie, `p`'s root
    /// goes under `q`'s), and the surviving root's size entry absorbs the
    /// other group's. Fails, mutating nothing, when either item was never
    /// inserted; merging a group with itself succeeds and changes nothing.
    pub fn union(&mut self, p: &u64, q: &u64) -> (r: Result<(), UnionBeforeInsert>)
        requires
            old(self).wf(),
        ensures
            final(self).wf(),
            r is Ok <==> (old(self).registered(*p) && old(self).registered(*q)),
            r is Err ==> *final(self) == *old(self),
            final(self).count() == old(self).count(),
            final(self).id_map() == old(self).id_map(),
            r is Ok ==> final(self).connected(*p, *q),
            r is Ok ==> Self::merge_effect(*old(self), *final(self), *p, *q),
            r is Ok ==> ({
                let pr = old(self).root_of_id(old(self).id_of(*p));
                let qr = old(self).root_of_id(old(self).id_of(*q));
                if pr == qr {
                    &&& final(self).parent_seq() == old(self).parent_seq()
                    &&& final(self).size_seq() == old(self).size_seq()
                } else if old(self).size_seq()[pr] > old(self).size_seq()[qr] {
                    &&& final(self).parent_seq() == old(self).parent_seq().update(qr, old(self).parent_seq()[pr])
                    &&& final(self).size_seq() == old(self).size_seq().update(
                        pr,
                        (old(self).size_seq()[pr] + old(self).size_seq()[qr]) as usize,
                    )
                } else {
                    &&& final(self).parent_seq() == old(self).parent_seq().update(pr, old(self).parent_seq()[qr])
                    &&& final(self).size_seq() == old(self).size_seq().update(
                        qr,
                        (old(self).size_seq()[qr] + old(self).size_seq()[pr]) as usize,
                    )
                }
            }),
    {
        let pid: usize = match self.item_to_id.get(p) {
            Some(id) => *id,
            None => {
                return Err(UnionBeforeInsert);
            },
        };
        let qid: usize = match self.item_to_id.get(q) {
            Some(id) => *id,
            None => {
                return Err(UnionBeforeInsert);
            },
        };
        let proot = self.root_of(pid);
        let qroot = self.root_of(qid);
        if proot == qroot {
            return Ok(());
        }
        if self.sizes[proot] > self.sizes[qroot] {
            self.link(qroot, proot);
        } else {
            self.link(proot, qroot);
        }
        Ok(())
    }

    /// How one successful `union(p, q)` reshapes connectivity: two items end
    /// up connected exactly when they already were, or when one side reaches
    /// `p`'s old group and the other reaches `q`'s.
    pub open spec fn merge_effect(pre: Self, post: Self, p: u64, q: u64) -> bool {
        forall|a: u64, b: u64| #[trigger] post.connected(a, b) <==> (pre.connected(a, b)
            || (pre.connected(a, p) && pre.connected(b, q))
            || (pre.connected(a, q) && pre.connected(b, p)))
    }

    /// The parent entry of every identifier, in identifier order.
    pub fn parent_entries(&self) -> (r: Vec<usize>)
        ensures
            r@ == self.parent_seq(),
    {
        let mut out: Vec<usize> = Vec::new();
        let mut i: usize = 0;
        while i < self.parents.len()
            invariant
                i <= self.parents@.len(),
                out@ == self.parents@.subrange(0, i as int),
            decreases self.parents@.len() - i,
        {
            out.push(self.parents[i]);
            i = i + 1;
        }
        proof {
            assert(out@ =~= self.parents@);
        }
        out
    }

    /// The size entry of every identifier, in identifier order. Only the
    /// entries of roots are meaningful: each counts its root's group.
    pub fn size_entries(&self) -> (r: Vec<usize>)
        ensures
            r@ == self.size_seq(),
    {
        let mut out: Vec<usize> = Vec::new();
        let mut i: usize = 0;
        while i < self.sizes.len()
            invariant
                i <= self.sizes@.len(),
                out@ == self.sizes@.subrange(0, i as int),
            decreases self.sizes@.len() - i,
        {
            out.push(self.sizes[i]);
            i = i + 1;
        }
        proof {
            assert(out@ =~= self.sizes@);
        }
        out
    }

    /// The two forest sequences are index-aligned with the identifier
    /// range: each holds exactly one entry per distinct item inserted.
    pub proof fn lemma_seqs_aligned(&self)
        requires
            self.wf(),
        ensures
            self.parent_seq().len() == self.count(),
            self.size_seq().len() == self.count(),
    {
    }

    /// In a well-formed forest every identifier reaches a canonical root:
    /// an in-range identifier whose parent entry is itself, and which is its
    /// own root.
    pub proof fn lemma_root_is_canonical(&self, i: int)
        requires
            self.wf(),
            0 <= i < self.count(),
        ensures
            0 <= self.root_of_id(i) < self.count(),
            self.parent_seq()[self.root_of_id(i)] as int == self.root_of_id(i),
            self.root_of_id(self.root_of_id(i)) == self.root_of_id(i),
    {
    }

    /// In a well-formed forest the size entry of every root counts exactly
    /// the identifiers of its group.
    pub proof fn lemma_root_size_counts_group(&self, r: int)
        requires
            self.wf(),
            0 <= r < self.count(),
            self.parent_seq()[r] as int == r,
        ensures
            self.size_seq()[r] as nat == self.group_of(r).len(),
    {
    }

    /// Every inserted item is connected to itself.
    pub proof fn lemma_connected_reflexive(&self, x: u64)
        requires
            self.registered(x),
        ensures
            self.connected(x, x),
    {
    }

    /// Connectivity does not depend on the order of its two items.
    pub proof fn lemma_connected_symmetric(&self, p: u64, q: u64)
        ensures
            self.connected(p, q) == self.connected(q, p),
    {
    }

    /// Items connected through a common item are connected to each other.
    pub proof fn lemma_connected_transitive(&self, a: u64, b: u64, c: u64)
        requires
            self.connected(a, b),
            self.connected(b, c),
        ensures
            self.connected(a, c),
    {
    }

    /// An item never inserted is connected to nothing — whether or not the
    /// other item was inserted.
    pub proof fn lemma_unregistered_isolated(&self, x: u64, y: u64)
        requires
            !self.registered(x),
        ensures
            !self.connected(x, y),
            !self.connected(y, x),
    {
    }

    /// A successful union never disconnects: whatever was connected before
    /// the merge stays connected after it.
    pub proof fn lemma_merge_preserves_connected(pre: Self, post: Self, p: u64, q: u64, a: u64, b: u64)
        requires
            Self::merge_effect(pre, post, p, q),
            pre.connected(a, b),
        ensures
            post.connected(a, b),
    {
    }

    /// A union touches only the two groups it merges: an item connected to
    /// neither side keeps exactly its old connections.
    pub proof fn lemma_merge_leaves_others(pre: Self, post: Self, p: u64, q: u64, x: u64)
        requires
            Self::merge_effect(pre, post, p, q),
            !pre.connected(x, p),
            !pre.connected(x, q),
        ensures
            forall|y: u64| post.connected(x, y) == pre.connected(x, y),
    {
        assert forall|y: u64| post.connected(x, y) == pre.connected(x, y) by {
            assert(post.connected(x, y) <==> (pre.connected(x, y) || (pre.connected(x, p)
                && pre.connected(y, q)) || (pre.connected(x, q) && pre.connected(y, p))));
        }
    }
}

impl Default for Weighted_Quick_Union {
    fn default() -> (r: Self)
        ensures
            r.wf(),
            r.count() == 0,
            forall|x: u64| !r.registered(x),
    {
        Weighted_Quick_Union {
            item_to_id: HashMap::new(),
            parents: Vec::new(),
            sizes: Vec::new(),
            roots: Ghost(Seq::empty()),
            depths: Ghost(Seq::empty()),
        }
    }
}

} // verus!
